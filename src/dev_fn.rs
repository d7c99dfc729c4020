use vstd::prelude::*;
use unicode_segmentation::UnicodeSegmentation;
use crate::model::{
    json_parses, json_entries, entry_texts,
    FrequencyModel, ModelError, count_in, total_of, sum_maps, merge_all, views, totals_sum, sum_counts,
    chars_of, lemma_count_step, lemma_prefix_total_le, lemma_merge_views,
};

verus! {

/// Adds every count of `map2` into `map`.
pub fn add_to_map(map: &mut FrequencyModel, map2: FrequencyModel)
    requires
        old(map).wf(),
        map2.wf(),
        old(map).total() + map2.total() <= u64::MAX,
    ensures
        final(map).wf(),
        final(map)@ == sum_maps(old(map)@, map2@),
        final(map).total() == old(map).total() + map2.total(),
{
    let ghost m0 = *map;
    let ghost m2 = map2;
    let e = map2.into_entries();
    let mut i: usize = 0;
    while i < e.len()
        invariant
            map.wf(),
            m2.wf(),
            e@ == m2.entries_view(),
            i <= e@.len(),
            m0.total() + m2.total() <= u64::MAX,
            map.total() == m0.total() + total_of(e@.subrange(0, i as int)),
            forall|k: Seq<char>| #[trigger]
                map.count(k) == m0.count(k) + count_in(e@.subrange(0, i as int), k),
        decreases e@.len() - i,
    {
        proof {
            lemma_count_step(e@, i as int, Seq::empty());
            lemma_prefix_total_le(e@, i as int + 1);
            assert forall|k: Seq<char>| #[trigger]
                count_in(e@.subrange(0, i as int + 1), k) == count_in(e@.subrange(0, i as int), k)
                    + if e@[i as int].0@ == k {
                    e@[i as int].1 as nat
                } else {
                    0
                } by {
                lemma_count_step(e@, i as int, k);
            }
        }
        let key = e[i].0.clone();
        map.add(key, e[i].1);
        i = i + 1;
    }
    proof {
        assert(e@.subrange(0, i as int) =~= e@);
        FrequencyModel::lemma_view_of_sum(&m0, &m2, map);
    }
}

/// Merges local models into one whose counts are the key-wise sums of theirs.
pub fn merge_models(models: Vec<FrequencyModel>) -> (r: FrequencyModel)
    requires
        forall|i: int| 0 <= i < models@.len() ==> (#[trigger] models@[i]).wf(),
        totals_sum(models@) <= u64::MAX,
    ensures
        r.wf(),
        r@ == merge_all(views(models@)),
        r.total() == totals_sum(models@),
{
    let ghost orig = models@;
    let mut models = models;
    let mut acc = FrequencyModel::new();
    while models.len() > 0
        invariant
            acc.wf(),
            forall|i: int| 0 <= i < models@.len() ==> (#[trigger] models@[i]).wf(),
            models@.len() <= orig.len(),
            models@ == orig.subrange(0, models@.len() as int),
            totals_sum(orig) <= u64::MAX,
            acc.total() + totals_sum(models@) == totals_sum(orig),
            forall|k: Seq<char>| #[trigger]
                acc.count(k) + sum_counts(views(models@), k) == sum_counts(views(orig), k),
        decreases models@.len(),
    {
        let ghost before = models@;
        let m = models.pop().unwrap();
        let ghost a0 = acc;
        proof {
            assert(before.drop_last() =~= models@);
            assert(views(before).drop_last() =~= views(models@));
            assert(models@ =~= orig.subrange(0, models@.len() as int));
        }
        add_to_map(&mut acc, m);
        proof {
            assert forall|k: Seq<char>| #[trigger]
                acc.count(k) + sum_counts(views(models@), k) == sum_counts(views(orig), k) by {
                a0.lemma_count_at(k);
                m.lemma_count_at(k);
                acc.lemma_count_at(k);
                assert(views(before).last() == m@);
                assert(a0.count(k) + sum_counts(views(before), k) == sum_counts(views(orig), k));
            }
        }
    }
    proof {
        assert(views(models@) =~= Seq::empty());
        assert forall|k: Seq<char>| #[trigger] acc@.contains_key(k) == merge_all(views(orig)).contains_key(k)
            by {
            lemma_merge_views(orig, k);
            assert(acc.count(k) + sum_counts(views(models@), k) == sum_counts(views(orig), k));
        }
        assert forall|k: Seq<char>| acc@.contains_key(k) implies #[trigger] acc@[k] == merge_all(
            views(orig),
        )[k] by {
            lemma_merge_views(orig, k);
            assert(acc.count(k) + sum_counts(views(models@), k) == sum_counts(views(orig), k));
        }
        assert(acc@ =~= merge_all(views(orig)));
    }
    acc
}

/// The text views of a sequence of strings.
pub open spec fn texts(v: Seq<String>) -> Seq<Seq<char>> {
    v.map_values(|s: String| s@)
}

/// The key of the window of `level` units that starts at unit `i`.
pub open spec fn window(u: Seq<Seq<char>>, i: int, level: int) -> Seq<char> {
    u.subrange(i, i + level).flatten()
}

/// How many windows of `level` units a document of `n` units has.
pub open spec fn num_windows(n: int, level: int) -> nat {
    if level <= n {
        (n - level + 1) as nat
    } else {
        0
    }
}

/// How many of the first `m` windows of `level` units have the key `k`.
pub open spec fn occurrences(u: Seq<Seq<char>>, level: int, m: int, k: Seq<char>) -> nat
    decreases m,
{
    if m <= 0 {
        0
    } else {
        occurrences(u, level, m - 1, k) + if window(u, m - 1, level) == k {
            1nat
        } else {
            0nat
        }
    }
}

/// The grapheme clusters of a text, in order.
pub uninterp spec fn graphemes_of(s: Seq<char>) -> Seq<Seq<char>>;

/// Relies on unicode_segmentation's `graphemes(true)`: the extended grapheme
/// clusters of `s`, which depend on its characters alone; they are non-empty
/// and, put back together, give `s`.
#[verifier::external_body]
pub(crate) fn split_graphemes(s: &str) -> (r: Vec<String>)
    ensures
        texts(r@) == graphemes_of(s@),
        texts(r@).flatten() == s@,
        forall|i: int| 0 <= i < r@.len() ==> (#[trigger] r@[i])@.len() > 0,
{
    s.graphemes(true).map(|g| g.to_string()).collect()
}

/// Counts the overlapping windows of `level` consecutive units of a document,
/// each key being the concatenated text of its window.
pub fn count_windows(units: &Vec<String>, level: usize) -> (r: FrequencyModel)
    requires
        level >= 1,
    ensures
        r.wf(),
        r.total() == num_windows(units@.len() as int, level as int),
        level > units@.len() ==> r@ == Map::<Seq<char>, nat>::empty(),
        forall|k: Seq<char>| #[trigger]
            r.count(k) == occurrences(
                texts(units@),
                level as int,
                num_windows(units@.len() as int, level as int) as int,
                k,
            ),
{
    let ghost u = texts(units@);
    let mut r = FrequencyModel::new();
    if level > units.len() {
        return r;
    }
    let len = units.len();
    let n = len - level + 1;
    let mut i: usize = 0;
    while i < n
        invariant
            len == units@.len(),
            r.wf(),
            u == texts(units@),
            1 <= level <= units@.len(),
            n == units@.len() - level + 1,
            i <= n,
            r.total() == i,
            forall|k: Seq<char>| #[trigger] r.count(k) == occurrences(u, level as int, i as int, k),
        decreases n - i,
    {
        let mut key = String::new();
        let mut j: usize = i;
        let end = i + level;
        while j < end
            invariant
                end == i + level,
                u == texts(units@),
                i < n,
                n == units@.len() - level + 1,
                i <= j <= i + level,
                key@ == u.subrange(i as int, j as int).flatten(),
            decreases i + level - j,
        {
            proof {
                u.subrange(i as int, j as int).lemma_flatten_push(u[j as int]);
                assert(u.subrange(i as int, j as int).push(u[j as int]) =~= u.subrange(
                    i as int,
                    j as int + 1,
                ));
            }
            key.append(units[j].as_str());
            j = j + 1;
        }
        proof {
            assert(i < n <= usize::MAX);
        }
        let ghost r0 = r;
        r.add(key, 1);
        i = i + 1;
        proof {
            assert forall|k: Seq<char>| #[trigger]
                r.count(k) == occurrences(u, level as int, i as int, k) by {
                assert(r.count(k) == r0.count(k) + if k == window(u, i - 1, level as int) {
                    1nat
                } else {
                    0nat
                });
            }
        }
    }
    r
}

/// Splits a document into grapheme clusters and counts its windows of
/// `level` clusters.
pub fn count_document(text: &str, level: usize) -> (r: FrequencyModel)
    requires
        level >= 1,
    ensures
        r.wf(),
        r.total() == num_windows(graphemes_of(text@).len() as int, level as int),
        forall|k: Seq<char>| #[trigger]
            r.count(k) == occurrences(
                graphemes_of(text@),
                level as int,
                num_windows(graphemes_of(text@).len() as int, level as int) as int,
                k,
            ),
{
    let units = split_graphemes(text);
    count_windows(&units, level)
}

/// The JSON text of a frequency mapping: an object from keys to counts.
pub uninterp spec fn json_of(m: Map<Seq<char>, nat>) -> Seq<char>;

/// Relies on serde_json::to_string on a `BTreeMap` from string keys to counts:
/// it cannot fail (the map's keys are strings and its values integers), its
/// text is determined by the mapping alone, and serde_json::from_str reads
/// the same pairs back from it.
#[verifier::external_body]
fn to_json(model: &FrequencyModel) -> (r: Result<String, serde_json::Error>)
    requires
        model.wf(),
    ensures
        r is Ok,
        r matches Ok(s) ==> s@ == json_of(model@) && json_parses(s@) && json_entries(s@).to_multiset()
            == entry_texts(model.entries_view()).to_multiset(),
{
    let m: std::collections::BTreeMap<&str, u64> =
        model.entries().iter().map(|e| (e.0.as_str(), e.1)).collect();
    serde_json::to_string(&m)
}

/// Encodes a model as a JSON object from keys to counts.
pub fn encode_model(model: &FrequencyModel) -> (r: Result<String, ModelError>)
    requires
        model.wf(),
    ensures
        r is Ok,
        r matches Ok(s) ==> s@ == json_of(model@) && json_parses(s@) && json_entries(s@).to_multiset()
            == entry_texts(model.entries_view()).to_multiset(),
{
    match to_json(model) {
        Ok(s) => Ok(s),
        Err(_) => Err(ModelError::Serialization),
    }
}

/// A letter that cleaned text keeps: the lower-case Russian alphabet.
pub open spec fn is_letter(c: char) -> bool {
    ('\u{430}' <= c <= '\u{44f}') || c == '\u{451}'
}

/// A character that separates words.
pub open spec fn is_gap(c: char) -> bool {
    c == ' ' || c == '\n'
}

/// A text cut into words at its separators: each word holds the letters
/// between two separators, and characters that are neither are dropped.
/// Words may be empty (two separators in a row, or one at either end).
pub open spec fn split_words(s: Seq<char>) -> Seq<Seq<char>>
    decreases s.len(),
{
    if s.len() == 0 {
        seq![Seq::empty()]
    } else {
        let ws = split_words(s.drop_last());
        let c = s.last();
        if is_gap(c) {
            ws.push(Seq::empty())
        } else if is_letter(c) {
            ws.update(ws.len() - 1, ws.last().push(c))
        } else {
            ws
        }
    }
}

/// The non-empty words of a list, in order.
pub open spec fn drop_empty(ws: Seq<Seq<char>>) -> Seq<Seq<char>>
    decreases ws.len(),
{
    if ws.len() == 0 {
        ws
    } else if ws.last().len() == 0 {
        drop_empty(ws.drop_last())
    } else {
        drop_empty(ws.drop_last()).push(ws.last())
    }
}

/// Words joined by single spaces.
pub open spec fn join_words(ws: Seq<Seq<char>>) -> Seq<char>
    decreases ws.len(),
{
    if ws.len() == 0 {
        Seq::empty()
    } else if ws.len() == 1 {
        ws[0]
    } else {
        join_words(ws.drop_last()) + seq![' '] + ws.last()
    }
}

/// The cleaned form of a text: its non-empty words of kept letters, joined
/// by single spaces.
pub open spec fn cleaned(s: Seq<char>) -> Seq<char> {
    join_words(drop_empty(split_words(s)))
}

/// The lower-case form of a text.
pub uninterp spec fn lower_of(s: Seq<char>) -> Seq<char>;

/// Relies on str::to_lowercase: the result depends on the characters alone.
#[verifier::external_body]
fn lowercase(s: &str) -> (r: String)
    ensures
        r@ == lower_of(s@),
{
    s.to_lowercase()
}

/// Relies on collecting characters into a `String`: the same characters, in
/// order.
#[verifier::external_body]
fn string_of(v: &Vec<char>) -> (r: String)
    ensures
        r@ == v@,
{
    v.iter().collect()
}

/// Cleans an already lower-cased text.
pub fn clean_text(lowered: &str) -> (r: String)
    ensures
        r@ == cleaned(lowered@),
{
    let cs = chars_of(lowered);
    let mut out: Vec<char> = Vec::new();
    let mut gap = false;
    let mut i: usize = 0;
    proof {
        let w = split_words(cs@.subrange(0, 0));
        assert(cs@.subrange(0, 0) =~= Seq::<char>::empty());
        assert(w == seq![Seq::<char>::empty()]);
        assert(w.last().len() == 0);
        assert(w.drop_last() =~= Seq::<Seq<char>>::empty());
        assert(drop_empty(w.drop_last()) =~= Seq::<Seq<char>>::empty());
        assert(drop_empty(w) =~= Seq::<Seq<char>>::empty());
    }
    while i < cs.len()
        invariant
            i <= cs@.len(),
            cs@ == lowered@,
            split_words(cs@.subrange(0, i as int)).len() >= 1,
            out@ == cleaned(cs@.subrange(0, i as int)),
            out@.len() > 0 <==> drop_empty(split_words(cs@.subrange(0, i as int))).len() > 0,
            gap ==> split_words(cs@.subrange(0, i as int)).last().len() == 0,
            !gap && split_words(cs@.subrange(0, i as int)).last().len() == 0 ==> out@.len() == 0,
        decreases cs@.len() - i,
    {
        let ghost ws = split_words(cs@.subrange(0, i as int));
        let ghost a = ws.drop_last();
        assert(cs@.subrange(0, i + 1).drop_last() =~= cs@.subrange(0, i as int));
        assert(ws =~= a.push(ws.last()));
        let c = cs[i];
        if ('\u{430}' <= c && c <= '\u{44f}') || c == '\u{451}' {
            let ghost w2 = ws.update(ws.len() - 1, ws.last().push(c));
            assert(w2.drop_last() =~= a);
            assert(w2.last() == ws.last().push(c));
            let ghost out0 = out@;
            if gap && out.len() > 0 {
                out.push(' ');
            }
            out.push(c);
            gap = false;
            proof {
                let d = drop_empty(a);
                if ws.last().len() == 0 {
                    assert(drop_empty(ws) == d);
                    assert(ws.last().push(c) =~= seq![c]);
                    assert(drop_empty(w2) == d.push(seq![c]));
                    assert(d.push(seq![c]).drop_last() =~= d);
                    if d.len() == 0 {
                        assert(out@ =~= seq![c]);
                    } else {
                        assert(out@ =~= out0 + seq![' '] + seq![c]);
                    }
                } else {
                    assert(drop_empty(ws) == drop_empty(a).push(ws.last()));
                    assert(drop_empty(w2) == drop_empty(a).push(ws.last().push(c)));
                    assert(drop_empty(a).push(ws.last().push(c)).drop_last() =~= drop_empty(a));
                    assert(drop_empty(a).push(ws.last()).drop_last() =~= drop_empty(a));
                    if d.len() == 0 {
                        assert(out@ =~= ws.last().push(c));
                    } else {
                        assert(out@ =~= join_words(d) + seq![' '] + ws.last().push(c));
                    }
                }
                assert(out@ =~= cleaned(cs@.subrange(0, i + 1)));
            }
        } else if c == ' ' || c == '\n' {
            gap = true;
            proof {
                let w2 = ws.push(Seq::<char>::empty());
                assert(w2.drop_last() =~= ws);
            }
        }
        i = i + 1;
    }
    assert(cs@.subrange(0, i as int) =~= cs@);
    string_of(&out)
}

/// Lower-cases a raw text and cleans it.
pub fn prepare_text(contents: &str) -> (r: String)
    ensures
        r@ == cleaned(lower_of(contents@)),
{
    let lowered = lowercase(contents);
    clean_text(lowered.as_str())
}

} // verus!
