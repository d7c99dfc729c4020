use vstd::prelude::*;
use rand::seq::SliceRandom;
use crate::dev_fn::{split_graphemes, graphemes_of, texts};
use crate::model::{
    FrequencyModel, ModelError, keys_unique, total_of, lemma_count_step, json_parses, json_entries,
    entry_texts, decodable, lemma_texts_sums,
};

verus! {

/// Whether `p` is a prefix of `s`.
pub fn has_prefix(s: &str, p: &str) -> (r: bool)
    ensures
        r == p@.is_prefix_of(s@),
{
    let n = s.unicode_len();
    let m = p.unicode_len();
    if m > n {
        return false;
    }
    let mut i: usize = 0;
    while i < m
        invariant
            m == p@.len(),
            n == s@.len(),
            m <= n,
            i <= m,
            forall|j: int| 0 <= j < i ==> p@[j] == s@[j],
        decreases m - i,
    {
        if p.get_char(i) != s.get_char(i) {
            return false;
        }
        i = i + 1;
    }
    assert(p@ =~= s@.subrange(0, m as int));
    true
}

/// The entries of `model` whose keys begin with `prefix`, each with its count.
pub fn candidates(model: &FrequencyModel, prefix: &str) -> (r: Vec<(String, u64)>)
    requires
        model.wf(),
    ensures
        keys_unique(r@),
        forall|j: int| #![trigger r@[j]]
            0 <= j < r@.len() ==> prefix@.is_prefix_of(r@[j].0@) && model@.contains_key(r@[j].0@)
                && r@[j].1 == model@[r@[j].0@] && r@[j].1 >= 1,
        forall|k: Seq<char>| #[trigger]
            model@.contains_key(k) && prefix@.is_prefix_of(k) ==> exists|j: int|
                0 <= j < r@.len() && r@[j].0@ == k,
        total_of(r@) <= model.total(),
{
    let e = model.entries();
    proof {
        model.lemma_dom_is_keys();
    }
    let mut r: Vec<(String, u64)> = Vec::new();
    let ghost mut idx: Seq<int> = Seq::empty();
    let mut i: usize = 0;
    while i < e.len()
        invariant
            model.wf(),
            e@ == model.entries_view(),
            i <= e@.len(),
            idx.len() == r@.len(),
            forall|a: int| 0 <= a < r@.len() ==> 0 <= #[trigger] idx[a] < i,
            forall|a: int| 0 <= a < r@.len() ==> #[trigger] r@[a] == e@[idx[a]],
            forall|a: int| 0 <= a < r@.len() ==> prefix@.is_prefix_of(#[trigger] r@[a].0@),
            forall|a: int, b: int| 0 <= a < b < r@.len() ==> idx[a] < idx[b],
            forall|j: int| #![trigger e@[j]]
                0 <= j < i && prefix@.is_prefix_of(e@[j].0@) ==> exists|a: int|
                    0 <= a < r@.len() && idx[a] == j,
            total_of(r@) <= total_of(e@.subrange(0, i as int)),
        decreases e@.len() - i,
    {
        proof {
            lemma_count_step(e@, i as int, Seq::empty());
        }
        let b = has_prefix(e[i].0.as_str(), prefix);
        assert(forall|a: int| #![trigger r@[a]] 0 <= a < r@.len() ==> 0 <= idx[a] < i + 1
            && r@[a] == e@[idx[a]] && prefix@.is_prefix_of(r@[a].0@));
        if b {
            let ghost r0 = r@;
            let key = e[i].0.clone();
            r.push((key, e[i].1));
            let ghost idx0 = idx;
            proof {
                idx = idx.push(i as int);
                assert(r@.drop_last() =~= r0);
                assert(r@[r@.len() - 1] == e@[i as int]);
                assert forall|a: int| 0 <= a < r@.len() implies 0 <= #[trigger] idx[a] < i + 1
                    && r@[a] == e@[idx[a]] && prefix@.is_prefix_of(r@[a].0@) by {
                    if a < r0.len() {
                        assert(r@[a] == r0[a]);
                        assert(idx[a] == idx0[a]);
                    }
                }
                assert forall|j: int| #![trigger e@[j]]
                    0 <= j < i + 1 && prefix@.is_prefix_of(e@[j].0@) implies exists|a: int|
                    0 <= a < r@.len() && idx[a] == j by {
                    if j == i {
                        assert(idx[r@.len() - 1] == j);
                    } else {
                        let a = choose|a: int| 0 <= a < r0.len() && idx0[a] == j;
                        assert(idx[a] == idx0[a]);
                    }
                }
            }
        }
        i = i + 1;
    }
    proof {
        assert(e@.subrange(0, i as int) =~= e@);
        assert forall|a: int, b: int| 0 <= a < b < r@.len() implies r@[a].0@ != r@[b].0@ by {
            assert(r@[a] == e@[idx[a]]);
            assert(r@[b] == e@[idx[b]]);
        }
        assert forall|k: Seq<char>| #[trigger]
            model@.contains_key(k) && prefix@.is_prefix_of(k) implies exists|j: int|
            0 <= j < r@.len() && r@[j].0@ == k by {
            let m = choose|m: int| 0 <= m < e@.len() && e@[m].0@ == k;
            assert(prefix@.is_prefix_of(e@[m].0@));
            let a = choose|a: int| 0 <= a < r@.len() && idx[a] == m;
            assert(r@[a] == e@[m]);
        }
        assert forall|j: int| #![trigger r@[j]]
            0 <= j < r@.len() implies prefix@.is_prefix_of(r@[j].0@) && model@.contains_key(r@[j].0@)
            && r@[j].1 == model@[r@[j].0@] && r@[j].1 >= 1 by {
            assert(r@[j] == e@[idx[j]]);
            assert(model@.contains_key(e@[idx[j]].0@));
        }
    }
    r
}

/// Relies on rand's `SliceRandom::choose_weighted` with weights taken from the
/// counts: it fails only when every weight is zero (or there are none), and
/// otherwise returns one of the entries whose weight is positive.
#[verifier::external_body]
fn choose_entry<'a>(cands: &'a Vec<(String, u64)>) -> (r: Option<&'a (String, u64)>)
    requires
        total_of(cands@) <= u64::MAX,
    ensures
        r is None <==> total_of(cands@) == 0,
        r matches Some(e) ==> exists|j: int| 0 <= j < cands@.len() && cands@[j] == *e && e.1 > 0,
{
    cands.choose_weighted(&mut rand::thread_rng(), |item| item.1).ok()
}

proof fn lemma_total_positive(e: Seq<(String, u64)>)
    requires
        e.len() > 0,
        forall|j: int| #![trigger e[j]] 0 <= j < e.len() ==> e[j].1 >= 1,
    ensures
        total_of(e) > 0,
{
}

/// Draws a key of `model` that begins with `prefix`, each with a probability
/// proportional to its count; fails when no key begins with `prefix`.
pub fn make_first_choice(model: &FrequencyModel, prefix: &str) -> (r: Result<String, ModelError>)
    requires
        model.wf(),
    ensures
        r is Err <==> !exists|k: Seq<char>| model@.contains_key(k) && prefix@.is_prefix_of(k),
        r matches Err(e) ==> e == ModelError::LookupExhausted,
        r matches Ok(k) ==> model@.contains_key(k@) && prefix@.is_prefix_of(k@),
{
    let cands = candidates(model, prefix);
    if cands.len() == 0 {
        proof {
            assert forall|k: Seq<char>| model@.contains_key(k) implies !prefix@.is_prefix_of(k) by {
                if prefix@.is_prefix_of(k) {
                    assert(model@.contains_key(k) && prefix@.is_prefix_of(k));
                }
            }
        }
        return Err(ModelError::LookupExhausted);
    }
    proof {
        lemma_total_positive(cands@);
        assert(model@.contains_key(cands@[0].0@) && prefix@.is_prefix_of(cands@[0].0@));
    }
    match choose_entry(&cands) {
        Some(e) => {
            proof {
                let j = choose|j: int| 0 <= j < cands@.len() && cands@[j] == *e && e.1 > 0;
                assert(cands@[j] == *e);
            }
            Ok(e.0.clone())
        },
        None => Err(ModelError::LookupExhausted),
    }
}

/// Draws `budget` keys of `model` independently, each with a probability
/// proportional to its count, and concatenates them.
pub fn generate_level_1_text(model: &FrequencyModel, budget: usize) -> (r: Result<String, ModelError>)
    requires
        model.wf(),
    ensures
        r is Err <==> budget > 0 && model@.dom().is_empty(),
        r matches Err(e) ==> e == ModelError::LookupExhausted,
        r matches Ok(t) ==> exists|ks: Seq<Seq<char>>|
            ks.len() == budget && (forall|j: int| 0 <= j < ks.len() ==> model@.contains_key(
                #[trigger] ks[j],
            )) && t@ == ks.flatten(),
{
    let mut text = String::new();
    let ghost mut ks: Seq<Seq<char>> = Seq::empty();
    let empty = "";
    proof {
        reveal_strlit("");
        assert forall|k: Seq<char>| empty@.is_prefix_of(k) by {
            assert(empty@ =~= k.subrange(0, 0));
        }
    }
    let mut i: usize = 0;
    while i < budget
        invariant
            model.wf(),
            i <= budget,
            empty@ == Seq::<char>::empty(),
            forall|k: Seq<char>| empty@.is_prefix_of(k),
            i > 0 ==> !model@.dom().is_empty(),
            ks.len() == i,
            forall|j: int| 0 <= j < ks.len() ==> model@.contains_key(#[trigger] ks[j]),
            text@ == ks.flatten(),
        decreases budget - i,
    {
        let key = match make_first_choice(model, empty) {
            Ok(k) => k,
            Err(e) => {
                proof {
                    assert forall|k: Seq<char>| !model@.dom().contains(k) by {
                        if model@.contains_key(k) {
                            assert(empty@.is_prefix_of(k));
                        }
                    }
                    assert(model@.dom() =~= Set::empty());
                }
                return Err(e);
            },
        };
        proof {
            ks.lemma_flatten_push(key@);
            ks = ks.push(key@);
        }
        text.append(key.as_str());
        i = i + 1;
    }
    proof {
        if budget > 0 {
            assert(model@.contains_key(ks[0]));
        }
    }
    Ok(text)
}

/// The text of the last `n` grapheme clusters of `t`, or all of `t` where it
/// has fewer.
pub open spec fn unit_context(t: Seq<char>, n: int) -> Seq<char> {
    let g = graphemes_of(t);
    if g.len() <= n {
        g.flatten()
    } else {
        g.subrange(g.len() - n, g.len() as int).flatten()
    }
}

/// `u` is the last grapheme cluster of a key of `m` that begins with the
/// last `level - 1` clusters of `t`.
pub open spec fn next_unit_ok(m: Map<Seq<char>, nat>, level: int, t: Seq<char>, u: Seq<char>) -> bool {
    exists|k: Seq<char>|
        m.contains_key(k) && unit_context(t, level - 1).is_prefix_of(k) && graphemes_of(k).len() > 0
            && u == graphemes_of(k).last()
}

/// A key of `m` that may seed a walk: it begins with a space.
pub open spec fn seed_ok(m: Map<Seq<char>, nat>, k0: Seq<char>) -> bool {
    m.contains_key(k0) && seq![' '].is_prefix_of(k0)
}

/// Each unit of `us` continues the text before it (a space, the seed `k0`
/// and the units before) as `next_unit_ok` says.
pub open spec fn walk_ok(m: Map<Seq<char>, nat>, level: int, k0: Seq<char>, us: Seq<Seq<char>>) -> bool {
    forall|j: int|
        0 <= j < us.len() ==> next_unit_ok(m, level, seq![' '] + k0 + us.take(j).flatten(), #[trigger] us[j])
}

/// A walk that reached a dead end: no key of `m` begins with the last
/// `level - 1` clusters of the text.
pub open spec fn dead_end(m: Map<Seq<char>, nat>, level: int, k0: Seq<char>, us: Seq<Seq<char>>) -> bool {
    !exists|k: Seq<char>|
        m.contains_key(k) && unit_context(seq![' '] + k0 + us.flatten(), level - 1).is_prefix_of(k)
}

/// The text of the last `n` grapheme clusters of `t`, or all of `t` where it
/// has fewer.
pub fn context_of(t: &str, n: usize) -> (r: String)
    ensures
        r@ == unit_context(t@, n as int),
        t@.len() > 0 && n > 0 ==> r@.len() > 0,
{
    let units = split_graphemes(t);
    let ghost g = texts(units@);
    let len = units.len();
    let start = if len <= n {
        0
    } else {
        len - n
    };
    let mut r = String::new();
    let mut i: usize = start;
    while i < len
        invariant
            g == texts(units@),
            len == units@.len(),
            start <= i <= len,
            r@ == g.subrange(start as int, i as int).flatten(),
        decreases len - i,
    {
        proof {
            g.subrange(start as int, i as int).lemma_flatten_push(g[i as int]);
            assert(g.subrange(start as int, i as int).push(g[i as int]) =~= g.subrange(
                start as int,
                i as int + 1,
            ));
        }
        r.append(units[i].as_str());
        i = i + 1;
    }
    proof {
        if start == 0 {
            assert(g.subrange(0, len as int) =~= g);
        }
        if t@.len() > 0 && n > 0 {
            if len == 0 {
                assert(g =~= Seq::<Seq<char>>::empty());
            }
            let h = g.subrange(start as int, len as int - 1);
            h.lemma_flatten_push(g[len - 1]);
            assert(h.push(g[len - 1]) =~= g.subrange(start as int, len as int));
            assert(g[len - 1].len() > 0);
        }
    }
    r
}

/// Draws a key of `model` that begins with `prefix`, as `make_first_choice`
/// does, and gives its last grapheme cluster.
pub fn make_choices(model: &FrequencyModel, prefix: &str) -> (r: Result<String, ModelError>)
    requires
        model.wf(),
        prefix@.len() > 0,
    ensures
        r is Err <==> !exists|k: Seq<char>| model@.contains_key(k) && prefix@.is_prefix_of(k),
        r matches Err(e) ==> e == ModelError::LookupExhausted,
        r matches Ok(u) ==> exists|k: Seq<char>|
            model@.contains_key(k) && prefix@.is_prefix_of(k) && graphemes_of(k).len() > 0 && u@
                == graphemes_of(k).last(),
{
    let key = make_first_choice(model, prefix)?;
    let units = split_graphemes(key.as_str());
    proof {
        if units@.len() == 0 {
            assert(texts(units@) =~= Seq::<Seq<char>>::empty());
        }
    }
    let u = units[units.len() - 1].clone();
    assert(graphemes_of(key@).last() == u@);
    Ok(u)
}

/// Seeds the text with a space and a drawn key that begins with it, then
/// appends `budget` grapheme clusters, each the last one of a key drawn among
/// those that begin with the last `level - 1` clusters of the text so far.
pub fn generate_text(model: &FrequencyModel, level: u8, budget: usize) -> (r: Result<String, ModelError>)
    requires
        model.wf(),
        level >= 2,
    ensures
        r matches Err(e) ==> e == ModelError::LookupExhausted,
        budget == 0 && (exists|k: Seq<char>| seed_ok(model@, k)) ==> r is Ok,
        r matches Ok(t) ==> exists|k0: Seq<char>, us: Seq<Seq<char>>|
            seed_ok(model@, k0) && us.len() == budget && walk_ok(model@, level as int, k0, us) && t@
                == seq![' '] + k0 + us.flatten(),
        r is Err ==> !(exists|k: Seq<char>| seed_ok(model@, k)) || exists|k0: Seq<char>, us: Seq<Seq<char>>|
            seed_ok(model@, k0) && us.len() < budget && walk_ok(model@, level as int, k0, us)
                && dead_end(model@, level as int, k0, us),
{
    let space = " ";
    proof {
        reveal_strlit(" ");
    }
    assert(space@ =~= seq![' ']);
    let mut text = String::from_str(space);
    let first = match make_first_choice(model, space) {
        Ok(k) => k,
        Err(e) => {
            return Err(e);
        },
    };
    text.append(first.as_str());
    let ghost k0 = first@;
    let ghost mut us: Seq<Seq<char>> = Seq::empty();
    assert(us.flatten() =~= Seq::<char>::empty());
    assert(text@ =~= seq![' '] + k0 + us.flatten());
    let n = (level - 1) as usize;
    let mut i: usize = 0;
    while i < budget
        invariant
            model.wf(),
            level >= 2,
            n == level - 1,
            i <= budget,
            seed_ok(model@, k0),
            us.len() == i,
            walk_ok(model@, level as int, k0, us),
            text@ == seq![' '] + k0 + us.flatten(),
        decreases budget - i,
    {
        let prefix = context_of(text.as_str(), n);
        let u = match make_choices(model, prefix.as_str()) {
            Ok(u) => u,
            Err(e) => {
                assert(dead_end(model@, level as int, k0, us));
                return Err(e);
            },
        };
        proof {
            let us0 = us;
            us0.lemma_flatten_push(u@);
            us = us0.push(u@);
            assert forall|j: int| 0 <= j < us.len() implies next_unit_ok(
                model@,
                level as int,
                seq![' '] + k0 + us.take(j).flatten(),
                #[trigger] us[j],
            ) by {
                if j < us0.len() {
                    assert(us.take(j) =~= us0.take(j));
                    assert(us[j] == us0[j]);
                } else {
                    assert(us.take(j) =~= us0);
                }
            }
            assert(text@ + u@ =~= seq![' '] + k0 + us.flatten());
        }
        text.append(u.as_str());
        i = i + 1;
    }
    Ok(text)
}

/// Relies on serde_json::from_str into a `BTreeMap` from keys to counts: it
/// succeeds exactly on the texts that are such an object, and gives its pairs,
/// determined by the text alone, each key once.
#[verifier::external_body]
fn from_json(s: &str) -> (r: Result<Vec<(String, u64)>, serde_json::Error>)
    ensures
        r is Ok <==> json_parses(s@),
        r matches Ok(v) ==> keys_unique(v@) && entry_texts(v@) == json_entries(s@),
{
    let m: std::collections::BTreeMap<String, u64> = serde_json::from_str(s)?;
    Ok(m.into_iter().collect())
}

/// Decodes a model from a JSON object from keys to counts; a text that is no
/// such object, or has a zero count or counts whose sum overflows, is refused.
pub fn decode_model(s: &str) -> (r: Result<FrequencyModel, ModelError>)
    ensures
        r is Ok <==> json_parses(s@) && decodable(json_entries(s@)),
        r matches Ok(m) ==> m.wf() && entry_texts(m.entries_view()) == json_entries(s@),
        r matches Err(e) ==> e == ModelError::Serialization,
{
    let v = match from_json(s) {
        Ok(v) => v,
        Err(_) => return Err(ModelError::Serialization),
    };
    proof {
        lemma_texts_sums(v@, None);
        assert forall|j: int| 0 <= j < v@.len() implies v@[j].1 == (
            #[trigger] json_entries(s@)[j]).1 by {
            assert(entry_texts(v@)[j] == (v@[j].0@, v@[j].1));
        }
        assert(json_entries(s@).len() == v@.len());
        if forall|j: int| 0 <= j < v@.len() ==> #[trigger] v@[j].1 >= 1 {
            assert forall|j: int| 0 <= j < json_entries(s@).len() implies (
            #[trigger] json_entries(s@)[j]).1 >= 1 by {
                assert(v@[j].1 >= 1);
            }
        }
        if forall|j: int| 0 <= j < json_entries(s@).len() ==> (#[trigger] json_entries(s@)[j]).1 >= 1 {
            assert forall|j: int| 0 <= j < v@.len() implies #[trigger] v@[j].1 >= 1 by {
                assert(json_entries(s@)[j].1 >= 1);
            }
        }
    }
    match FrequencyModel::from_entries(v) {
        Some(m) => Ok(m),
        None => Err(ModelError::Serialization),
    }
}

} // verus!
