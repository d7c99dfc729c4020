use vstd::prelude::*;

verus! {

/// Occurrence count of `k` in a list of (key, count) entries: the sum of the
/// counts of every entry whose key is `k`.
pub open spec fn count_in(e: Seq<(String, u64)>, k: Seq<char>) -> nat
    decreases e.len(),
{
    if e.len() == 0 {
        0
    } else {
        count_in(e.drop_last(), k) + if e.last().0@ == k {
            e.last().1 as nat
        } else {
            0
        }
    }
}

/// Sum of all counts of a list of entries.
pub open spec fn total_of(e: Seq<(String, u64)>) -> nat
    decreases e.len(),
{
    if e.len() == 0 {
        0
    } else {
        total_of(e.drop_last()) + e.last().1 as nat
    }
}

pub open spec fn keys_unique(e: Seq<(String, u64)>) -> bool {
    forall|i: int, j: int| 0 <= i < j < e.len() ==> e[i].0@ != e[j].0@
}

/// Count of `k` in a mapping, zero where `k` is absent.
pub open spec fn count_at(m: Map<Seq<char>, nat>, k: Seq<char>) -> nat {
    if m.contains_key(k) {
        m[k]
    } else {
        0
    }
}

/// A mapping whose every count is positive.
pub open spec fn positive(m: Map<Seq<char>, nat>) -> bool {
    forall|k: Seq<char>| m.contains_key(k) ==> m[k] > 0
}

/// Key-wise sum of two frequency mappings.
pub open spec fn sum_maps(a: Map<Seq<char>, nat>, b: Map<Seq<char>, nat>) -> Map<Seq<char>, nat> {
    Map::new(
        |k: Seq<char>| a.contains_key(k) || b.contains_key(k),
        |k: Seq<char>| count_at(a, k) + count_at(b, k),
    )
}

/// Merge of a sequence of frequency mappings, folded from the left.
pub open spec fn merge_all(s: Seq<Map<Seq<char>, nat>>) -> Map<Seq<char>, nat>
    decreases s.len(),
{
    if s.len() == 0 {
        Map::empty()
    } else {
        sum_maps(merge_all(s.drop_last()), s.last())
    }
}

/// Sum over a sequence of mappings of the count of `k` in each.
pub open spec fn sum_counts(s: Seq<Map<Seq<char>, nat>>, k: Seq<char>) -> nat
    decreases s.len(),
{
    if s.len() == 0 {
        0
    } else {
        sum_counts(s.drop_last(), k) + count_at(s.last(), k)
    }
}

/// The error type of serde_json, carried through opaquely.
#[verifier::external_type_specification]
#[verifier::external_body]
pub struct ExJsonError(serde_json::Error);

/// Failures of loading a model or of sampling from it.
#[derive(Debug, Clone, Copy, PartialEq, Eq, Structural)]
pub enum ModelError {
    /// A persisted model could not be encoded or decoded.
    Serialization,
    /// No key of the model begins with the required prefix.
    LookupExhausted,
}

/// An n-gram frequency table: each key (the concatenated text of an n-gram)
/// with its positive occurrence count.
pub struct FrequencyModel {
    entries: Vec<(String, u64)>,
    /// For each hash value, the positions in `entries` of the keys with that hash.
    buckets: Vec<Vec<usize>>,
    /// For each entry, its place in its bucket.
    slots: Ghost<Seq<int>>,
}

/// Number of buckets of the key index.
pub const BUCKETS: usize = 4096;

/// The bucket of a key.
pub open spec fn key_hash(s: Seq<char>) -> nat
    decreases s.len(),
{
    if s.len() == 0 {
        0
    } else {
        (key_hash(s.drop_last()) * 31 + (s.last() as u32) as nat) % (BUCKETS as nat)
    }
}

/// Relies on str::chars: the characters of `s`, in order.
#[verifier::external_body]
pub(crate) fn chars_of(s: &str) -> (r: Vec<char>)
    ensures
        r@ == s@,
{
    s.chars().collect()
}

/// The bucket of a key.
pub fn hash_key(s: &str) -> (r: usize)
    ensures
        r == key_hash(s@),
        r < BUCKETS,
{
    let cs = chars_of(s);
    let mut h: usize = 0;
    let mut i: usize = 0;
    while i < cs.len()
        invariant
            cs@ == s@,
            i <= cs@.len(),
            h < BUCKETS,
            h == key_hash(cs@.subrange(0, i as int)),
        decreases cs@.len() - i,
    {
        assert(cs@.subrange(0, i + 1).drop_last() =~= cs@.subrange(0, i as int));
        let c = cs[i] as u32;
        let x: u64 = (h as u64) * 31 + (c as u64);
        h = (x % (BUCKETS as u64)) as usize;
        i = i + 1;
    }
    assert(cs@.subrange(0, i as int) =~= cs@);
    h
}

impl View for FrequencyModel {
    type V = Map<Seq<char>, nat>;

    open spec fn view(&self) -> Map<Seq<char>, nat> {
        Map::new(
            |k: Seq<char>| count_in(self.entries_view(), k) > 0,
            |k: Seq<char>| count_in(self.entries_view(), k),
        )
    }
}

pub proof fn lemma_count_step(e: Seq<(String, u64)>, i: int, k: Seq<char>)
    requires
        0 <= i < e.len(),
    ensures
        count_in(e.subrange(0, i + 1), k) == count_in(e.subrange(0, i), k) + if e[i].0@ == k {
            e[i].1 as nat
        } else {
            0
        },
        total_of(e.subrange(0, i + 1)) == total_of(e.subrange(0, i)) + e[i].1 as nat,
{
    assert(e.subrange(0, i + 1).drop_last() =~= e.subrange(0, i));
}

proof fn lemma_update(e: Seq<(String, u64)>, i: int, x: (String, u64), k: Seq<char>)
    requires
        0 <= i < e.len(),
    ensures
        count_in(e.update(i, x), k) + (if e[i].0@ == k { e[i].1 as nat } else { 0 }) == count_in(e, k)
            + (if x.0@ == k { x.1 as nat } else { 0 }),
        total_of(e.update(i, x)) + e[i].1 as nat == total_of(e) + x.1 as nat,
    decreases e.len(),
{
    if i < e.len() - 1 {
        assert(e.update(i, x).drop_last() =~= e.drop_last().update(i, x));
        lemma_update(e.drop_last(), i, x, k);
    } else {
        assert(e.update(i, x).drop_last() =~= e.drop_last());
    }
}

proof fn lemma_absent(e: Seq<(String, u64)>, k: Seq<char>)
    requires
        forall|i: int| 0 <= i < e.len() ==> e[i].0@ != k,
    ensures
        count_in(e, k) == 0,
    decreases e.len(),
{
    if e.len() > 0 {
        lemma_absent(e.drop_last(), k);
    }
}

pub proof fn lemma_unique_count(e: Seq<(String, u64)>, i: int)
    requires
        keys_unique(e),
        0 <= i < e.len(),
    ensures
        count_in(e, e[i].0@) == e[i].1,
    decreases e.len(),
{
    if i < e.len() - 1 {
        lemma_unique_count(e.drop_last(), i);
    } else {
        lemma_absent(e.drop_last(), e[i].0@);
    }
}

proof fn lemma_entry_le_total(e: Seq<(String, u64)>, i: int)
    requires
        0 <= i < e.len(),
    ensures
        e[i].1 <= total_of(e),
    decreases e.len(),
{
    if i < e.len() - 1 {
        lemma_entry_le_total(e.drop_last(), i);
    }
}

pub proof fn lemma_prefix_total_le(e: Seq<(String, u64)>, i: int)
    requires
        0 <= i <= e.len(),
    ensures
        total_of(e.subrange(0, i)) <= total_of(e),
    decreases e.len() - i,
{
    if i < e.len() {
        lemma_count_step(e, i, Seq::empty());
        lemma_prefix_total_le(e, i + 1);
    } else {
        assert(e.subrange(0, i) =~= e);
    }
}

impl FrequencyModel {
    /// The model's entries, in the order in which their keys were first added.
    pub closed spec fn entries_view(&self) -> Seq<(String, u64)> {
        self.entries@
    }

    /// Each entry is listed in the bucket of its key, and each bucket lists
    /// only entries of keys with its hash.
    pub closed spec fn index_ok(&self) -> bool {
        let e = self.entries@;
        let b = self.buckets@;
        &&& b.len() == BUCKETS
        &&& forall|h: int, j: int| #![trigger b[h]@[j]]
            0 <= h < BUCKETS && 0 <= j < b[h]@.len() ==> b[h]@[j] < e.len() && key_hash(
                e[b[h]@[j] as int].0@,
            ) == h
        &&& self.slots@.len() == e.len()
        &&& forall|i: int| #![trigger self.slots@[i]]
            0 <= i < e.len() ==> 0 <= self.slots@[i] < b[key_hash(e[i].0@) as int]@.len() && b[key_hash(
                e[i].0@,
            ) as int]@[self.slots@[i]] == i
    }

    /// Keys are unique, counts are positive and their sum fits in a `u64`.
    pub open spec fn wf(&self) -> bool {
        &&& self.index_ok()
        &&& keys_unique(self.entries_view())
        &&& forall|i: int| 0 <= i < self.entries_view().len() ==> self.entries_view()[i].1 >= 1
        &&& total_of(self.entries_view()) <= u64::MAX
    }

    pub open spec fn count(&self, k: Seq<char>) -> nat {
        count_in(self.entries_view(), k)
    }

    pub open spec fn total(&self) -> nat {
        total_of(self.entries_view())
    }

    /// The empty model.
    pub fn new() -> (r: FrequencyModel)
        ensures
            r.wf(),
            r@ == Map::<Seq<char>, nat>::empty(),
            r.total() == 0,
            r.entries_view().len() == 0,
    {
        let mut buckets: Vec<Vec<usize>> = Vec::new();
        let mut h: usize = 0;
        while h < BUCKETS
            invariant
                h <= BUCKETS,
                buckets@.len() == h,
                forall|g: int| 0 <= g < h ==> (#[trigger] buckets@[g])@.len() == 0,
            decreases BUCKETS - h,
        {
            buckets.push(Vec::new());
            h = h + 1;
        }
        let r = FrequencyModel { entries: Vec::new(), buckets, slots: Ghost(Seq::empty()) };
        assert(r@ =~= Map::<Seq<char>, nat>::empty());
        r
    }

    /// Number of distinct keys.
    pub fn len(&self) -> (r: usize)
        requires
            self.wf(),
        ensures
            r == self@.dom().len(),
    {
        proof {
            self.lemma_dom_is_keys();
        }
        self.entries.len()
    }

    /// Sum of all counts.
    pub fn total_count(&self) -> (r: u64)
        requires
            self.wf(),
        ensures
            r == self.total(),
    {
        let mut sum: u64 = 0;
        let mut i: usize = 0;
        while i < self.entries.len()
            invariant
                self.wf(),
                i <= self.entries@.len(),
                sum == total_of(self.entries@.subrange(0, i as int)),
            decreases self.entries@.len() - i,
        {
            proof {
                lemma_count_step(self.entries@, i as int, Seq::empty());
                lemma_prefix_total_le(self.entries@, i as int + 1);
            }
            sum = sum + self.entries[i].1;
            i = i + 1;
        }
        assert(self.entries@.subrange(0, i as int) =~= self.entries@);
        sum
    }

    /// The position of the entry whose key is `key`, if there is one.
    fn find(&self, key: &String) -> (r: Option<usize>)
        requires
            self.wf(),
        ensures
            r matches Some(i) ==> i < self.entries@.len() && self.entries@[i as int].0@ == key@,
            r is None ==> forall|i: int| 0 <= i < self.entries@.len() ==> self.entries@[i].0@ != key@,
    {
        let h = hash_key(key.as_str());
        let bucket = &self.buckets[h];
        let mut j: usize = 0;
        while j < bucket.len()
            invariant
                self.wf(),
                h == key_hash(key@),
                h < BUCKETS,
                *bucket == self.buckets@[h as int],
                j <= bucket@.len(),
                forall|jj: int| 0 <= jj < j ==> self.entries@[(#[trigger] bucket@[jj]) as int].0@ != key@,
            decreases bucket@.len() - j,
        {
            let i = bucket[j];
            assert(i == self.buckets@[h as int]@[j as int]);
            if self.entries[i].0 == *key {
                return Some(i);
            }
            j = j + 1;
        }
        proof {
            assert forall|i: int| 0 <= i < self.entries@.len() implies self.entries@[i].0@ != key@ by {
                if self.entries@[i].0@ == key@ {
                    let jj = self.slots@[i];
                    assert(bucket@[jj] == i);
                }
            }
        }
        None
    }

    /// Count of `key`, zero where it is absent.
    pub fn get(&self, key: &str) -> (r: u64)
        requires
            self.wf(),
        ensures
            r == count_at(self@, key@),
    {
        let wanted = String::from_str(key);
        match self.find(&wanted) {
            Some(i) => {
                proof {
                    lemma_unique_count(self.entries@, i as int);
                    assert(self@.contains_key(key@));
                }
                self.entries[i].1
            },
            None => {
                proof {
                    lemma_absent(self.entries@, key@);
                }
                0
            },
        }
    }

    /// The entries as (key, count) pairs, each key once.
    pub fn entries(&self) -> (r: &Vec<(String, u64)>)
        ensures
            r@ == self.entries_view(),
    {
        &self.entries
    }

    pub proof fn lemma_dom_is_keys(&self)
        requires
            self.wf(),
        ensures
            forall|k: Seq<char>| #[trigger]
                self@.contains_key(k) <==> exists|i: int|
                    0 <= i < self.entries_view().len() && self.entries_view()[i].0@ == k,
            forall|i: int| #![trigger self.entries_view()[i]]
                0 <= i < self.entries_view().len() ==> self@.contains_key(self.entries_view()[i].0@)
                    && self@[self.entries_view()[i].0@] == self.entries_view()[i].1,
            self@.dom().finite(),
            self@.dom().len() == self.entries_view().len(),
    {
        let e = self.entries_view();
        assert forall|i: int| #![trigger e[i]] 0 <= i < e.len() implies self@.contains_key(e[i].0@)
            && self@[e[i].0@] == e[i].1 by {
            lemma_unique_count(e, i);
        }
        assert forall|k: Seq<char>| #[trigger] self@.contains_key(k) implies exists|i: int|
            0 <= i < e.len() && e[i].0@ == k by {
            if !(exists|i: int| 0 <= i < e.len() && e[i].0@ == k) {
                lemma_absent(e, k);
            }
        }
        let ks = e.map_values(|x: (String, u64)| x.0@);
        assert(ks.no_duplicates());
        assert forall|k: Seq<char>| self@.dom().contains(k) <==> ks.to_set().contains(k) by {
            if self@.contains_key(k) {
                let i = choose|i: int| 0 <= i < e.len() && e[i].0@ == k;
                assert(ks[i] == k);
            }
            if ks.contains(k) {
                let i = choose|i: int| 0 <= i < ks.len() && ks[i] == k;
                assert(e[i].0@ == k);
            }
        }
        assert(self@.dom() =~= ks.to_set());
        ks.unique_seq_to_set();
    }

    /// Adds `c` occurrences of `key`.
    pub fn add(&mut self, key: String, c: u64)
        requires
            old(self).wf(),
            c >= 1,
            old(self).total() + c <= u64::MAX,
        ensures
            final(self).wf(),
            final(self).total() == old(self).total() + c,
            forall|k: Seq<char>| #[trigger]
                final(self).count(k) == old(self).count(k) + if k == key@ {
                    c as nat
                } else {
                    0
                },
    {
        match self.find(&key) {
            Some(i) => {
                let v = self.entries[i].1;
                proof {
                    lemma_entry_le_total(self.entries@, i as int);
                }
                let ghost e0 = self.entries@;
                self.entries.set(i, (key, v + c));
                proof {
                    assert forall|k: Seq<char>| #[trigger]
                        count_in(self.entries@, k) == count_in(e0, k) + if k == e0[i as int].0@ {
                            c as nat
                        } else {
                            0
                        } by {
                        lemma_update(e0, i as int, self.entries@[i as int], k);
                    }
                    lemma_update(e0, i as int, self.entries@[i as int], Seq::empty());
                    assert forall|a: int, b: int| 0 <= a < b < self.entries@.len() implies
                        self.entries@[a].0@ != self.entries@[b].0@ by {
                        assert(e0[a].0@ != e0[b].0@);
                    }
                    assert forall|j: int| 0 <= j < self.entries@.len() implies self.entries@[j].0@
                        == e0[j].0@ by {}
                }
            },
            None => {
                let h = hash_key(key.as_str());
                let n = self.entries.len();
                let ghost e0 = self.entries@;
                let ghost b0 = self.buckets@;
                let ghost s0 = self.slots@;
                let ghost slot = self.buckets@[h as int]@.len() as int;
                self.entries.push((key, c));
                self.buckets[h].push(n);
                self.slots = Ghost(s0.push(slot));
                proof {
                    assert(self.entries@.drop_last() =~= e0);
                    assert forall|g: int| 0 <= g < BUCKETS && g != h implies self.buckets@[g] == b0[g] by {}
                    assert forall|g: int, j: int| #![trigger self.buckets@[g]@[j]]
                        0 <= g < BUCKETS && 0 <= j < self.buckets@[g]@.len() implies self.buckets@[g]@[j]
                        < self.entries@.len() && key_hash(
                        self.entries@[self.buckets@[g]@[j] as int].0@,
                    ) == g by {
                        if g == h && j == slot {
                        } else {
                            assert(self.buckets@[g]@[j] == b0[g]@[j]);
                        }
                    }
                    assert forall|i: int| #![trigger self.slots@[i]] 0 <= i < self.entries@.len() implies 0
                        <= self.slots@[i] < self.buckets@[key_hash(self.entries@[i].0@) as int]@.len()
                        && self.buckets@[key_hash(self.entries@[i].0@) as int]@[self.slots@[i]] == i by {
                        if i < n {
                            assert(self.slots@[i] == s0[i]);
                            assert(self.entries@[i] == e0[i]);
                        }
                    }
                }
            },
        }
    }
}

/// The views of a sequence of models.
pub open spec fn views(s: Seq<FrequencyModel>) -> Seq<Map<Seq<char>, nat>> {
    s.map_values(|m: FrequencyModel| m@)
}

/// Sum of the totals of a sequence of models.
pub open spec fn totals_sum(s: Seq<FrequencyModel>) -> nat
    decreases s.len(),
{
    if s.len() == 0 {
        0
    } else {
        totals_sum(s.drop_last()) + s.last().total()
    }
}

impl FrequencyModel {
    /// A model with the given entries, where every count is positive and their
    /// sum fits in a `u64`; `None` otherwise.
    pub fn from_entries(e: Vec<(String, u64)>) -> (r: Option<FrequencyModel>)
        requires
            keys_unique(e@),
        ensures
            r is Some <==> (forall|j: int| 0 <= j < e@.len() ==> #[trigger] e@[j].1 >= 1) && total_of(e@)
                <= u64::MAX,
            r matches Some(m) ==> m.wf() && m.entries_view() == e@,
    {
        let mut sum: u64 = 0;
        let mut i: usize = 0;
        while i < e.len()
            invariant
                i <= e@.len(),
                sum == total_of(e@.subrange(0, i as int)),
                forall|j: int| 0 <= j < i ==> #[trigger] e@[j].1 >= 1,
            decreases e@.len() - i,
        {
            proof {
                lemma_count_step(e@, i as int, Seq::empty());
            }
            if e[i].1 == 0 {
                return None;
            }
            if e[i].1 > u64::MAX - sum {
                proof {
                    lemma_prefix_total_le(e@, i as int + 1);
                }
                return None;
            }
            sum = sum + e[i].1;
            i = i + 1;
        }
        assert(e@.subrange(0, i as int) =~= e@);
        let mut m = FrequencyModel::new();
        m.entries = e;
        let mut p: usize = 0;
        while p < m.entries.len()
            invariant
                m.entries@ == e@,
                m.buckets@.len() == BUCKETS,
                p <= e@.len(),
                forall|h: int, j: int| #![trigger m.buckets@[h]@[j]]
                    0 <= h < BUCKETS && 0 <= j < m.buckets@[h]@.len() ==> m.buckets@[h]@[j] < p
                        && key_hash(e@[m.buckets@[h]@[j] as int].0@) == h,
                m.slots@.len() == p,
                forall|q: int| #![trigger m.slots@[q]]
                    0 <= q < p ==> 0 <= m.slots@[q] < m.buckets@[key_hash(e@[q].0@) as int]@.len()
                        && m.buckets@[key_hash(e@[q].0@) as int]@[m.slots@[q]] == q,
            decreases e@.len() - p,
        {
            let h = hash_key(m.entries[p].0.as_str());
            let ghost b0 = m.buckets@;
            let ghost s0 = m.slots@;
            let ghost slot = m.buckets@[h as int]@.len() as int;
            m.buckets[h].push(p);
            m.slots = Ghost(s0.push(slot));
            proof {
                assert forall|g: int| 0 <= g < BUCKETS && g != h implies m.buckets@[g] == b0[g] by {}
                assert forall|g: int, j: int| #![trigger m.buckets@[g]@[j]]
                    0 <= g < BUCKETS && 0 <= j < m.buckets@[g]@.len() implies m.buckets@[g]@[j] < p + 1
                    && key_hash(e@[m.buckets@[g]@[j] as int].0@) == g by {
                    if g == h && j == slot {
                    } else {
                        assert(m.buckets@[g]@[j] == b0[g]@[j]);
                    }
                }
                assert forall|q: int| #![trigger m.slots@[q]] 0 <= q < p + 1 implies 0 <= m.slots@[q]
                    < m.buckets@[key_hash(e@[q].0@) as int]@.len() && m.buckets@[key_hash(
                    e@[q].0@,
                ) as int]@[m.slots@[q]] == q by {
                    if q < p {
                        assert(m.slots@[q] == s0[q]);
                    }
                }
            }
            p = p + 1;
        }
        Some(m)
    }

    /// The entries as (key, count) pairs, each key once.
    pub fn into_entries(self) -> (r: Vec<(String, u64)>)
        ensures
            r@ == self.entries_view(),
    {
        self.entries
    }

    pub proof fn lemma_count_at(&self, k: Seq<char>)
        ensures
            count_at(self@, k) == self.count(k),
            positive(self@),
    {
    }

    /// A model whose counts are, key by key, the sums of those of `a` and `b`
    /// has as its view the sum of their views.
    pub proof fn lemma_view_of_sum(a: &FrequencyModel, b: &FrequencyModel, r: &FrequencyModel)
        requires
            forall|k: Seq<char>| #[trigger] r.count(k) == a.count(k) + b.count(k),
        ensures
            r@ == sum_maps(a@, b@),
    {
        assert forall|k: Seq<char>| #[trigger] r@.contains_key(k) == sum_maps(a@, b@).contains_key(k)
            by {
            assert(r.count(k) == a.count(k) + b.count(k));
        }
        assert forall|k: Seq<char>| r@.contains_key(k) implies #[trigger] r@[k] == sum_maps(a@, b@)[k]
            by {
            a.lemma_count_at(k);
            b.lemma_count_at(k);
            assert(r.count(k) == a.count(k) + b.count(k));
            assert(sum_maps(a@, b@).contains_key(k));
        }
        assert(r@ =~= sum_maps(a@, b@));
    }
}

/// Merging two mappings does not depend on their order.
pub proof fn lemma_merge_commutative(a: Map<Seq<char>, nat>, b: Map<Seq<char>, nat>)
    ensures
        sum_maps(a, b) == sum_maps(b, a),
{
    assert(sum_maps(a, b) =~= sum_maps(b, a));
}

/// Merging three mappings does not depend on how they are grouped.
pub proof fn lemma_merge_associative(
    a: Map<Seq<char>, nat>,
    b: Map<Seq<char>, nat>,
    c: Map<Seq<char>, nat>,
)
    ensures
        sum_maps(sum_maps(a, b), c) == sum_maps(a, sum_maps(b, c)),
{
    assert(sum_maps(sum_maps(a, b), c) =~= sum_maps(a, sum_maps(b, c)));
}

/// Merging a sequence of local mappings split in two batches equals merging
/// each batch and then the two results.
pub proof fn lemma_merge_batches(s1: Seq<Map<Seq<char>, nat>>, s2: Seq<Map<Seq<char>, nat>>)
    ensures
        merge_all(s1 + s2) == sum_maps(merge_all(s1), merge_all(s2)),
    decreases s2.len(),
{
    if s2.len() == 0 {
        assert(s1 + s2 =~= s1);
        assert(sum_maps(merge_all(s1), Map::empty()) =~= merge_all(s1));
    } else {
        assert((s1 + s2).drop_last() =~= s1 + s2.drop_last());
        lemma_merge_batches(s1, s2.drop_last());
        lemma_merge_associative(merge_all(s1), merge_all(s2.drop_last()), s2.last());
    }
}

/// The order in which two batches of local mappings are merged does not
/// change the result.
pub proof fn lemma_merge_batch_order(s1: Seq<Map<Seq<char>, nat>>, s2: Seq<Map<Seq<char>, nat>>)
    ensures
        merge_all(s1 + s2) == merge_all(s2 + s1),
{
    lemma_merge_batches(s1, s2);
    lemma_merge_batches(s2, s1);
    lemma_merge_commutative(merge_all(s1), merge_all(s2));
}

proof fn lemma_merge_all_counts(s: Seq<Map<Seq<char>, nat>>, k: Seq<char>)
    requires
        forall|j: int| 0 <= j < s.len() ==> positive(#[trigger] s[j]),
    ensures
        count_at(merge_all(s), k) == sum_counts(s, k),
        merge_all(s).contains_key(k) <==> sum_counts(s, k) > 0,
    decreases s.len(),
{
    if s.len() > 0 {
        assert forall|j: int| 0 <= j < s.drop_last().len() implies positive(
            #[trigger] s.drop_last()[j],
        ) by {
            assert(s.drop_last()[j] == s[j]);
        }
        lemma_merge_all_counts(s.drop_last(), k);
        assert(positive(s[s.len() - 1]));
    }
}

proof fn lemma_sum_counts_ge(s: Seq<Map<Seq<char>, nat>>, i: int, k: Seq<char>)
    requires
        0 <= i < s.len(),
    ensures
        sum_counts(s, k) >= count_at(s[i], k),
    decreases s.len(),
{
    if i < s.len() - 1 {
        lemma_sum_counts_ge(s.drop_last(), i, k);
    }
}

/// Every key of any local mapping is in the merged mapping, with a count at
/// least its local one; the merged count is the exact sum of the local ones.
pub proof fn lemma_merge_complete(s: Seq<Map<Seq<char>, nat>>, i: int, k: Seq<char>)
    requires
        forall|j: int| 0 <= j < s.len() ==> positive(#[trigger] s[j]),
        0 <= i < s.len(),
        s[i].contains_key(k),
    ensures
        merge_all(s).contains_key(k),
        merge_all(s)[k] >= s[i][k],
        merge_all(s)[k] == sum_counts(s, k),
{
    lemma_merge_all_counts(s, k);
    lemma_sum_counts_ge(s, i, k);
    assert(positive(s[i]));
}

/// Merging the merges of any partition of local mappings into batches
/// equals merging all of them at once.
pub proof fn lemma_merge_partition(bs: Seq<Seq<Map<Seq<char>, nat>>>)
    ensures
        merge_all(bs.map_values(|b: Seq<Map<Seq<char>, nat>>| merge_all(b))) == merge_all(bs.flatten()),
    decreases bs.len(),
{
    bs.lemma_flatten_and_flatten_alt_are_equivalent();
    if bs.len() == 0 {
        assert(bs.map_values(|b: Seq<Map<Seq<char>, nat>>| merge_all(b)) =~= Seq::empty());
    } else {
        let rest = bs.drop_last();
        lemma_merge_partition(rest);
        rest.lemma_flatten_and_flatten_alt_are_equivalent();
        assert(bs.map_values(|b: Seq<Map<Seq<char>, nat>>| merge_all(b)).drop_last() =~= rest.map_values(
            |b: Seq<Map<Seq<char>, nat>>| merge_all(b),
        ));
        lemma_merge_batches(rest.flatten(), bs.last());
    }
}

proof fn lemma_sum_counts_remove(s: Seq<Map<Seq<char>, nat>>, j: int, k: Seq<char>)
    requires
        0 <= j < s.len(),
    ensures
        sum_counts(s, k) == sum_counts(s.remove(j), k) + count_at(s[j], k),
    decreases s.len(),
{
    if j == s.len() - 1 {
        assert(s.remove(j) =~= s.drop_last());
    } else {
        assert(s.remove(j).drop_last() =~= s.drop_last().remove(j));
        assert(s.remove(j).last() == s.last());
        lemma_sum_counts_remove(s.drop_last(), j, k);
    }
}

proof fn lemma_sum_counts_permutation(s: Seq<Map<Seq<char>, nat>>, t: Seq<Map<Seq<char>, nat>>, k: Seq<char>)
    requires
        s.to_multiset() == t.to_multiset(),
    ensures
        sum_counts(s, k) == sum_counts(t, k),
    decreases s.len(),
{
    broadcast use vstd::seq_lib::group_to_multiset_ensures;

    if s.len() == 0 {
        assert(t.to_multiset().len() == 0);
        assert(t.len() == 0);
    } else {
        let a = s.last();
        let d = s.drop_last();
        assert(d.push(a) =~= s);
        assert(s.to_multiset() =~= d.to_multiset().insert(a));
        assert(t.to_multiset().count(a) > 0);
        assert(t.contains(a));
        let j = choose|j: int| 0 <= j < t.len() && t[j] == a;
        assert(t.remove(j).to_multiset() =~= t.to_multiset().remove(a));
        assert(d.to_multiset() =~= t.remove(j).to_multiset());
        lemma_sum_counts_permutation(d, t.remove(j), k);
        lemma_sum_counts_remove(t, j, k);
    }
}

/// Merging local mappings in any order gives the same result: two sequences
/// that hold the same mappings, each as often, merge to the same mapping.
pub proof fn lemma_merge_permutation(s: Seq<Map<Seq<char>, nat>>, t: Seq<Map<Seq<char>, nat>>)
    requires
        forall|j: int| 0 <= j < s.len() ==> positive(#[trigger] s[j]),
        s.to_multiset() == t.to_multiset(),
    ensures
        merge_all(s) == merge_all(t),
{
    broadcast use vstd::seq_lib::group_to_multiset_ensures;

    assert forall|j: int| 0 <= j < t.len() implies positive(#[trigger] t[j]) by {
        assert(t.contains(t[j]));
        assert(s.to_multiset().count(t[j]) > 0);
        assert(s.contains(t[j]));
    }
    assert forall|k: Seq<char>| #[trigger] merge_all(s).contains_key(k) == merge_all(t).contains_key(k)
        && count_at(merge_all(s), k) == count_at(merge_all(t), k) by {
        lemma_merge_all_counts(s, k);
        lemma_merge_all_counts(t, k);
        lemma_sum_counts_permutation(s, t, k);
    }
    assert forall|k: Seq<char>| merge_all(s).contains_key(k) implies #[trigger] merge_all(s)[k]
        == merge_all(t)[k] by {
        assert(count_at(merge_all(s), k) == count_at(merge_all(t), k));
    }
    assert(merge_all(s) =~= merge_all(t));
}

/// The views of models are all positive, and the merge of the views has as
/// counts the sums of the models' counts.
pub proof fn lemma_merge_views(s: Seq<FrequencyModel>, k: Seq<char>)
    ensures
        count_at(merge_all(views(s)), k) == sum_counts(views(s), k),
        merge_all(views(s)).contains_key(k) <==> sum_counts(views(s), k) > 0,
{
    assert forall|j: int| 0 <= j < views(s).len() implies positive(#[trigger] views(s)[j]) by {
        s[j].lemma_count_at(k);
    }
    lemma_merge_all_counts(views(s), k);
}

/// Whether a text is a JSON object from keys to counts.
pub uninterp spec fn json_parses(s: Seq<char>) -> bool;

/// The (key, count) pairs of a JSON object from keys to counts, in key order.
pub uninterp spec fn json_entries(s: Seq<char>) -> Seq<(Seq<char>, u64)>;

/// The text views of a list of entries.
pub open spec fn entry_texts(e: Seq<(String, u64)>) -> Seq<(Seq<char>, u64)> {
    e.map_values(|x: (String, u64)| (x.0@, x.1))
}

/// Sum of the counts of a list of pairs: of all of them where `key` is
/// `None`, else of those with the key.
pub open spec fn sum_pairs(p: Seq<(Seq<char>, u64)>, key: Option<Seq<char>>) -> nat
    decreases p.len(),
{
    if p.len() == 0 {
        0
    } else {
        sum_pairs(p.drop_last(), key) + pair_weight(p.last(), key)
    }
}

/// The count of a pair where `key` is `None` or its own key, else zero.
pub open spec fn pair_weight(x: (Seq<char>, u64), key: Option<Seq<char>>) -> nat {
    match key {
        None => x.1 as nat,
        Some(k) => if x.0 == k {
            x.1 as nat
        } else {
            0
        },
    }
}

/// Pairs that form a model: every count positive, their sum fits in a `u64`.
pub open spec fn decodable(p: Seq<(Seq<char>, u64)>) -> bool {
    &&& forall|j: int| 0 <= j < p.len() ==> (#[trigger] p[j]).1 >= 1
    &&& sum_pairs(p, None) <= u64::MAX
}

pub proof fn lemma_texts_sums(e: Seq<(String, u64)>, key: Option<Seq<char>>)
    ensures
        key is None ==> sum_pairs(entry_texts(e), key) == total_of(e),
        key matches Some(k) ==> sum_pairs(entry_texts(e), key) == count_in(e, k),
    decreases e.len(),
{
    if e.len() > 0 {
        assert(entry_texts(e).drop_last() =~= entry_texts(e.drop_last()));
        lemma_texts_sums(e.drop_last(), key);
    }
}

proof fn lemma_sum_pairs_remove(p: Seq<(Seq<char>, u64)>, j: int, key: Option<Seq<char>>)
    requires
        0 <= j < p.len(),
    ensures
        sum_pairs(p, key) == sum_pairs(p.remove(j), key) + pair_weight(p[j], key),
    decreases p.len(),
{
    if j == p.len() - 1 {
        assert(p.remove(j) =~= p.drop_last());
    } else {
        assert(p.remove(j).drop_last() =~= p.drop_last().remove(j));
        assert(p.remove(j).last() == p.last());
        lemma_sum_pairs_remove(p.drop_last(), j, key);
    }
}

proof fn lemma_sum_pairs_permutation(
    p: Seq<(Seq<char>, u64)>,
    q: Seq<(Seq<char>, u64)>,
    key: Option<Seq<char>>,
)
    requires
        p.to_multiset() == q.to_multiset(),
    ensures
        sum_pairs(p, key) == sum_pairs(q, key),
    decreases p.len(),
{
    broadcast use vstd::seq_lib::group_to_multiset_ensures;

    if p.len() == 0 {
        assert(q.to_multiset().len() == 0);
        assert(q.len() == 0);
    } else {
        let a = p.last();
        let d = p.drop_last();
        assert(d.push(a) =~= p);
        assert(q.to_multiset().count(a) > 0);
        assert(q.contains(a));
        let j = choose|j: int| 0 <= j < q.len() && q[j] == a;
        assert(q.remove(j).to_multiset() =~= q.to_multiset().remove(a));
        assert(d.to_multiset() =~= q.remove(j).to_multiset());
        lemma_sum_pairs_permutation(d, q.remove(j), key);
        lemma_sum_pairs_remove(q, j, key);
    }
}

/// What `encode_model` writes for a valid model is what `decode_model`
/// accepts, and it reads back a model with the same mapping.
pub proof fn lemma_round_trip(m: &FrequencyModel, s: Seq<char>, d: &FrequencyModel)
    requires
        m.wf(),
        json_parses(s),
        json_entries(s).to_multiset() == entry_texts(m.entries_view()).to_multiset(),
    ensures
        json_parses(s) && decodable(json_entries(s)),
        entry_texts(d.entries_view()) == json_entries(s) ==> d@ == m@,
{
    broadcast use vstd::seq_lib::group_to_multiset_ensures;

    let p = json_entries(s);
    let e = m.entries_view();
    lemma_sum_pairs_permutation(p, entry_texts(e), None);
    lemma_texts_sums(e, None);
    assert forall|j: int| 0 <= j < p.len() implies (#[trigger] p[j]).1 >= 1 by {
        assert(p.contains(p[j]));
        assert(entry_texts(e).to_multiset().count(p[j]) > 0);
        assert(entry_texts(e).contains(p[j]));
        let i = choose|i: int| 0 <= i < entry_texts(e).len() && entry_texts(e)[i] == p[j];
        assert(entry_texts(e)[i] == (e[i].0@, e[i].1));
    }
    if entry_texts(d.entries_view()) == p {
        assert forall|k: Seq<char>| #[trigger] d.count(k) == m.count(k) by {
            lemma_sum_pairs_permutation(p, entry_texts(e), Some(k));
            lemma_texts_sums(e, Some(k));
            lemma_texts_sums(d.entries_view(), Some(k));
        }
        assert forall|k: Seq<char>| #[trigger] d@.contains_key(k) == m@.contains_key(k) && (
        d@.contains_key(k) ==> d@[k] == m@[k]) by {
            assert(d.count(k) == m.count(k));
        }
        assert(d@ =~= m@);
    }
}

} // verus!
