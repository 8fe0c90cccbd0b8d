//! A map from strings to values that keeps its keys in ascending order.
//!
//! Keys and values sit in two vectors of one length, the value of a key
//! at the key's index. Walking the vectors visits the keys in the order of
//! strings.

use vstd::prelude::*;
use super::lexical::{
    ascending, compare_text, lemma_ascending_from_neighbours, lemma_text_total,
    lemma_text_transitive, text_before, Side,
};

verus! {

/// How many of the leading `keys` come strictly before `key`. Among
/// ascending keys this is the index at which `key` stands or belongs.
pub open spec fn rank(keys: Seq<Seq<char>>, key: Seq<char>) -> int
    decreases keys.len(),
{
    if keys.len() > 0 && text_before(keys[0], key) {
        1 + rank(keys.drop_first(), key)
    } else {
        0
    }
}

/// `key` stands in `keys`, at its rank.
pub open spec fn holds(keys: Seq<Seq<char>>, key: Seq<char>) -> bool {
    rank(keys, key) < keys.len() && keys[rank(keys, key)] == key
}

/// The rank lies within the sequence or just behind it.
pub proof fn lemma_rank_bounds(keys: Seq<Seq<char>>, key: Seq<char>)
    ensures
        0 <= rank(keys, key) <= keys.len(),
    decreases keys.len(),
{
    if keys.len() > 0 {
        lemma_rank_bounds(keys.drop_first(), key);
    }
}

/// An index that parts the keys before `key` from the others is the rank.
pub proof fn lemma_rank_is(keys: Seq<Seq<char>>, key: Seq<char>, k: int)
    requires
        0 <= k <= keys.len(),
        forall|i: int| 0 <= i < k ==> text_before(#[trigger] keys[i], key),
        k < keys.len() ==> !text_before(keys[k], key),
    ensures
        rank(keys, key) == k,
    decreases k,
{
    if k > 0 {
        let rest = keys.drop_first();
        assert(forall|i: int| 0 <= i < k - 1 ==> #[trigger] rest[i] == keys[i + 1]);
        lemma_rank_is(rest, key, k - 1);
    }
}

/// Among ascending keys, the keys before the rank come before `key` and
/// the others do not; `key` can stand nowhere but at its rank.
pub proof fn lemma_rank_parts(keys: Seq<Seq<char>>, key: Seq<char>)
    requires
        ascending(keys),
    ensures
        0 <= rank(keys, key) <= keys.len(),
        forall|i: int| 0 <= i < rank(keys, key) ==> text_before(#[trigger] keys[i], key),
        forall|i: int| rank(keys, key) <= i < keys.len() ==> !text_before(#[trigger] keys[i], key),
        forall|i: int| 0 <= i < keys.len() && #[trigger] keys[i] == key ==> i == rank(keys, key),
        holds(keys, key) <==> keys.contains(key),
    decreases keys.len(),
{
    let k = rank(keys, key);
    lemma_rank_bounds(keys, key);
    if keys.len() > 0 {
        let rest = keys.drop_first();
        assert(forall|i: int| 0 <= i < rest.len() ==> #[trigger] rest[i] == keys[i + 1]);
        assert(ascending(rest));
        lemma_rank_parts(rest, key);
        if text_before(keys[0], key) {
            assert forall|i: int| 0 <= i < k implies text_before(#[trigger] keys[i], key) by {
                if i > 0 {
                    assert(keys[i] == rest[i - 1]);
                }
            }
            assert forall|i: int| k <= i < keys.len() implies !text_before(
                #[trigger] keys[i],
                key,
            ) by {
                assert(keys[i] == rest[i - 1]);
            }
        } else {
            assert forall|i: int| 0 <= i < keys.len() implies !text_before(
                #[trigger] keys[i],
                key,
            ) by {
                if i > 0 && text_before(keys[i], key) {
                    lemma_text_transitive(keys[0], keys[i], key);
                }
            }
        }
    }
    assert forall|i: int| 0 <= i < keys.len() && #[trigger] keys[i] == key implies i == k by {
        lemma_text_total(key, key);
        if i < k {
            assert(text_before(keys[i], key));
        } else if i > k {
            assert(text_before(keys[k], keys[i]));
        }
    }
    if keys.contains(key) {
        let i = choose|i: int| 0 <= i < keys.len() && keys[i] == key;
        assert(keys[i] == key);
    }
}

/// Putting a new key in at its rank keeps the keys ascending.
pub proof fn lemma_insert_keeps_ascending(keys: Seq<Seq<char>>, key: Seq<char>)
    requires
        ascending(keys),
        !holds(keys, key),
    ensures
        ascending(keys.insert(rank(keys, key), key)),
{
    let k = rank(keys, key);
    let more = keys.insert(k, key);
    lemma_rank_parts(keys, key);
    assert forall|i: int, j: int| 0 <= i < j < more.len() implies text_before(
        #[trigger] more[i],
        #[trigger] more[j],
    ) by {
        if j == k {
            assert(more[i] == keys[i]);
        } else if i == k {
            assert(more[j] == keys[j - 1]);
            lemma_text_total(key, keys[j - 1]);
            assert(!keys.contains(key));
        } else {
            let a = if i < k { i } else { i - 1 };
            let b = if j < k { j } else { j - 1 };
            assert(more[i] == keys[a]);
            assert(more[j] == keys[b]);
        }
    }
}

/// A map from strings to values, kept in the order of its keys.
#[derive(Debug)]
pub struct StringMap<V> {
    /// The keys, ascending.
    pub keys: Vec<String>,
    /// The values; `values[i]` belongs to `keys[i]`.
    pub values: Vec<V>,
}

impl<V> StringMap<V> {
    /// The keys as mathematical strings.
    pub open spec fn key_seq(&self) -> Seq<Seq<char>> {
        self.keys@.map_values(|k: String| k@)
    }

    /// Each key has its value, and the keys ascend strictly.
    pub open spec fn wf(&self) -> bool {
        &&& self.keys@.len() == self.values@.len()
        &&& ascending(self.key_seq())
    }

    /// A map without keys.
    pub fn new() -> (map: Self)
        ensures
            map.wf(),
            map.keys@.len() == 0,
            map.values@.len() == 0,
    {
        StringMap { keys: Vec::new(), values: Vec::new() }
    }

    /// Says whether the map is well-formed.
    pub fn is_wf(&self) -> (ok: bool)
        ensures
            ok == self.wf(),
    {
        if self.keys.len() != self.values.len() {
            return false;
        }
        let ghost keys = self.key_seq();
        let mut i: usize = 1;
        while i < self.keys.len()
            invariant
                1 <= i,
                keys == self.key_seq(),
                forall|j: int| 0 <= j < i - 1 && j < keys.len() - 1 ==> text_before(
                    #[trigger] keys[j],
                    keys[j + 1],
                ),
            decreases self.keys@.len() - i,
        {
            assert(keys[i - 1] == self.keys@[i - 1]@);
            assert(keys[i as int] == self.keys@[i as int]@);
            if compare_text(self.keys[i - 1].as_str(), self.keys[i].as_str()) != Side::Before {
                return false;
            }
            i += 1;
        }
        proof {
            lemma_ascending_from_neighbours(keys);
        }
        true
    }

    /// The number of keys.
    pub fn len(&self) -> (n: usize)
        ensures
            n == self.keys@.len(),
    {
        self.keys.len()
    }

    /// Finds where `key` stands or belongs, and whether it stands there.
    pub fn locate(&self, key: &str) -> (at: (usize, bool))
        requires
            self.wf(),
        ensures
            at.0 == rank(self.key_seq(), key@),
            at.1 == holds(self.key_seq(), key@),
            at.0 <= self.keys@.len(),
    {
        let ghost keys = self.key_seq();
        let mut lo: usize = 0;
        let mut hi: usize = self.keys.len();
        while lo < hi
            invariant
                lo <= hi <= self.keys@.len(),
                keys == self.key_seq(),
                ascending(keys),
                forall|i: int| 0 <= i < lo ==> text_before(#[trigger] keys[i], key@),
                forall|i: int| hi <= i < keys.len() ==> !text_before(#[trigger] keys[i], key@),
            decreases hi - lo,
        {
            let mid = lo + (hi - lo) / 2;
            assert(keys[mid as int] == self.keys@[mid as int]@);
            match compare_text(self.keys[mid].as_str(), key) {
                Side::Before => {
                    proof {
                        assert forall|i: int| 0 <= i < mid + 1 implies text_before(
                            #[trigger] keys[i],
                            key@,
                        ) by {
                            if i < mid {
                                lemma_text_transitive(keys[i], keys[mid as int], key@);
                            }
                        }
                    }
                    lo = mid + 1;
                },
                _ => {
                    proof {
                        assert forall|i: int| mid <= i < keys.len() implies !text_before(
                            #[trigger] keys[i],
                            key@,
                        ) by {
                            if i > mid && text_before(keys[i], key@) {
                                lemma_text_transitive(keys[mid as int], keys[i], key@);
                            }
                        }
                    }
                    hi = mid;
                },
            }
        }
        proof {
            lemma_rank_is(keys, key@, lo as int);
        }
        if lo < self.keys.len() {
            assert(keys[lo as int] == self.keys@[lo as int]@);
            let same = compare_text(self.keys[lo].as_str(), key) == Side::Same;
            (lo, same)
        } else {
            (lo, false)
        }
    }

    /// The value of `key`, if the map has the key.
    pub fn get(&self, key: &str) -> (found: Option<&V>)
        requires
            self.wf(),
        ensures
            match found {
                Some(v) => holds(self.key_seq(), key@) && *v == self.values@[rank(
                    self.key_seq(),
                    key@,
                )],
                None => !holds(self.key_seq(), key@),
            },
    {
        let (at, here) = self.locate(key);
        if here {
            Some(&self.values[at])
        } else {
            None
        }
    }

    /// Gives `key` the value `value`. A key that the map already has keeps
    /// its place and hands back the value it had; a new key goes in at its
    /// rank.
    pub fn insert(&mut self, key: String, value: V) -> (before: Option<V>)
        requires
            old(self).wf(),
        ensures
            final(self).wf(),
            holds(old(self).key_seq(), key@) ==> {
                &&& final(self).key_seq() == old(self).key_seq()
                &&& final(self).values@ == old(self).values@.update(
                    rank(old(self).key_seq(), key@),
                    value,
                )
                &&& before == Some(old(self).values@[rank(old(self).key_seq(), key@)])
            },
            !holds(old(self).key_seq(), key@) ==> {
                &&& final(self).key_seq() == old(self).key_seq().insert(
                    rank(old(self).key_seq(), key@),
                    key@,
                )
                &&& final(self).values@ == old(self).values@.insert(
                    rank(old(self).key_seq(), key@),
                    value,
                )
                &&& before is None
            },
    {
        let (at, here) = self.locate(key.as_str());
        if here {
            self.values.push(value);
            let before = self.values.swap_remove(at);
            assert(self.values@ == old(self).values@.update(at as int, value));
            Some(before)
        } else {
            proof {
                lemma_insert_keeps_ascending(self.key_seq(), key@);
            }
            self.keys.insert(at, key);
            self.values.insert(at, value);
            assert(self.key_seq() == old(self).key_seq().insert(at as int, key@));
            None
        }
    }

    /// Makes sure that the map has `key`, giving it the value `fresh` where
    /// it is new, and says at which index the key stands.
    pub fn slot(&mut self, key: &str, fresh: V) -> (at: usize)
        requires
            old(self).wf(),
        ensures
            final(self).wf(),
            at == rank(old(self).key_seq(), key@),
            at <= old(self).values@.len(),
            at < final(self).values@.len(),
            final(self).key_seq()[at as int] == key@,
            holds(old(self).key_seq(), key@) ==> *final(self) == *old(self),
            !holds(old(self).key_seq(), key@) ==> {
                &&& final(self).key_seq() == old(self).key_seq().insert(at as int, key@)
                &&& final(self).values@ == old(self).values@.insert(at as int, fresh)
            },
    {
        let (at, here) = self.locate(key);
        if !here {
            proof {
                lemma_insert_keeps_ascending(self.key_seq(), key@);
            }
            self.keys.insert(at, key.to_owned());
            self.values.insert(at, fresh);
            assert(self.key_seq() == old(self).key_seq().insert(at as int, key@));
        }
        at
    }
}

} // verus!
