//! The order of strings by which logins and problem letters are ranked.
//!
//! Two strings compare as their UTF-8 encodings do, byte by byte; a proper
//! prefix comes before the longer string. This is the order that the
//! standard library gives to `str` and `String`.

use vstd::prelude::*;
use vstd::utf8::{encode_utf8, encode_utf8_decode_utf8, decode_utf8};

verus! {

/// `a` comes strictly before `b`, byte by byte.
pub open spec fn bytes_before(a: Seq<u8>, b: Seq<u8>) -> bool
    decreases a.len(),
{
    if b.len() == 0 {
        false
    } else if a.len() == 0 {
        true
    } else if a[0] != b[0] {
        a[0] < b[0]
    } else {
        bytes_before(a.drop_first(), b.drop_first())
    }
}

/// `a` comes strictly before `b` in the order of strings.
pub open spec fn text_before(a: Seq<char>, b: Seq<char>) -> bool {
    bytes_before(encode_utf8(a), encode_utf8(b))
}

/// Each member of `keys` comes strictly before every later one.
pub open spec fn ascending(keys: Seq<Seq<char>>) -> bool {
    forall|i: int, j: int|
        0 <= i < j < keys.len() ==> text_before(#[trigger] keys[i], #[trigger] keys[j])
}

/// How one string stands to another.
#[derive(Debug, PartialEq, Eq, Structural, Clone, Copy)]
pub enum Side {
    Before,
    Same,
    After,
}

/// No byte sequence comes before itself.
pub proof fn lemma_bytes_irreflexive(a: Seq<u8>)
    ensures
        !bytes_before(a, a),
    decreases a.len(),
{
    if a.len() > 0 {
        lemma_bytes_irreflexive(a.drop_first());
    }
}

/// The order of byte sequences is transitive.
pub proof fn lemma_bytes_transitive(a: Seq<u8>, b: Seq<u8>, c: Seq<u8>)
    requires
        bytes_before(a, b),
        bytes_before(b, c),
    ensures
        bytes_before(a, c),
    decreases a.len(),
{
    if a.len() > 0 && a[0] == b[0] && b[0] == c[0] {
        lemma_bytes_transitive(a.drop_first(), b.drop_first(), c.drop_first());
    }
}

/// Of two different byte sequences exactly one comes before the other.
pub proof fn lemma_bytes_total(a: Seq<u8>, b: Seq<u8>)
    ensures
        bytes_before(a, b) || bytes_before(b, a) || a == b,
        !(bytes_before(a, b) && bytes_before(b, a)),
    decreases a.len(),
{
    if a.len() == 0 || b.len() == 0 {
        if a.len() == 0 && b.len() == 0 {
            assert(a =~= b);
        }
    } else if a[0] == b[0] {
        lemma_bytes_total(a.drop_first(), b.drop_first());
        if a.drop_first() == b.drop_first() {
            assert(a =~= seq![a[0]] + a.drop_first());
            assert(b =~= seq![b[0]] + b.drop_first());
        }
    }
}

/// No string comes before itself.
pub proof fn lemma_text_irreflexive(a: Seq<char>)
    ensures
        !text_before(a, a),
{
    lemma_bytes_irreflexive(encode_utf8(a));
}

/// The order of strings is transitive.
pub proof fn lemma_text_transitive(a: Seq<char>, b: Seq<char>, c: Seq<char>)
    requires
        text_before(a, b),
        text_before(b, c),
    ensures
        text_before(a, c),
{
    lemma_bytes_transitive(encode_utf8(a), encode_utf8(b), encode_utf8(c));
}

/// Of two different strings exactly one comes before the other.
pub proof fn lemma_text_total(a: Seq<char>, b: Seq<char>)
    ensures
        text_before(a, b) || text_before(b, a) || a == b,
        !(text_before(a, b) && text_before(b, a)),
        a == b ==> !text_before(a, b),
{
    lemma_bytes_total(encode_utf8(a), encode_utf8(b));
    lemma_text_irreflexive(a);
    if encode_utf8(a) == encode_utf8(b) {
        encode_utf8_decode_utf8(a);
        encode_utf8_decode_utf8(b);
        assert(decode_utf8(encode_utf8(a)) == decode_utf8(encode_utf8(b)));
    }
}

/// Keys of which each comes before its right neighbour are ascending.
pub proof fn lemma_ascending_from_neighbours(keys: Seq<Seq<char>>)
    requires
        forall|i: int| 0 <= i < keys.len() - 1 ==> text_before(#[trigger] keys[i], keys[i + 1]),
    ensures
        ascending(keys),
{
    assert forall|i: int, j: int| 0 <= i < j < keys.len() implies text_before(
        #[trigger] keys[i],
        #[trigger] keys[j],
    ) by {
        lemma_neighbours_reach(keys, i, j);
    }
}

/// Keys of which each comes before its right neighbour: any key comes
/// before any later one.
proof fn lemma_neighbours_reach(keys: Seq<Seq<char>>, i: int, j: int)
    requires
        forall|i: int| 0 <= i < keys.len() - 1 ==> text_before(#[trigger] keys[i], keys[i + 1]),
        0 <= i < j < keys.len(),
    ensures
        text_before(keys[i], keys[j]),
    decreases j - i,
{
    if j > i + 1 {
        lemma_neighbours_reach(keys, i, j - 1);
        assert(text_before(keys[j - 1], keys[j - 1 + 1]));
        lemma_text_transitive(keys[i], keys[j - 1], keys[j]);
    }
}

/// Says how `a` stands to `b` in the order of strings.
pub fn compare_text(a: &str, b: &str) -> (side: Side)
    ensures
        side == Side::Before <==> text_before(a@, b@),
        side == Side::After <==> text_before(b@, a@),
        side == Side::Same <==> a@ == b@,
{
    let x = a.as_bytes();
    let y = b.as_bytes();
    proof {
        lemma_text_total(a@, b@);
        assert(x@.skip(0) =~= x@);
        assert(y@.skip(0) =~= y@);
    }
    let mut i: usize = 0;
    while i < x.len() && i < y.len()
        invariant
            i <= x.len(),
            i <= y.len(),
            x@ == encode_utf8(a@),
            y@ == encode_utf8(b@),
            bytes_before(x@, y@) == bytes_before(x@.skip(i as int), y@.skip(i as int)),
            bytes_before(y@, x@) == bytes_before(y@.skip(i as int), x@.skip(i as int)),
        decreases x.len() - i,
    {
        let p = x[i];
        let q = y[i];
        proof {
            assert(x@.skip(i as int).drop_first() =~= x@.skip(i + 1));
            assert(y@.skip(i as int).drop_first() =~= y@.skip(i + 1));
            assert(x@.skip(i as int)[0] == p);
            assert(y@.skip(i as int)[0] == q);
        }
        if p < q {
            return Side::Before;
        }
        if q < p {
            return Side::After;
        }
        i += 1;
    }
    if i < y.len() {
        Side::Before
    } else if i < x.len() {
        Side::After
    } else {
        proof {
            lemma_bytes_irreflexive(x@.skip(i as int));
            assert(x@.skip(i as int).len() == 0);
            assert(y@.skip(i as int).len() == 0);
        }
        Side::Same
    }
}

} // verus!
