//! Node identifiers are byte strings. This file holds what the library needs
//! of byte strings and of text: equality, an order, and a hash to key the id
//! index by.

use vstd::prelude::*;
use vstd::string::StringSliceAdditionalSpecFns;
use vstd::utf8::encode_utf8_decode_utf8;

verus! {

/// Whether a byte is a decimal digit.
pub open spec fn is_digit(b: u8) -> bool {
    0x30 <= b <= 0x39
}

/// Whether two byte strings hold the same bytes.
pub fn same_bytes(a: &[u8], b: &[u8]) -> (same: bool)
    ensures
        same == (a@ == b@),
{
    if a.len() != b.len() {
        return false;
    }
    let mut i: usize = 0;
    while i < a.len()
        invariant
            i <= a.len(),
            a.len() == b.len(),
            a@.subrange(0, i as int) == b@.subrange(0, i as int),
        decreases a.len() - i,
    {
        if a[i] != b[i] {
            return false;
        }
        assert(a@.subrange(0, i + 1) == a@.subrange(0, i as int).push(a@[i as int]));
        assert(b@.subrange(0, i + 1) == b@.subrange(0, i as int).push(b@[i as int]));
        i += 1;
    }
    assert(a@ == a@.subrange(0, a.len() as int));
    assert(b@ == b@.subrange(0, b.len() as int));
    true
}

/// The 64-bit FNV-1a hash of a byte string.
pub open spec fn id_hash(id: Seq<u8>) -> u64
    decreases id.len(),
{
    if id.len() == 0 {
        0xcbf2_9ce4_8422_2325u64
    } else {
        (id_hash(id.drop_last()) ^ (id.last() as u64)).wrapping_mul(0x0000_0100_0000_01b3u64)
    }
}

/// Computes `id_hash`.
pub fn hash_id(id: &[u8]) -> (h: u64)
    ensures
        h == id_hash(id@),
{
    let mut h: u64 = 0xcbf2_9ce4_8422_2325u64;
    let mut i: usize = 0;
    while i < id.len()
        invariant
            i <= id.len(),
            h == id_hash(id@.subrange(0, i as int)),
        decreases id.len() - i,
    {
        assert(id@.subrange(0, i + 1).drop_last() == id@.subrange(0, i as int));
        h = (h ^ (id[i] as u64)).wrapping_mul(0x0000_0100_0000_01b3u64);
        i += 1;
    }
    assert(id@ == id@.subrange(0, id.len() as int));
    h
}

/// Whether `a` sorts before `b`, byte by byte: at the first place where the
/// two differ `a` has the smaller byte, or `a` ends there and `b` goes on.
pub open spec fn sorts_before(a: Seq<u8>, b: Seq<u8>) -> bool {
    exists|k: int|
        {
            &&& 0 <= k <= a.len()
            &&& k <= b.len()
            &&& forall|j: int| 0 <= j < k ==> a[j] == b[j]
            &&& #[trigger] differs_at(a, b, k)
        }
}

/// Whether at place `k` the string `a` ends before `b` does, or has the
/// smaller byte.
pub open spec fn differs_at(a: Seq<u8>, b: Seq<u8>, k: int) -> bool {
    (k == a.len() && k < b.len()) || (k < a.len() && k < b.len() && a[k] < b[k])
}

/// How two byte strings stand to one another in the order of `sorts_before`.
#[derive(Clone, Copy, Debug, PartialEq, Eq, Structural)]
pub enum Rank {
    Before,
    Same,
    After,
}

/// Ranks `a` against `b`.
pub fn rank(a: &[u8], b: &[u8]) -> (r: Rank)
    ensures
        match r {
            Rank::Before => sorts_before(a@, b@),
            Rank::Same => a@ == b@,
            Rank::After => sorts_before(b@, a@),
        },
{
    let mut i: usize = 0;
    while i < a.len() && i < b.len()
        invariant
            i <= a.len(),
            i <= b.len(),
            forall|j: int| 0 <= j < i ==> a@[j] == b@[j],
        decreases a.len() - i,
    {
        if a[i] < b[i] {
            assert(differs_at(a@, b@, i as int));
            return Rank::Before;
        }
        if a[i] > b[i] {
            assert(differs_at(b@, a@, i as int));
            return Rank::After;
        }
        i += 1;
    }
    if i < b.len() {
        assert(differs_at(a@, b@, i as int));
        Rank::Before
    } else if i < a.len() {
        assert(differs_at(b@, a@, i as int));
        Rank::After
    } else {
        assert(a@ =~= b@);
        Rank::Same
    }
}

/// What sorts before a string that sorts before a third, sorts before the
/// third.
pub proof fn lemma_sorts_before_chain(a: Seq<u8>, b: Seq<u8>, c: Seq<u8>)
    requires
        sorts_before(a, b),
        sorts_before(b, c),
    ensures
        sorts_before(a, c),
{
    let k = choose|k: int|
        {
            &&& 0 <= k <= a.len()
            &&& k <= b.len()
            &&& forall|j: int| 0 <= j < k ==> a[j] == b[j]
            &&& #[trigger] differs_at(a, b, k)
        };
    let m = choose|m: int|
        {
            &&& 0 <= m <= b.len()
            &&& m <= c.len()
            &&& forall|j: int| 0 <= j < m ==> b[j] == c[j]
            &&& #[trigger] differs_at(b, c, m)
        };
    let n = if k <= m { k } else { m };
    assert forall|j: int| 0 <= j < n implies a[j] == c[j] by {
        assert(a[j] == b[j]);
        assert(b[j] == c[j]);
    }
    if k < m {
        assert(b[k] == c[k]);
    }
    if m < k {
        assert(a[m] == b[m]);
    }
    assert(differs_at(a, c, n));
}

/// Whether two strings hold the same text.
pub fn same_text(a: &str, b: &str) -> (same: bool)
    ensures
        same == (a@ == b@),
{
    proof {
        encode_utf8_decode_utf8(a@);
        encode_utf8_decode_utf8(b@);
    }
    same_bytes(a.as_bytes(), b.as_bytes())
}

} // verus!
