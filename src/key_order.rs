//! The order on 32-byte identifiers: lexicographic on their bytes, which
//! is the order std gives to `[u8; 32]`.
use vstd::prelude::*;

verus! {

/// `a` comes strictly before `b` in lexicographic byte order.
pub open spec fn bytes_lt(a: Seq<u8>, b: Seq<u8>) -> bool
    decreases a.len(),
{
    if a.len() == 0 || b.len() == 0 {
        false
    } else if a[0] != b[0] {
        a[0] < b[0]
    } else {
        bytes_lt(a.drop_first(), b.drop_first())
    }
}

/// Strict order on 32-byte keys.
pub open spec fn key_lt(a: [u8; 32], b: [u8; 32]) -> bool {
    bytes_lt(a@, b@)
}

pub proof fn lemma_bytes_lt_irreflexive(a: Seq<u8>)
    ensures
        !bytes_lt(a, a),
    decreases a.len(),
{
    if a.len() > 0 {
        lemma_bytes_lt_irreflexive(a.drop_first());
    }
}

pub proof fn lemma_bytes_lt_transitive(a: Seq<u8>, b: Seq<u8>, c: Seq<u8>)
    requires
        bytes_lt(a, b),
        bytes_lt(b, c),
    ensures
        bytes_lt(a, c),
    decreases a.len(),
{
    if a[0] == b[0] && b[0] == c[0] {
        lemma_bytes_lt_transitive(a.drop_first(), b.drop_first(), c.drop_first());
    }
}

pub proof fn lemma_bytes_lt_total(a: Seq<u8>, b: Seq<u8>)
    requires
        a.len() == b.len(),
        a != b,
    ensures
        bytes_lt(a, b) || bytes_lt(b, a),
    decreases a.len(),
{
    if a.len() == 0 {
        assert(a =~= b);
    } else if a[0] == b[0] {
        if a.drop_first() == b.drop_first() {
            assert(a =~= seq![a[0]] + a.drop_first());
            assert(b =~= seq![b[0]] + b.drop_first());
        }
        lemma_bytes_lt_total(a.drop_first(), b.drop_first());
    }
}

/// Past a common prefix of length `i`, the order is decided by the rest.
proof fn lemma_bytes_lt_skip(a: Seq<u8>, b: Seq<u8>, i: int)
    requires
        a.len() == b.len(),
        0 <= i <= a.len(),
        forall|j: int| 0 <= j < i ==> a[j] == b[j],
    ensures
        bytes_lt(a, b) == bytes_lt(a.subrange(i, a.len() as int), b.subrange(i, b.len() as int)),
    decreases i,
{
    if i == 0 {
        assert(a.subrange(0, a.len() as int) =~= a);
        assert(b.subrange(0, b.len() as int) =~= b);
    } else {
        lemma_bytes_lt_skip(a.drop_first(), b.drop_first(), i - 1);
        assert(a.drop_first().subrange(i - 1, a.len() - 1) =~= a.subrange(i, a.len() as int));
        assert(b.drop_first().subrange(i - 1, b.len() - 1) =~= b.subrange(i, b.len() as int));
    }
}

pub proof fn lemma_key_lt_irreflexive(a: [u8; 32])
    ensures
        !key_lt(a, a),
{
    lemma_bytes_lt_irreflexive(a@);
}

pub proof fn lemma_key_lt_transitive(a: [u8; 32], b: [u8; 32], c: [u8; 32])
    requires
        key_lt(a, b),
        key_lt(b, c),
    ensures
        key_lt(a, c),
{
    lemma_bytes_lt_transitive(a@, b@, c@);
}

/// Two different keys are ordered one way or the other.
pub proof fn lemma_key_lt_total(a: [u8; 32], b: [u8; 32])
    requires
        a != b,
    ensures
        key_lt(a, b) || key_lt(b, a),
{
    broadcast use vstd::array::group_array_axioms;
    if a@ == b@ {
        assert(a =~= b);
    }
    lemma_bytes_lt_total(a@, b@);
}

/// Compares two keys byte by byte.
pub fn compare_keys(a: &[u8; 32], b: &[u8; 32]) -> (r: core::cmp::Ordering)
    ensures
        r is Less <==> key_lt(*a, *b),
        r is Equal <==> *a == *b,
        r is Greater <==> key_lt(*b, *a),
{
    broadcast use vstd::array::group_array_axioms;
    let mut i: usize = 0;
    while i < 32
        invariant
            0 <= i <= 32,
            a@.len() == 32,
            b@.len() == 32,
            forall|j: int| 0 <= j < i ==> a@[j] == b@[j],
        decreases 32 - i,
    {
        if a[i] != b[i] {
            proof {
                lemma_bytes_lt_skip(a@, b@, i as int);
                lemma_bytes_lt_skip(b@, a@, i as int);
                let sa = a@.subrange(i as int, 32);
                let sb = b@.subrange(i as int, 32);
                assert(sa[0] == a@[i as int]);
                assert(sb[0] == b@[i as int]);
                if *a == *b {
                    assert(false);
                }
            }
            if a[i] < b[i] {
                return core::cmp::Ordering::Less;
            } else {
                return core::cmp::Ordering::Greater;
            }
        }
        i = i + 1;
    }
    proof {
        assert(*a =~= *b);
        lemma_key_lt_irreflexive(*a);
    }
    core::cmp::Ordering::Equal
}

} // verus!
