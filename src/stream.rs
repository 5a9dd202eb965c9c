//! The mathematical model: leaves as a stream of `(tree, leaf)` pairs, and
//! what each tree receives from such a stream.
use vstd::multiset::Multiset;
use vstd::prelude::*;

use crate::key_order::key_lt;
use crate::types::{ChangelogEvent, Changelogs};

verus! {

/// The input as a stream: position `i` assigns `leaves[i]` to `trees[i]`.
pub open spec fn assignments(leaves: Seq<[u8; 32]>, trees: Seq<[u8; 32]>) -> Seq<
    ([u8; 32], [u8; 32]),
> {
    Seq::new(leaves.len(), |i: int| (trees[i], leaves[i]))
}

/// The leaves that tree `t` receives from the stream `s`, in stream order.
pub open spec fn leaves_of(s: Seq<([u8; 32], [u8; 32])>, t: [u8; 32]) -> Seq<[u8; 32]>
    decreases s.len(),
{
    if s.len() == 0 {
        Seq::empty()
    } else {
        let rest = leaves_of(s.drop_last(), t);
        if s.last().0 == t {
            rest.push(s.last().1)
        } else {
            rest
        }
    }
}

/// The tree identifiers never decrease along the stream.
pub open spec fn trees_ascending(s: Seq<([u8; 32], [u8; 32])>) -> bool {
    forall|i: int, j: int| 0 <= i < j < s.len() ==> !key_lt(#[trigger] s[j].0, #[trigger] s[i].0)
}

/// Leaves `ls`, each paired with tree `t`.
pub open spec fn run_of(t: [u8; 32], ls: Seq<[u8; 32]>) -> Seq<([u8; 32], [u8; 32])> {
    ls.map_values(|l: [u8; 32]| (t, l))
}

/// The stream that one event appends.
pub open spec fn event_pairs(e: ChangelogEvent) -> Seq<([u8; 32], [u8; 32])> {
    run_of(e.merkle_tree_pubkey, e.leaves@)
}

/// The stream of a sequence of events, in event order.
pub open spec fn events_pairs(es: Seq<ChangelogEvent>) -> Seq<([u8; 32], [u8; 32])>
    decreases es.len(),
{
    if es.len() == 0 {
        Seq::empty()
    } else {
        events_pairs(es.drop_last()) + event_pairs(es.last())
    }
}

/// The stream of one batch.
pub open spec fn batch_pairs(b: Changelogs) -> Seq<([u8; 32], [u8; 32])> {
    events_pairs(b.changelogs@)
}

/// The number of leaves in one batch.
pub open spec fn batch_len(b: Changelogs) -> int {
    batch_pairs(b).len() as int
}

/// The stream of all batches, in batch order and then event order.
pub open spec fn batches_pairs(bs: Seq<Changelogs>) -> Seq<([u8; 32], [u8; 32])>
    decreases bs.len(),
{
    if bs.len() == 0 {
        Seq::empty()
    } else {
        batches_pairs(bs.drop_last()) + batch_pairs(bs.last())
    }
}

/// Every leaf of the output, in batch order and then event order.
pub open spec fn output_leaves(bs: Seq<Changelogs>) -> Seq<[u8; 32]> {
    batches_pairs(bs).map_values(|p: ([u8; 32], [u8; 32])| p.1)
}

/// A batch holds at least one event, no event is empty, and two events
/// next to each other belong to different trees.
pub open spec fn well_formed_batch(b: Changelogs) -> bool {
    &&& b.changelogs@.len() > 0
    &&& forall|k: int| 0 <= k < b.changelogs@.len() ==> #[trigger] b.changelogs@[k].leaves@.len() > 0
    &&& forall|k: int|
        0 < k < b.changelogs@.len() ==> #[trigger] b.changelogs@[k].merkle_tree_pubkey
            != b.changelogs@[k - 1].merkle_tree_pubkey
}

pub proof fn lemma_leaves_of_push(s: Seq<([u8; 32], [u8; 32])>, p: ([u8; 32], [u8; 32]), t: [u8; 32])
    ensures
        leaves_of(s.push(p), t) == if p.0 == t {
            leaves_of(s, t).push(p.1)
        } else {
            leaves_of(s, t)
        },
{
    assert(s.push(p).drop_last() =~= s);
}

/// What a tree receives from two streams one after the other.
pub proof fn lemma_leaves_of_append(a: Seq<([u8; 32], [u8; 32])>, b: Seq<([u8; 32], [u8; 32])>, t: [u8; 32])
    ensures
        leaves_of(a + b, t) == leaves_of(a, t) + leaves_of(b, t),
    decreases b.len(),
{
    if b.len() == 0 {
        assert(a + b =~= a);
        assert(leaves_of(a, t) + leaves_of(b, t) =~= leaves_of(a, t));
    } else {
        lemma_leaves_of_append(a, b.drop_last(), t);
        assert((a + b).drop_last() =~= a + b.drop_last());
        assert((a + b).last() == b.last());
        if b.last().0 == t {
            assert(leaves_of(a, t) + leaves_of(b.drop_last(), t).push(b.last().1) =~= (
            leaves_of(a, t) + leaves_of(b.drop_last(), t)).push(b.last().1));
        }
    }
}

/// A run of one tree gives that tree all its leaves and no other tree any.
pub proof fn lemma_leaves_of_run(k: [u8; 32], ls: Seq<[u8; 32]>, t: [u8; 32])
    ensures
        leaves_of(run_of(k, ls), t) == if k == t {
            ls
        } else {
            Seq::<[u8; 32]>::empty()
        },
    decreases ls.len(),
{
    if ls.len() == 0 {
        assert(run_of(k, ls) =~= Seq::empty());
    } else {
        lemma_leaves_of_run(k, ls.drop_last(), t);
        assert(run_of(k, ls).drop_last() =~= run_of(k, ls.drop_last()));
        if k == t {
            assert(ls.drop_last().push(ls.last()) =~= ls);
        }
    }
}

/// A tree that never occurs in the stream receives nothing.
pub proof fn lemma_leaves_of_absent(s: Seq<([u8; 32], [u8; 32])>, t: [u8; 32])
    requires
        forall|i: int| 0 <= i < s.len() ==> s[i].0 != t,
    ensures
        leaves_of(s, t) == Seq::<[u8; 32]>::empty(),
    decreases s.len(),
{
    if s.len() > 0 {
        lemma_leaves_of_absent(s.drop_last(), t);
    }
}


/// How often a pair occurs in a stream is how often its leaf occurs among
/// what its tree receives.
pub proof fn lemma_leaves_of_count(s: Seq<([u8; 32], [u8; 32])>, t: [u8; 32], l: [u8; 32])
    ensures
        s.to_multiset().count((t, l)) == leaves_of(s, t).to_multiset().count(l),
    decreases s.len(),
{
    broadcast use vstd::seq_lib::group_to_multiset_ensures;
    if s.len() == 0 {
        assert(s.to_multiset() =~= Multiset::empty());
        assert(leaves_of(s, t).to_multiset() =~= Multiset::empty());
    } else {
        lemma_leaves_of_count(s.drop_last(), t, l);
        assert(s.drop_last().push(s.last()) =~= s);
    }
}

/// Two streams from which every tree receives the same leaves hold the
/// same pairs, as many times each.
pub proof fn lemma_same_leaves_same_multiset(a: Seq<([u8; 32], [u8; 32])>, b: Seq<([u8; 32], [u8; 32])>)
    requires
        forall|t: [u8; 32]| #[trigger] leaves_of(a, t) == leaves_of(b, t),
    ensures
        a.to_multiset() == b.to_multiset(),
{
    assert forall|p: ([u8; 32], [u8; 32])| a.to_multiset().count(p) == b.to_multiset().count(p) by {
        lemma_leaves_of_count(a, p.0, p.1);
        lemma_leaves_of_count(b, p.0, p.1);
        assert(leaves_of(a, p.0) == leaves_of(b, p.0));
    };
    assert(a.to_multiset() =~= b.to_multiset());
}

/// Mapping the elements of two sequences that hold the same elements
/// gives two sequences that hold the same elements.
pub proof fn lemma_map_keeps_multiset<A, B>(a: Seq<A>, b: Seq<A>, f: spec_fn(A) -> B)
    requires
        a.to_multiset() == b.to_multiset(),
    ensures
        a.map_values(f).to_multiset() == b.map_values(f).to_multiset(),
    decreases a.len(),
{
    broadcast use vstd::seq_lib::group_to_multiset_ensures;
    if a.len() == 0 {
        assert(b.to_multiset().len() == 0);
        assert(b.len() == 0);
        assert(a.map_values(f) =~= b.map_values(f));
    } else {
        let x = a.last();
        assert(a.drop_last().push(x) =~= a);
        assert(a.to_multiset().count(x) > 0);
        assert(b.contains(x));
        let k = choose|k: int| 0 <= k < b.len() && b[k] == x;
        let b1 = b.remove(k);
        assert(b1.to_multiset() =~= a.drop_last().to_multiset());
        lemma_map_keeps_multiset(a.drop_last(), b1, f);
        assert(a.map_values(f) =~= a.drop_last().map_values(f).push(f(x)));
        assert(b1.map_values(f) =~= b.map_values(f).remove(k));
        assert(b.map_values(f)[k] == f(x));
        assert(b.map_values(f).remove(k).to_multiset() =~= b.map_values(f).to_multiset().remove(f(x)));
        assert(b.map_values(f).to_multiset().count(f(x)) > 0);
        assert(b.map_values(f).to_multiset().remove(f(x)).insert(f(x)) =~= b.map_values(f).to_multiset());
    }
}

} // verus!
