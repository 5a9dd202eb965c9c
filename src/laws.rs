//! Laws of the batching that relate several results.
use vstd::prelude::*;

use crate::batching::is_batching_of;
use crate::key_order::{key_lt, lemma_key_lt_irreflexive, lemma_key_lt_total};
use crate::stream::{
    batch_len,
    batch_pairs,
    batches_pairs,
    event_pairs,
    events_pairs,
    leaves_of,
    lemma_leaves_of_absent,
    run_of,
    trees_ascending,
    well_formed_batch,
};
use crate::types::{ChangelogEvent, Changelogs};

verus! {

/// An event as plain values: its tree and its leaves.
pub open spec fn event_view(e: ChangelogEvent) -> ([u8; 32], Seq<[u8; 32]>) {
    (e.merkle_tree_pubkey, e.leaves@)
}

/// A batch as plain values: its events in order.
pub open spec fn batch_view(b: Changelogs) -> Seq<([u8; 32], Seq<[u8; 32]>)> {
    b.changelogs@.map_values(|e: ChangelogEvent| event_view(e))
}

/// A sequence of batches as plain values.
pub open spec fn batches_view(bs: Seq<Changelogs>) -> Seq<Seq<([u8; 32], Seq<[u8; 32]>)>> {
    bs.map_values(|b: Changelogs| batch_view(b))
}

/// Every batch is well formed and holds at most `n` leaves; all but the
/// last hold exactly `n`.
pub open spec fn chunked(bs: Seq<Changelogs>, n: nat) -> bool {
    forall|i: int|
        0 <= i < bs.len() ==> {
            &&& well_formed_batch(#[trigger] bs[i])
            &&& 0 < batch_len(bs[i]) <= n
            &&& i + 1 < bs.len() ==> batch_len(bs[i]) == n
        }
}

proof fn lemma_occurs(s: Seq<([u8; 32], [u8; 32])>, t: [u8; 32]) -> (k: int)
    requires
        leaves_of(s, t).len() > 0,
    ensures
        0 <= k < s.len(),
        s[k].0 == t,
{
    if !(exists|k: int| 0 <= k < s.len() && (#[trigger] s[k]).0 == t) {
        lemma_leaves_of_absent(s, t);
    }
    choose|k: int| 0 <= k < s.len() && (#[trigger] s[k]).0 == t
}

/// A stream whose trees ascend is fixed by what each tree receives.
proof fn lemma_ascending_stream_unique(a: Seq<([u8; 32], [u8; 32])>, b: Seq<([u8; 32], [u8; 32])>)
    requires
        trees_ascending(a),
        trees_ascending(b),
        forall|t: [u8; 32]| #[trigger] leaves_of(a, t) == leaves_of(b, t),
    ensures
        a == b,
    decreases a.len() + b.len(),
{
    if a.len() == 0 && b.len() == 0 {
        assert(a =~= b);
    } else if a.len() == 0 {
        assert(leaves_of(b, b.last().0) == leaves_of(a, b.last().0));
    } else if b.len() == 0 {
        assert(leaves_of(a, a.last().0) == leaves_of(b, a.last().0));
    } else {
        let ta = a.last().0;
        let tb = b.last().0;
        assert(leaves_of(b, ta) == leaves_of(a, ta));
        assert(leaves_of(a, tb) == leaves_of(b, tb));
        let ka = lemma_occurs(b, ta);
        let kb = lemma_occurs(a, tb);
        lemma_key_lt_irreflexive(ta);
        lemma_key_lt_irreflexive(tb);
        if ka < b.len() - 1 {
            assert(!key_lt(b[b.len() - 1].0, b[ka].0));
        }
        if kb < a.len() - 1 {
            assert(!key_lt(a[a.len() - 1].0, a[kb].0));
        }
        if ta != tb {
            lemma_key_lt_total(ta, tb);
        }
        assert(ta == tb);
        assert(leaves_of(a, ta).last() == a.last().1);
        assert(leaves_of(b, tb).last() == b.last().1);
        assert(a.last() == b.last());
        let a1 = a.drop_last();
        let b1 = b.drop_last();
        assert forall|t: [u8; 32]| #[trigger] leaves_of(a1, t) == leaves_of(b1, t) by {
            assert(leaves_of(a, t) == leaves_of(b, t));
            if t == ta {
                assert(leaves_of(a1, t) =~= leaves_of(a, t).drop_last());
                assert(leaves_of(b1, t) =~= leaves_of(b, t).drop_last());
            }
        };
        assert forall|i: int, j: int| 0 <= i < j < a1.len() implies !key_lt(
            #[trigger] a1[j].0,
            #[trigger] a1[i].0,
        ) by {
            assert(a1[j] == a[j] && a1[i] == a[i]);
        };
        assert forall|i: int, j: int| 0 <= i < j < b1.len() implies !key_lt(
            #[trigger] b1[j].0,
            #[trigger] b1[i].0,
        ) by {
            assert(b1[j] == b[j] && b1[i] == b[i]);
        };
        lemma_ascending_stream_unique(a1, b1);
        assert(a =~= a1.push(a.last()));
        assert(b =~= b1.push(b.last()));
    }
}

proof fn lemma_events_pairs_shape(es: Seq<ChangelogEvent>)
    requires
        es.len() > 0,
        es.last().leaves@.len() > 0,
    ensures
        events_pairs(es) == events_pairs(es.drop_last()) + event_pairs(es.last()),
        events_pairs(es).len() > events_pairs(es.drop_last()).len(),
        events_pairs(es).last().0 == es.last().merkle_tree_pubkey,
{
}

/// Events without empty ones and without two neighbours of one tree are
/// fixed by the stream they append.
proof fn lemma_events_unique(e1: Seq<ChangelogEvent>, e2: Seq<ChangelogEvent>)
    requires
        events_pairs(e1) == events_pairs(e2),
        forall|k: int| 0 <= k < e1.len() ==> #[trigger] e1[k].leaves@.len() > 0,
        forall|k: int| 0 <= k < e2.len() ==> #[trigger] e2[k].leaves@.len() > 0,
        forall|k: int| 0 < k < e1.len() ==> #[trigger] e1[k].merkle_tree_pubkey != e1[k - 1].merkle_tree_pubkey,
        forall|k: int| 0 < k < e2.len() ==> #[trigger] e2[k].merkle_tree_pubkey != e2[k - 1].merkle_tree_pubkey,
    ensures
        e1.map_values(|e: ChangelogEvent| event_view(e)) == e2.map_values(|e: ChangelogEvent| event_view(e)),
    decreases e1.len() + e2.len(),
{
    let s = events_pairs(e1);
    if e1.len() == 0 && e2.len() == 0 {
        assert(e1.map_values(|e: ChangelogEvent| event_view(e)) =~= e2.map_values(|e: ChangelogEvent| event_view(e)));
    } else if e1.len() == 0 {
        lemma_events_pairs_shape(e2);
    } else if e2.len() == 0 {
        lemma_events_pairs_shape(e1);
    } else {
        let x1 = e1.last();
        let x2 = e2.last();
        let d1 = e1.drop_last();
        let d2 = e2.drop_last();
        lemma_events_pairs_shape(e1);
        lemma_events_pairs_shape(e2);
        let p1 = events_pairs(d1).len() as int;
        let p2 = events_pairs(d2).len() as int;
        assert(x1.merkle_tree_pubkey == x2.merkle_tree_pubkey);
        if p1 > p2 {
            // The last pair before e1's last event lies inside e2's last event.
            assert(d1.len() > 0);
            assert(d1.last().leaves@.len() > 0);
            lemma_events_pairs_shape(d1);
            assert(s[p1 - 1] == events_pairs(d1).last());
            assert(d1.last() == e1[e1.len() - 2]);
            assert(e1[e1.len() - 1].merkle_tree_pubkey != e1[e1.len() - 2].merkle_tree_pubkey);
            assert(s[p1 - 1] == event_pairs(x2)[p1 - 1 - p2]);
            assert(false);
        }
        if p2 > p1 {
            assert(d2.len() > 0);
            assert(d2.last().leaves@.len() > 0);
            lemma_events_pairs_shape(d2);
            assert(s[p2 - 1] == events_pairs(d2).last());
            assert(d2.last() == e2[e2.len() - 2]);
            assert(e2[e2.len() - 1].merkle_tree_pubkey != e2[e2.len() - 2].merkle_tree_pubkey);
            assert(s[p2 - 1] == event_pairs(x1)[p2 - 1 - p1]);
            assert(false);
        }
        assert(events_pairs(d1) =~= s.take(p1));
        assert(events_pairs(d2) =~= s.take(p1));
        assert(event_pairs(x1) =~= s.skip(p1));
        assert(event_pairs(x2) =~= s.skip(p1));
        assert forall|i: int| 0 <= i < x1.leaves@.len() implies x1.leaves@[i] == x2.leaves@[i] by {
            assert(event_pairs(x1)[i] == event_pairs(x2)[i]);
        };
        assert(x1.leaves@ =~= x2.leaves@);
        lemma_events_unique(d1, d2);
        assert(e1.map_values(|e: ChangelogEvent| event_view(e)) =~= d1.map_values(|e: ChangelogEvent| event_view(e)).push(event_view(x1)));
        assert(e2.map_values(|e: ChangelogEvent| event_view(e)) =~= d2.map_values(|e: ChangelogEvent| event_view(e)).push(event_view(x2)));
    }
}

proof fn lemma_full_batches_len(bs: Seq<Changelogs>, n: nat)
    requires
        forall|i: int| 0 <= i < bs.len() ==> batch_len(#[trigger] bs[i]) == n,
    ensures
        batches_pairs(bs).len() == bs.len() * n,
    decreases bs.len(),
{
    if bs.len() > 0 {
        lemma_full_batches_len(bs.drop_last(), n);
        assert(batch_len(bs[bs.len() - 1]) == n);
        let k = bs.len() as int;
        assert((k - 1) * n + n == k * n) by (nonlinear_arith);
    }
}

/// Batches cut from one stream by one size are fixed by that stream.
proof fn lemma_chunks_unique(b1: Seq<Changelogs>, b2: Seq<Changelogs>, n: nat)
    requires
        batches_pairs(b1) == batches_pairs(b2),
        chunked(b1, n),
        chunked(b2, n),
    ensures
        batches_view(b1) == batches_view(b2),
    decreases b1.len() + b2.len(),
{
    if b1.len() == 0 && b2.len() == 0 {
        assert(batches_view(b1) =~= batches_view(b2));
    } else if b1.len() == 0 {
        assert(0 < batch_len(b2[b2.len() - 1]));
        assert(batches_pairs(b2) == batches_pairs(b2.drop_last()) + batch_pairs(b2.last()));
    } else if b2.len() == 0 {
        assert(0 < batch_len(b1[b1.len() - 1]));
        assert(batches_pairs(b1) == batches_pairs(b1.drop_last()) + batch_pairs(b1.last()));
    } else {
        let s = batches_pairs(b1);
        let d1 = b1.drop_last();
        let d2 = b2.drop_last();
        let x1 = b1.last();
        let x2 = b2.last();
        assert forall|i: int| 0 <= i < d1.len() implies batch_len(#[trigger] d1[i]) == n by {
            assert(d1[i] == b1[i]);
        };
        assert forall|i: int| 0 <= i < d2.len() implies batch_len(#[trigger] d2[i]) == n by {
            assert(d2[i] == b2[i]);
        };
        lemma_full_batches_len(d1, n);
        lemma_full_batches_len(d2, n);
        let m1 = d1.len() as int;
        let m2 = d2.len() as int;
        let l1 = batch_len(x1);
        let l2 = batch_len(x2);
        assert(b1[b1.len() - 1] == x1 && b2[b2.len() - 1] == x2);
        assert(0 < l1 <= n && 0 < l2 <= n);
        assert(batches_pairs(b1) == batches_pairs(d1) + batch_pairs(x1));
        assert(batches_pairs(b2) == batches_pairs(d2) + batch_pairs(x2));
        assert(m1 * n + l1 == m2 * n + l2);
        assert(m1 == m2) by (nonlinear_arith)
            requires
                m1 * n + l1 == m2 * n + l2,
                0 < l1 <= n,
                0 < l2 <= n,
                m1 >= 0,
                m2 >= 0,
        {
            if m1 > m2 {
                assert((m1 - m2) * n >= n);
            } else if m2 > m1 {
                assert((m2 - m1) * n >= n);
            }
        }
        let p = m1 * n;
        assert(batches_pairs(d1) =~= s.take(p));
        assert(batches_pairs(d2) =~= s.take(p));
        assert(batch_pairs(x1) =~= s.skip(p));
        assert(batch_pairs(x2) =~= s.skip(p));
        assert(well_formed_batch(b1[b1.len() - 1]) && well_formed_batch(b2[b2.len() - 1]));
        lemma_events_unique(x1.changelogs@, x2.changelogs@);
        assert forall|i: int| 0 <= i < d1.len() implies {
            &&& well_formed_batch(#[trigger] d1[i])
            &&& 0 < batch_len(d1[i]) <= n
            &&& i + 1 < d1.len() ==> batch_len(d1[i]) == n
        } by {
            assert(d1[i] == b1[i]);
        };
        assert forall|i: int| 0 <= i < d2.len() implies {
            &&& well_formed_batch(#[trigger] d2[i])
            &&& 0 < batch_len(d2[i]) <= n
            &&& i + 1 < d2.len() ==> batch_len(d2[i]) == n
        } by {
            assert(d2[i] == b2[i]);
        };
        lemma_chunks_unique(d1, d2, n);
        assert(batches_view(b1) =~= batches_view(d1).push(batch_view(x1)));
        assert(batches_view(b2) =~= batches_view(d2).push(batch_view(x2)));
    }
}

/// Batching is deterministic: two batchings of the same stream by the same
/// batch size hold the same events, with the same trees and leaves, in the
/// same batches and in the same order.
pub proof fn lemma_batching_is_unique(
    b1: Seq<Changelogs>,
    b2: Seq<Changelogs>,
    s: Seq<([u8; 32], [u8; 32])>,
    batch_size: nat,
)
    requires
        is_batching_of(b1, s, batch_size),
        is_batching_of(b2, s, batch_size),
    ensures
        batches_view(b1) == batches_view(b2),
{
    assert forall|t: [u8; 32]| #[trigger] leaves_of(batches_pairs(b1), t) == leaves_of(
        batches_pairs(b2),
        t,
    ) by {
        assert(leaves_of(batches_pairs(b1), t) == leaves_of(s, t));
        assert(leaves_of(batches_pairs(b2), t) == leaves_of(s, t));
    };
    lemma_ascending_stream_unique(batches_pairs(b1), batches_pairs(b2));
    lemma_chunks_unique(b1, b2, batch_size);
}

} // verus!
