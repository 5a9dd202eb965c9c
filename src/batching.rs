//! Cutting the grouped leaves into batches of changelog events.
use vstd::prelude::*;

use crate::grouping::{build_merkle_tree_map, groups_view, has_key, is_grouping_of};
use crate::key_order::{key_lt, lemma_key_lt_irreflexive, lemma_key_lt_transitive};
use crate::stream::{
    assignments,
    batch_len,
    batch_pairs,
    batches_pairs,
    event_pairs,
    events_pairs,
    leaves_of,
    lemma_leaves_of_absent,
    lemma_leaves_of_append,
    lemma_leaves_of_run,
    lemma_map_keeps_multiset,
    lemma_same_leaves_same_multiset,
    output_leaves,
    run_of,
    trees_ascending,
    well_formed_batch,
};
use crate::types::{ChangelogEvent, Changelogs, MyError};

verus! {

/// `bs` is the batching of stream `s` by `batch_size`: every tree receives
/// exactly its leaves of `s`, in order; the trees come in ascending order;
/// every batch is well formed and holds `batch_size` leaves, except the
/// last, which holds between one and `batch_size`.
pub open spec fn is_batching_of(
    bs: Seq<Changelogs>,
    s: Seq<([u8; 32], [u8; 32])>,
    batch_size: nat,
) -> bool {
    &&& forall|t: [u8; 32]| #[trigger] leaves_of(batches_pairs(bs), t) == leaves_of(s, t)
    &&& trees_ascending(batches_pairs(bs))
    &&& forall|i: int|
        0 <= i < bs.len() ==> {
            &&& well_formed_batch(#[trigger] bs[i])
            &&& 0 < batch_len(bs[i]) <= batch_size
            &&& i + 1 < bs.len() ==> batch_len(bs[i]) == batch_size
        }
}

/// Relies on num_integer::div_ceil: the quotient of `a` by `b`, rounded up.
#[verifier::external_body]
fn div_round_up(a: usize, b: usize) -> (r: usize)
    requires
        b > 0,
    ensures
        r as int == a as int / b as int + if a as int % b as int != 0 {
            1int
        } else {
            0int
        },
{
    num_integer::div_ceil(a, b)
}

proof fn lemma_events_pairs_push(es: Seq<ChangelogEvent>, e: ChangelogEvent)
    ensures
        events_pairs(es.push(e)) == events_pairs(es) + event_pairs(e),
{
    assert(es.push(e).drop_last() =~= es);
}

proof fn lemma_batches_pairs_push(bs: Seq<Changelogs>, b: Changelogs)
    ensures
        batches_pairs(bs.push(b)) == batches_pairs(bs) + batch_pairs(b),
{
    assert(bs.push(b).drop_last() =~= bs);
}

/// Splits `leaves` (`leaves[i]` goes to `merkle_trees[i]`) into batches of
/// at most `batch_size` leaves. The trees are visited in ascending order;
/// inside a batch each tree's run of leaves forms one changelog event, and
/// a tree whose leaves cross a batch boundary gets one event on each side.
pub fn append_leaves(leaves: Vec<[u8; 32]>, merkle_trees: Vec<[u8; 32]>, batch_size: usize) -> (r:
    Result<Vec<Changelogs>, MyError>)
    ensures
        leaves@.len() != merkle_trees@.len() ==> r == Err::<Vec<Changelogs>, MyError>(
            MyError::LeavesTreesNotEqual(leaves@.len() as usize, merkle_trees@.len() as usize),
        ),
        leaves@.len() == merkle_trees@.len() && batch_size == 0 ==> r == Err::<
            Vec<Changelogs>,
            MyError,
        >(MyError::InvalidBatchSize),
        r is Ok <==> leaves@.len() == merkle_trees@.len() && batch_size > 0,
        r matches Ok(bs) ==> is_batching_of(
            bs@,
            assignments(leaves@, merkle_trees@),
            batch_size as nat,
        ),
        r matches Ok(bs) ==> output_leaves(bs@).to_multiset() == leaves@.to_multiset(),
{
    let g = match build_merkle_tree_map(&leaves, &merkle_trees) {
        Ok(g) => g,
        Err(e) => {
            return Err(e);
        },
    };
    if batch_size == 0 {
        return Err(MyError::InvalidBatchSize);
    }
    let ghost s = assignments(leaves@, merkle_trees@);
    let ghost gv = groups_view(g@);
    let num_batches = div_round_up(leaves.len(), batch_size);
    let mut batches: Vec<Changelogs> = Vec::with_capacity(num_batches);
    let mut cur: Vec<ChangelogEvent> = Vec::new();
    let mut leaves_in_batch: usize = 0;
    let mut leaves_start: usize = 0;
    let mut ti: usize = 0;
    while ti < g.len()
        invariant
            batch_size > 0,
            gv == groups_view(g@),
            is_grouping_of(gv, s),
            ti <= gv.len(),
            ti < gv.len() ==> leaves_start < gv[ti as int].1.len(),
            ti == gv.len() ==> leaves_start == 0,
            leaves_in_batch < batch_size,
            events_pairs(cur@).len() == leaves_in_batch,
            leaves_in_batch == 0 <==> cur@.len() == 0,
            forall|b: int|
                0 <= b < batches@.len() ==> well_formed_batch(#[trigger] batches@[b])
                    && batch_len(batches@[b]) == batch_size,
            forall|k: int| 0 <= k < cur@.len() ==> #[trigger] cur@[k].leaves@.len() > 0,
            forall|k: int|
                0 < k < cur@.len() ==> #[trigger] cur@[k].merkle_tree_pubkey
                    != cur@[k - 1].merkle_tree_pubkey,
            leaves_start > 0 ==> cur@.len() == 0,
            cur@.len() > 0 ==> ti > 0 && cur@.last().merkle_tree_pubkey == gv[ti - 1].0,
            ({
                let out = batches_pairs(batches@) + events_pairs(cur@);
                &&& forall|j: int| 0 <= j < ti ==> leaves_of(out, #[trigger] gv[j].0) == gv[j].1
                &&& ti < gv.len() ==> leaves_of(out, gv[ti as int].0) == gv[ti as int].1.take(
                    leaves_start as int,
                )
                &&& forall|j: int|
                    ti < j < gv.len() ==> leaves_of(out, #[trigger] gv[j].0) == Seq::<
                        [u8; 32],
                    >::empty()
                &&& forall|t: [u8; 32]|
                    !has_key(gv, t) ==> #[trigger] leaves_of(out, t) == Seq::<[u8; 32]>::empty()
                &&& trees_ascending(out)
                &&& ti < gv.len() ==> forall|i: int|
                    0 <= i < out.len() ==> !key_lt(gv[ti as int].0, #[trigger] out[i].0)
            }),
        decreases gv.len() - ti, gv[ti as int].1.len() - leaves_start,
    {
        let key = g[ti].0;
        let group = &g[ti].1;
        let remaining = group.len() - leaves_start;
        let room = batch_size - leaves_in_batch;
        let leaves_to_process = if remaining < room {
            remaining
        } else {
            room
        };
        let leaves_end = leaves_start + leaves_to_process;
        let mut event_leaves: Vec<[u8; 32]> = Vec::new();
        let mut j: usize = leaves_start;
        while j < leaves_end
            invariant
                leaves_start <= j <= leaves_end,
                leaves_end <= group@.len(),
                event_leaves@ == group@.subrange(leaves_start as int, j as int),
            decreases leaves_end - j,
        {
            event_leaves.push(group[j]);
            j = j + 1;
        }
        let event = ChangelogEvent { merkle_tree_pubkey: key, leaves: event_leaves };
        let ghost old_out = batches_pairs(batches@) + events_pairs(cur@);
        let ghost old_cur = cur@;
        let ghost old_ti = ti;
        let ghost old_start = leaves_start;
        cur.push(event);
        leaves_in_batch = leaves_in_batch + leaves_to_process;
        leaves_start = leaves_end;
        if leaves_start == group.len() {
            leaves_start = 0;
            ti = ti + 1;
        }
        proof {
            let run = run_of(key, event.leaves@);
            lemma_events_pairs_push(old_cur, event);
            let out = batches_pairs(batches@) + events_pairs(cur@);
            assert(out =~= old_out + run);
            let full = gv[old_ti as int].1;
            assert(key == gv[old_ti as int].0);
            assert(full == group@);
            assert forall|t: [u8; 32]| #[trigger]
                leaves_of(out, t) == leaves_of(old_out, t) + (if key == t {
                    event.leaves@
                } else {
                    Seq::<[u8; 32]>::empty()
                }) by {
                lemma_leaves_of_append(old_out, run, t);
                lemma_leaves_of_run(key, event.leaves@, t);
            };
            assert(full.take(old_start as int) + event.leaves@ =~= full.take(leaves_end as int));
            assert(full.take(full.len() as int) =~= full);
            assert forall|j: int| 0 <= j < gv.len() && j != old_ti implies #[trigger] gv[j].0
                != key by {
                if j < old_ti {
                    assert(key_lt(gv[j].0, gv[old_ti as int].0));
                } else {
                    assert(key_lt(gv[old_ti as int].0, gv[j].0));
                }
                lemma_key_lt_irreflexive(key);
            };
            assert forall|j: int| 0 <= j < ti implies leaves_of(out, #[trigger] gv[j].0)
                == gv[j].1 by {
                if j != old_ti {
                    assert(leaves_of(out, gv[j].0) == leaves_of(old_out, gv[j].0) + Seq::<
                        [u8; 32],
                    >::empty());
                    assert(leaves_of(old_out, gv[j].0) + Seq::<[u8; 32]>::empty() =~= leaves_of(
                        old_out,
                        gv[j].0,
                    ));
                }
            };
            if ti < gv.len() {
                if ti != old_ti {
                    assert(leaves_of(out, gv[ti as int].0) =~= leaves_of(old_out, gv[ti as int].0)
                        + Seq::<[u8; 32]>::empty());
                    assert(gv[ti as int].1.take(0) =~= Seq::<[u8; 32]>::empty());
                }
            }
            assert forall|j: int| ti < j < gv.len() implies leaves_of(out, #[trigger] gv[j].0)
                == Seq::<[u8; 32]>::empty() by {
                assert(leaves_of(out, gv[j].0) =~= leaves_of(old_out, gv[j].0) + Seq::<
                    [u8; 32],
                >::empty());
            };
            assert forall|t: [u8; 32]| !has_key(gv, t) implies #[trigger] leaves_of(out, t)
                == Seq::<[u8; 32]>::empty() by {
                assert(gv[old_ti as int].0 == key);
                assert(leaves_of(out, t) =~= leaves_of(old_out, t) + Seq::<[u8; 32]>::empty());
            };
            assert forall|a: int, b: int| 0 <= a < b < out.len() implies !key_lt(
                #[trigger] out[b].0,
                #[trigger] out[a].0,
            ) by {
                if b >= old_out.len() {
                    assert(out[b].0 == key);
                    if a >= old_out.len() {
                        assert(out[a].0 == key);
                        lemma_key_lt_irreflexive(key);
                    } else {
                        assert(out[a] == old_out[a]);
                    }
                } else {
                    assert(out[a] == old_out[a]);
                    assert(out[b] == old_out[b]);
                }
            };
            if ti < gv.len() {
                assert forall|i: int| 0 <= i < out.len() implies !key_lt(
                    gv[ti as int].0,
                    #[trigger] out[i].0,
                ) by {
                    let x = out[i].0;
                    if i >= old_out.len() {
                        assert(x == key);
                    } else {
                        assert(out[i] == old_out[i]);
                    }
                    if ti != old_ti {
                        assert(key_lt(key, gv[ti as int].0));
                        if key_lt(gv[ti as int].0, x) {
                            lemma_key_lt_transitive(key, gv[ti as int].0, x);
                            if x == key {
                                lemma_key_lt_irreflexive(key);
                            }
                        }
                    } else if x == key {
                        lemma_key_lt_irreflexive(key);
                    }
                };
            }
            if old_cur.len() > 0 {
                assert(old_cur.last().merkle_tree_pubkey == gv[old_ti - 1].0);
                assert(key_lt(gv[old_ti - 1].0, key));
                lemma_key_lt_irreflexive(key);
            }
            assert(cur@[cur@.len() - 1] == event);
            assert(events_pairs(cur@).len() == leaves_in_batch);
        }
        if leaves_in_batch == batch_size {
            let ghost sealed = Changelogs { changelogs: cur };
            let ghost before = batches@;
            batches.push(Changelogs { changelogs: cur });
            cur = Vec::new();
            leaves_in_batch = 0;
            proof {
                lemma_batches_pairs_push(before, sealed);
                assert(events_pairs(cur@) =~= Seq::empty());
                assert(batches_pairs(batches@) + events_pairs(cur@) =~= batches_pairs(before)
                    + batch_pairs(sealed));
                assert(batches@[batches@.len() - 1] == sealed);
            }
        }
    }
    if leaves_in_batch > 0 {
        let ghost sealed = Changelogs { changelogs: cur };
        let ghost before = batches@;
        batches.push(Changelogs { changelogs: cur });
        proof {
            lemma_batches_pairs_push(before, sealed);
            assert(batches@[batches@.len() - 1] == sealed);
        }
    } else {
        proof {
            assert(events_pairs(cur@) =~= Seq::empty());
            assert(batches_pairs(batches@) + events_pairs(cur@) =~= batches_pairs(batches@));
        }
    }
    proof {
        let out = batches_pairs(batches@);
        assert forall|t: [u8; 32]| #[trigger] leaves_of(out, t) == leaves_of(s, t) by {
            if has_key(gv, t) {
                let j = choose|j: int| 0 <= j < gv.len() && (#[trigger] gv[j]).0 == t;
                assert(leaves_of(out, gv[j].0) == gv[j].1);
            } else {
                assert forall|k: int| 0 <= k < s.len() implies s[k].0 != t by {
                    assert(has_key(gv, s[k].0));
                };
                lemma_leaves_of_absent(s, t);
            }
        };
        lemma_same_leaves_same_multiset(out, s);
        lemma_map_keeps_multiset(out, s, |p: ([u8; 32], [u8; 32])| p.1);
        assert(s.map_values(|p: ([u8; 32], [u8; 32])| p.1) =~= leaves@);
    }
    Ok(batches)
}

} // verus!
