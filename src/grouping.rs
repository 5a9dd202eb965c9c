//! Grouping of the input leaves by the tree they are destined for.
use vstd::prelude::*;

use crate::key_order::{compare_keys, key_lt, lemma_key_lt_transitive};
use crate::stream::{assignments, leaves_of, lemma_leaves_of_absent, lemma_leaves_of_push};
use crate::types::MyError;

verus! {

/// A grouping as plain values: each tree with the leaves it receives.
pub open spec fn groups_view(g: Seq<([u8; 32], Vec<[u8; 32]>)>) -> Seq<([u8; 32], Seq<[u8; 32]>)> {
    g.map_values(|e: ([u8; 32], Vec<[u8; 32]>)| (e.0, e.1@))
}

/// `t` is one of the trees of the grouping.
pub open spec fn has_key(g: Seq<([u8; 32], Seq<[u8; 32]>)>, t: [u8; 32]) -> bool {
    exists|j: int| 0 <= j < g.len() && (#[trigger] g[j]).0 == t
}

/// The trees of the grouping are in strictly ascending order.
pub open spec fn keys_ascending(g: Seq<([u8; 32], Seq<[u8; 32]>)>) -> bool {
    forall|i: int, j: int| 0 <= i < j < g.len() ==> key_lt(#[trigger] g[i].0, #[trigger] g[j].0)
}

/// `g` is the grouping of the stream `s`: one entry for each tree that
/// occurs in `s`, in ascending tree order, holding the leaves that tree
/// receives in stream order.
pub open spec fn is_grouping_of(
    g: Seq<([u8; 32], Seq<[u8; 32]>)>,
    s: Seq<([u8; 32], [u8; 32])>,
) -> bool {
    &&& keys_ascending(g)
    &&& forall|j: int|
        0 <= j < g.len() ==> (#[trigger] g[j]).1 == leaves_of(s, g[j].0) && g[j].1.len() > 0
    &&& forall|k: int| 0 <= k < s.len() ==> has_key(g, #[trigger] s[k].0)
}

/// Groups `leaves` by their tree (`leaves[i]` goes to `merkle_trees[i]`),
/// keeping the order of the input within each tree; the trees come in
/// ascending order.
pub fn build_merkle_tree_map(leaves: &Vec<[u8; 32]>, merkle_trees: &Vec<[u8; 32]>) -> (r: Result<
    Vec<([u8; 32], Vec<[u8; 32]>)>,
    MyError,
>)
    ensures
        r is Err <==> leaves@.len() != merkle_trees@.len(),
        r is Err ==> r == Err::<Vec<([u8; 32], Vec<[u8; 32]>)>, MyError>(
            MyError::LeavesTreesNotEqual(leaves@.len() as usize, merkle_trees@.len() as usize),
        ),
        r matches Ok(g) ==> is_grouping_of(groups_view(g@), assignments(leaves@, merkle_trees@)),
{
    if leaves.len() != merkle_trees.len() {
        return Err(MyError::LeavesTreesNotEqual(leaves.len(), merkle_trees.len()));
    }
    let ghost s = assignments(leaves@, merkle_trees@);
    let mut g: Vec<([u8; 32], Vec<[u8; 32]>)> = Vec::new();
    let mut i: usize = 0;
    while i < merkle_trees.len()
        invariant
            i <= merkle_trees@.len(),
            leaves@.len() == merkle_trees@.len(),
            s == assignments(leaves@, merkle_trees@),
            is_grouping_of(groups_view(g@), s.take(i as int)),
        decreases merkle_trees@.len() - i,
    {
        let tree = merkle_trees[i];
        let leaf = leaves[i];
        let ghost gv = groups_view(g@);
        let ghost prefix = s.take(i as int);
        proof {
            assert(s.take(i as int + 1) =~= prefix.push((tree, leaf)));
        }
        // Find the first entry whose tree is not below `tree`.
        let mut p: usize = 0;
        let mut found = false;
        while p < g.len()
            invariant_except_break
                !found,
            invariant
                p <= g@.len(),
                gv == groups_view(g@),
                forall|q: int| 0 <= q < p ==> key_lt(#[trigger] gv[q].0, tree),
            ensures
                p <= g@.len(),
                forall|q: int| 0 <= q < p ==> key_lt(#[trigger] gv[q].0, tree),
                found ==> p < g@.len() && gv[p as int].0 == tree,
                !found ==> p == g@.len() || key_lt(tree, gv[p as int].0),
            decreases g@.len() - p,
        {
            match compare_keys(&g[p].0, &tree) {
                core::cmp::Ordering::Less => {
                    p = p + 1;
                },
                core::cmp::Ordering::Equal => {
                    found = true;
                    break ;
                },
                core::cmp::Ordering::Greater => {
                    break ;
                },
            }
        }
        if found {
            let mut entry = g.remove(p);
            entry.1.push(leaf);
            g.insert(p, entry);
            proof {
                let ng = groups_view(g@);
                assert(ng =~= gv.update(p as int, (tree, gv[p as int].1.push(leaf))));
                assert forall|j: int| 0 <= j < ng.len() implies (#[trigger] ng[j]).1 == leaves_of(
                    s.take(i as int + 1),
                    ng[j].0,
                ) && ng[j].1.len() > 0 by {
                    lemma_leaves_of_push(prefix, (tree, leaf), ng[j].0);
                    if j != p {
                        if j < p {
                            assert(key_lt(gv[j].0, gv[p as int].0));
                        } else {
                            assert(key_lt(gv[p as int].0, gv[j].0));
                        }
                        crate::key_order::lemma_key_lt_irreflexive(tree);
                    }
                };
                assert forall|k: int| 0 <= k < s.take(i as int + 1).len() implies has_key(
                    ng,
                    #[trigger] s.take(i as int + 1)[k].0,
                ) by {
                    if k < i {
                        assert(s.take(i as int + 1)[k] == prefix[k]);
                        let j = choose|j: int| 0 <= j < gv.len() && (#[trigger] gv[j]).0 == prefix[k].0;
                        assert(ng[j].0 == gv[j].0);
                    } else {
                        assert(ng[p as int].0 == tree);
                    }
                };
            }
        } else {
            let mut fresh: Vec<[u8; 32]> = Vec::new();
            fresh.push(leaf);
            g.insert(p, (tree, fresh));
            proof {
                let ng = groups_view(g@);
                assert(ng =~= gv.insert(p as int, (tree, seq![leaf])));
                assert forall|k: int| 0 <= k < prefix.len() implies prefix[k].0 != tree by {
                    let j = choose|j: int| 0 <= j < gv.len() && (#[trigger] gv[j]).0 == prefix[k].0;
                    if j < p {
                        crate::key_order::lemma_key_lt_irreflexive(tree);
                    } else {
                        if j > p {
                            lemma_key_lt_transitive(tree, gv[p as int].0, gv[j].0);
                        }
                        crate::key_order::lemma_key_lt_irreflexive(tree);
                    }
                };
                lemma_leaves_of_absent(prefix, tree);
                assert forall|a: int, b: int| 0 <= a < b < ng.len() implies key_lt(
                    #[trigger] ng[a].0,
                    #[trigger] ng[b].0,
                ) by {
                    if a < p && b > p {
                        assert(key_lt(gv[a].0, tree));
                        if b - 1 > p {
                            lemma_key_lt_transitive(tree, gv[p as int].0, gv[b - 1].0);
                        }
                        lemma_key_lt_transitive(gv[a].0, tree, gv[b - 1].0);
                    } else if a == p && b - 1 > p {
                        lemma_key_lt_transitive(tree, gv[p as int].0, gv[b - 1].0);
                    }
                };
                assert forall|j: int| 0 <= j < ng.len() implies (#[trigger] ng[j]).1 == leaves_of(
                    s.take(i as int + 1),
                    ng[j].0,
                ) && ng[j].1.len() > 0 by {
                    lemma_leaves_of_push(prefix, (tree, leaf), ng[j].0);
                    if j == p {
                        assert(seq![leaf] =~= Seq::<[u8; 32]>::empty().push(leaf));
                    } else {
                        let oj = if j < p { j } else { j - 1 };
                        assert(ng[j] == gv[oj]);
                        if oj < p {
                            assert(key_lt(gv[oj].0, tree));
                        } else {
                            assert(key_lt(tree, gv[p as int].0));
                            if oj > p {
                                lemma_key_lt_transitive(tree, gv[p as int].0, gv[oj].0);
                            }
                        }
                        crate::key_order::lemma_key_lt_irreflexive(tree);
                    }
                };
                assert forall|k: int| 0 <= k < s.take(i as int + 1).len() implies has_key(
                    ng,
                    #[trigger] s.take(i as int + 1)[k].0,
                ) by {
                    if k < i {
                        assert(s.take(i as int + 1)[k] == prefix[k]);
                        let j = choose|j: int| 0 <= j < gv.len() && (#[trigger] gv[j]).0 == prefix[k].0;
                        if j < p {
                            assert(ng[j].0 == gv[j].0);
                        } else {
                            assert(ng[j + 1].0 == gv[j].0);
                        }
                    } else {
                        assert(ng[p as int].0 == tree);
                    }
                };
            }
        }
        i = i + 1;
    }
    proof {
        assert(s.take(i as int) =~= s);
    }
    Ok(g)
}

} // verus!
