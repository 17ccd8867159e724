//! The light tree: a binary tree over the lights, built recursively, whose
//! levels are collapsed, `ARITY_LOG2` at a time, into the nodes of the
//! final tree.  What needs the geometry and energy of the lights (where a
//! range of lights is split, their bounds and energies and how two
//! children's combine) is handed in by the caller as closures.
use vstd::prelude::*;
use vstd::arithmetic::power2::{pow2, lemma_pow2_unfold, lemma_pow2_pos, lemma2_to64};
use vstd::slice::slice_subrange;
use crate::accel::bvh_base::{clamped_split, max_int, merge_answer};

verus! {

/// How many binary levels make one level of the final tree.
pub const ARITY_LOG2: usize = 3;

/// The arity of the final tree.
pub const ARITY: usize = 8;

/// A node of the binary tree.  The first child of an internal node is the
/// node right after it; `child_index` is its second child, or for a leaf,
/// the index of its light.  `energy` is the light's energy, or the sum of
/// the children's.
#[derive(Debug)]
pub struct BuilderNode<E> {
    pub is_leaf: bool,
    pub bounds_range: (usize, usize),
    pub energy: E,
    pub child_index: usize,
}

/// Every internal node's children lie in the list.
pub open spec fn nodes_wf<E>(nodes: Seq<BuilderNode<E>>) -> bool {
    forall|i: int|
        0 <= i < nodes.len() && !(#[trigger] nodes[i]).is_leaf ==> i + 1 < nodes.len()
            && nodes[i].child_index < nodes.len()
}

/// The nodes that stand for the children of node `idx` once `level` binary
/// levels below it are collapsed, in order: the node itself where nothing
/// is collapsed or it is a leaf, else those of its first child followed by
/// those of its second.
pub open spec fn frontier<E>(nodes: Seq<BuilderNode<E>>, level: nat, idx: int) -> Seq<int>
    decreases level,
{
    if level > 0 && 0 <= idx < nodes.len() && !nodes[idx].is_leaf {
        frontier(nodes, (level - 1) as nat, idx + 1) + frontier(
            nodes,
            (level - 1) as nat,
            nodes[idx].child_index as int,
        )
    } else {
        seq![idx]
    }
}

/// Collapsing `level` binary levels gives at least one and at most
/// `2^level` children, each a node of the list.
pub proof fn lemma_frontier<E>(nodes: Seq<BuilderNode<E>>, level: nat, idx: int)
    requires
        nodes_wf(nodes),
        0 <= idx < nodes.len(),
    ensures
        1 <= frontier(nodes, level, idx).len() <= pow2(level),
        forall|k: int|
            0 <= k < frontier(nodes, level, idx).len() ==> 0 <= #[trigger] frontier(
                nodes,
                level,
                idx,
            )[k] < nodes.len(),
    decreases level,
{
    lemma_pow2_pos(level);
    if level > 0 && !nodes[idx].is_leaf {
        let l = (level - 1) as nat;
        let c = nodes[idx].child_index as int;
        lemma_frontier(nodes, l, idx + 1);
        lemma_frontier(nodes, l, c);
        lemma_pow2_unfold(level);
        let a = frontier(nodes, l, idx + 1);
        let b = frontier(nodes, l, c);
        assert forall|k: int| 0 <= k < (a + b).len() implies 0 <= #[trigger] (a + b)[k]
            < nodes.len() by {
            if k < a.len() {
                assert((a + b)[k] == a[k]);
            } else {
                assert((a + b)[k] == b[k - a.len()]);
            }
        }
    }
}

/// The number of children of node `node_index` once `level_collapse`
/// binary levels are collapsed.
pub fn node_child_count_recurse<E>(nodes: &[BuilderNode<E>], level_collapse: usize, node_index: usize) -> (r:
    usize)
    requires
        nodes_wf(nodes@),
        node_index < nodes@.len(),
        frontier(nodes@, level_collapse as nat, node_index as int).len() <= usize::MAX,
    ensures
        r == frontier(nodes@, level_collapse as nat, node_index as int).len(),
    decreases level_collapse,
{
    proof {
        lemma_frontier(nodes@, level_collapse as nat, node_index as int);
    }
    if level_collapse > 0 {
        if nodes[node_index].is_leaf {
            1
        } else {
            let a = node_child_count_recurse(nodes, level_collapse - 1, node_index + 1);
            let b = node_child_count_recurse(
                nodes,
                level_collapse - 1,
                nodes[node_index].child_index,
            );
            a + b
        }
    } else {
        1
    }
}

/// The `child_n`th child of node `node_index` once `level_collapse` binary
/// levels are collapsed, with zero; where there are not that many, the last
/// child, with how far `child_n` lies past the end, plus one.
pub fn node_nth_child_index_recurse<E>(
    nodes: &[BuilderNode<E>],
    level_collapse: usize,
    node_index: usize,
    child_n: usize,
) -> (r: (usize, usize))
    requires
        nodes_wf(nodes@),
        node_index < nodes@.len(),
    ensures
        ({
            let f = frontier(nodes@, level_collapse as nat, node_index as int);
            if child_n < f.len() {
                r.0 == f[child_n as int] && r.1 == 0
            } else {
                r.0 == f.last() && r.1 == child_n - f.len() + 1
            }
        }),
    decreases level_collapse,
{
    proof {
        lemma_frontier(nodes@, level_collapse as nat, node_index as int);
    }
    if level_collapse > 0 && !nodes[node_index].is_leaf {
        proof {
            lemma_frontier(nodes@, (level_collapse - 1) as nat, node_index + 1);
            lemma_frontier(
                nodes@,
                (level_collapse - 1) as nat,
                nodes@[node_index as int].child_index as int,
            );
        }
        let (index, rem) = node_nth_child_index_recurse(
            nodes,
            level_collapse - 1,
            node_index + 1,
            child_n,
        );
        if rem == 0 {
            return (index, 0);
        }
        return node_nth_child_index_recurse(
            nodes,
            level_collapse - 1,
            nodes[node_index].child_index,
            rem - 1,
        );
    } else {
        return (node_index, child_n);
    }
}

/// The number of children of node `node_index` in the final tree.
pub fn node_child_count<E>(nodes: &[BuilderNode<E>], node_index: usize) -> (r: usize)
    requires
        nodes_wf(nodes@),
        node_index < nodes@.len(),
    ensures
        r == frontier(nodes@, ARITY_LOG2 as nat, node_index as int).len(),
        1 <= r <= ARITY,
{
    proof {
        lemma_frontier(nodes@, ARITY_LOG2 as nat, node_index as int);
        lemma2_to64();
    }
    node_child_count_recurse(nodes, ARITY_LOG2, node_index)
}

/// The index of the `child_n`th child of node `node_index` in the final
/// tree.
pub fn node_nth_child_index<E>(nodes: &[BuilderNode<E>], node_index: usize, child_n: usize) -> (r: usize)
    requires
        nodes_wf(nodes@),
        node_index < nodes@.len(),
    ensures
        child_n < frontier(nodes@, ARITY_LOG2 as nat, node_index as int).len() ==> r == frontier(
            nodes@,
            ARITY_LOG2 as nat,
            node_index as int,
        )[child_n as int],
        r < nodes@.len(),
{
    proof {
        lemma_frontier(nodes@, ARITY_LOG2 as nat, node_index as int);
    }
    node_nth_child_index_recurse(nodes, ARITY_LOG2, node_index, child_n).0
}

/// The binary light tree while it is built: its nodes in pre-order, the
/// bounds that their bounds ranges index, and the depth of its deepest
/// leaf.
#[derive(Debug)]
pub struct LightTreeBuilder<B, E> {
    pub nodes: Vec<BuilderNode<E>>,
    pub bounds: Vec<B>,
    pub depth: usize,
}

/// The shape of the subtree at node `i`, laid out as the build lays it
/// out over the lights from `offset` on: its number of lights, of nodes,
/// and its depth.  `None` where the nodes are not laid out that way: a
/// leaf holds the next light, and an internal node is followed by its
/// first subtree and then its second, which `child_index` points at.
pub open spec fn light_shape<E>(nodes: Seq<BuilderNode<E>>, i: int, offset: int) -> Option<
    (int, int, int),
>
    decreases nodes.len() - i,
{
    if 0 <= i < nodes.len() {
        if nodes[i].is_leaf {
            if nodes[i].child_index == offset {
                Some((1, 1, 0))
            } else {
                None
            }
        } else {
            let c2 = nodes[i].child_index as int;
            if i < c2 < nodes.len() {
                match light_shape(nodes, i + 1, offset) {
                    Some((k1, n1, d1)) => {
                        if c2 == i + 1 + n1 {
                            match light_shape(nodes, c2, offset + k1) {
                                Some((k2, n2, d2)) => Some(
                                    (k1 + k2, 1 + n1 + n2, 1 + max_int(d1, d2)),
                                ),
                                None => None,
                            }
                        } else {
                            None
                        }
                    },
                    None => None,
                }
            } else {
                None
            }
        }
    } else {
        None
    }
}

/// Node `j` points only at later nodes, and its bounds range lies within
/// the first `bounds_len` bounds.
pub open spec fn light_node_wf<E>(nodes: Seq<BuilderNode<E>>, j: int, bounds_len: int) -> bool {
    &&& nodes[j].bounds_range.0 <= nodes[j].bounds_range.1 <= bounds_len
    &&& !nodes[j].is_leaf ==> j + 1 < nodes.len() && j < nodes[j].child_index < nodes.len()
}

/// Every node from `start` on is well formed.
pub open spec fn light_wf_from<E>(nodes: Seq<BuilderNode<E>>, start: int, bounds_len: int) -> bool {
    forall|j: int| start <= j < nodes.len() ==> #[trigger] light_node_wf(nodes, j, bounds_len)
}

/// Where nodes `s` and `t` agree from `i` on, a subtree laid out in `s` is
/// laid out the same way in `t`.
pub proof fn lemma_light_shape_stable<E>(
    s: Seq<BuilderNode<E>>,
    t: Seq<BuilderNode<E>>,
    i: int,
    offset: int,
)
    requires
        s.len() <= t.len(),
        forall|j: int| i <= j < s.len() ==> t[j] == s[j],
        light_shape(s, i, offset) is Some,
    ensures
        light_shape(t, i, offset) == light_shape(s, i, offset),
    decreases s.len() - i,
{
    if !s[i].is_leaf {
        let c2 = s[i].child_index as int;
        assert(i < c2 < s.len());
        lemma_light_shape_stable(s, t, i + 1, offset);
        let k1 = light_shape(s, i + 1, offset).unwrap().0;
        lemma_light_shape_stable(s, t, c2, offset + k1);
    }
}

/// `split` may answer, for the `len` lights from `offset` on, a split index
/// that clamps to `k`.
pub open spec fn light_split_answer<S: Fn(usize, usize) -> usize>(
    split: S,
    offset: int,
    len: int,
    k: int,
) -> bool {
    exists|raw: usize|
        #[trigger] split.ensures((offset as usize, len as usize), raw) && clamped_split(
            raw as int,
            len,
        ) == k
}

/// `info` may answer the bounds `got` and the energy `energy` for light
/// `index`.
pub open spec fn info_answer<B, E, I: Fn(usize) -> (Vec<B>, E)>(
    info: I,
    index: int,
    got: Seq<B>,
    energy: E,
) -> bool {
    exists|v: Vec<B>, e: E| #[trigger] info.ensures((index as usize,), (v, e)) && v@ == got && e == energy
}

/// `combine` may answer `sum` for the energies `a` and `b`.
pub open spec fn add_answer<E, A: Fn(&E, &E) -> E>(combine: A, a: E, b: E, sum: E) -> bool {
    combine.ensures((&a, &b), sum)
}

/// The subtree at node `i`, over the lights from `offset` on, holds what
/// the closures answered: each leaf the bounds and energy `info` gave for
/// its light, each internal node the split `split` chose, the bounds
/// `merge_bounds` gave for its children's and the sum `combine` gave for their
/// energies.
pub open spec fn light_decided_by<B, E, S, I, M, A>(
    nodes: Seq<BuilderNode<E>>,
    bounds: Seq<B>,
    i: int,
    offset: int,
    split: S,
    info: I,
    merge_bounds: M,
    combine: A,
) -> bool where
    S: Fn(usize, usize) -> usize,
    I: Fn(usize) -> (Vec<B>, E),
    M: Fn(&[B], &[B]) -> Vec<B>,
    A: Fn(&E, &E) -> E,

    decreases nodes.len() - i,
{
    if 0 <= i < nodes.len() {
        let n = nodes[i];
        let own = bounds.subrange(n.bounds_range.0 as int, n.bounds_range.1 as int);
        &&& n.bounds_range.0 <= n.bounds_range.1 <= bounds.len()
        &&& if n.is_leaf {
            info_answer(info, offset, own, n.energy)
        } else {
            let c2 = n.child_index as int;
            if i < c2 < nodes.len() {
                match light_shape(nodes, i + 1, offset) {
                    Some((k1, n1, d1)) => match light_shape(nodes, c2, offset + k1) {
                        Some((k2, n2, d2)) => {
                            let b1 = nodes[i + 1].bounds_range;
                            let b2 = nodes[c2].bounds_range;
                            &&& light_split_answer(split, offset, k1 + k2, k1)
                            &&& b1.0 <= b1.1 <= bounds.len()
                            &&& b2.0 <= b2.1 <= bounds.len()
                            &&& merge_answer(
                                merge_bounds,
                                bounds.subrange(b1.0 as int, b1.1 as int),
                                bounds.subrange(b2.0 as int, b2.1 as int),
                                own,
                            )
                            &&& add_answer(combine, nodes[i + 1].energy, nodes[c2].energy, n.energy)
                            &&& light_decided_by(
                                nodes,
                                bounds,
                                i + 1,
                                offset,
                                split,
                                info,
                                merge_bounds,
                                combine,
                            )
                            &&& light_decided_by(
                                nodes,
                                bounds,
                                c2,
                                offset + k1,
                                split,
                                info,
                                merge_bounds,
                                combine,
                            )
                        },
                        None => false,
                    },
                    None => false,
                }
            } else {
                false
            }
        }
    } else {
        false
    }
}

/// Where nodes agree from `i` on and bounds only grow, what a subtree's
/// nodes hold stays what the closures answered.
pub proof fn lemma_light_decided_stable<B, E, S, I, M, A>(
    sn: Seq<BuilderNode<E>>,
    tn: Seq<BuilderNode<E>>,
    sb: Seq<B>,
    tb: Seq<B>,
    i: int,
    offset: int,
    split: S,
    info: I,
    merge_bounds: M,
    combine: A,
) where
    S: Fn(usize, usize) -> usize,
    I: Fn(usize) -> (Vec<B>, E),
    M: Fn(&[B], &[B]) -> Vec<B>,
    A: Fn(&E, &E) -> E,

    requires
        sn.len() <= tn.len(),
        forall|j: int| i <= j < sn.len() ==> tn[j] == sn[j],
        sb.len() <= tb.len(),
        forall|j: int| 0 <= j < sb.len() ==> tb[j] == sb[j],
        light_decided_by(sn, sb, i, offset, split, info, merge_bounds, combine),
    ensures
        light_decided_by(tn, tb, i, offset, split, info, merge_bounds, combine),
    decreases sn.len() - i,
{
    let br = sn[i].bounds_range;
    assert(tb.subrange(br.0 as int, br.1 as int) =~= sb.subrange(br.0 as int, br.1 as int));
    if !sn[i].is_leaf {
        let c2 = sn[i].child_index as int;
        assert(i < c2 < sn.len());
        let k1 = light_shape(sn, i + 1, offset).unwrap().0;
        lemma_light_shape_stable(sn, tn, i + 1, offset);
        lemma_light_shape_stable(sn, tn, c2, offset + k1);
        let b1 = sn[i + 1].bounds_range;
        let b2 = sn[c2].bounds_range;
        assert(tb.subrange(b1.0 as int, b1.1 as int) =~= sb.subrange(b1.0 as int, b1.1 as int));
        assert(tb.subrange(b2.0 as int, b2.1 as int) =~= sb.subrange(b2.0 as int, b2.1 as int));
        lemma_light_decided_stable(sn, tn, sb, tb, i + 1, offset, split, info, merge_bounds, combine);
        lemma_light_decided_stable(sn, tn, sb, tb, c2, offset + k1, split, info, merge_bounds, combine);
    }
}

impl<B, E: Copy> LightTreeBuilder<B, E> {
    fn new() -> (r: LightTreeBuilder<B, E>)
        ensures
            r.nodes@.len() == 0,
            r.bounds@.len() == 0,
            r.depth == 0,
    {
        LightTreeBuilder { nodes: Vec::new(), bounds: Vec::new(), depth: 0 }
    }

    /// The index of the root node.
    pub fn root_node_index(&self) -> (r: usize)
        ensures
            r == 0,
    {
        0
    }

    /// Builds the subtree over the `len` lights from `offset` on, at
    /// `depth`, and returns its root's index and bounds range; `(0, (0, 0))`
    /// and nothing built for no lights.  An internal node holds `zero` as
    /// its energy until its children are built.
    #[verifier::rlimit(60)]
    fn recursive_build<S, I, M, A>(
        &mut self,
        offset: usize,
        depth: usize,
        len: usize,
        object_count: usize,
        zero: E,
        split: &S,
        info: &I,
        merge_bounds: &M,
        combine: &A,
    ) -> (r: (usize, (usize, usize))) where
        S: Fn(usize, usize) -> usize,
        I: Fn(usize) -> (Vec<B>, E),
        M: Fn(&[B], &[B]) -> Vec<B>,
        A: Fn(&E, &E) -> E,

        requires
            offset + len <= object_count,
            depth + len < usize::MAX,
            forall|o: usize, l: usize| #[trigger] split.requires((o, l)),
            forall|o: usize| #[trigger] info.requires((o,)),
            forall|a: &[B], b: &[B]| #[trigger] merge_bounds.requires((a, b)),
            forall|a: &E, b: &E| #[trigger] combine.requires((a, b)),
        ensures
            final(self).nodes@.len() >= old(self).nodes@.len(),
            final(self).nodes@.take(old(self).nodes@.len() as int) == old(self).nodes@,
            final(self).bounds@.len() >= old(self).bounds@.len(),
            final(self).bounds@.take(old(self).bounds@.len() as int) == old(self).bounds@,
            len == 0 ==> r == (0usize, (0usize, 0usize)) && final(self).nodes@ == old(self).nodes@
                && final(self).depth == old(self).depth,
            len > 0 ==> {
                let sh = light_shape(final(self).nodes@, r.0 as int, offset as int);
                &&& r.0 == old(self).nodes@.len()
                &&& old(self).bounds@.len() <= r.1.0 <= r.1.1
                &&& r.1.1 == final(self).bounds@.len()
                &&& sh is Some
                &&& sh.unwrap().0 == len
                &&& sh.unwrap().2 >= 0
                &&& final(self).nodes@.len() == old(self).nodes@.len() + sh.unwrap().1
                &&& final(self).depth == max_int(old(self).depth as int, depth + sh.unwrap().2)
                &&& r.1 == final(self).nodes@[r.0 as int].bounds_range
                &&& light_wf_from(
                    final(self).nodes@,
                    old(self).nodes@.len() as int,
                    final(self).bounds@.len() as int,
                )
                &&& light_decided_by(
                    final(self).nodes@,
                    final(self).bounds@,
                    r.0 as int,
                    offset as int,
                    *split,
                    *info,
                    *merge_bounds,
                    *combine,
                )
            },
        decreases len,
    {
        let me = self.nodes.len();
        if len == 0 {
            return (0, (0, 0));
        } else if len == 1 {
            let bi = self.bounds.len();
            let answer = info(offset);
            let ghost answered = answer;
            let (mut light_bounds, energy) = answer;
            self.bounds.append(&mut light_bounds);
            let be = self.bounds.len();
            self.nodes.push(
                BuilderNode { is_leaf: true, bounds_range: (bi, be), energy, child_index: offset },
            );
            if self.depth < depth {
                self.depth = depth;
            }
            proof {
                assert(self.nodes@.take(me as int) =~= old(self).nodes@);
                assert(self.bounds@.take(bi as int) =~= old(self).bounds@);
                assert(light_node_wf(self.nodes@, me as int, be as int));
                assert(self.bounds@.subrange(bi as int, be as int) =~= answered.0@);
                assert(info.ensures(((offset as int) as usize,), answered));
                assert(info_answer(
                    *info,
                    offset as int,
                    self.bounds@.subrange(bi as int, be as int),
                    energy,
                ));
            }
            return (me, (bi, be));
        } else {
            self.nodes.push(
                BuilderNode { is_leaf: false, bounds_range: (0, 0), energy: zero, child_index: 0 },
            );
            let raw_index = split(offset, len);
            let split_index = if raw_index < 1 {
                1
            } else if raw_index >= len {
                len - 1
            } else {
                raw_index
            };
            let ghost s0 = self.nodes@;
            let ghost b0 = self.bounds@;
            let (c1_index, c1_bounds) = self.recursive_build(
                offset,
                depth + 1,
                split_index,
                object_count,
                zero,
                split,
                info,
                merge_bounds,
                combine,
            );
            let ghost s1 = self.nodes@;
            let ghost b1 = self.bounds@;
            let (c2_index, c2_bounds) = self.recursive_build(
                offset + split_index,
                depth + 1,
                len - split_index,
                object_count,
                zero,
                split,
                info,
                merge_bounds,
                combine,
            );
            let ghost s2 = self.nodes@;
            let ghost b2 = self.bounds@;
            proof {
                assert(s1[c1_index as int] == s2[c1_index as int]) by {
                    assert(s2.take(s1.len() as int)[c1_index as int] == s2[c1_index as int]);
                }
                assert(light_node_wf(s1, c1_index as int, b1.len() as int));
                assert(light_node_wf(s2, c2_index as int, b2.len() as int));
            }
            let bi = self.bounds.len();
            let mut merged = {
                let all = self.bounds.as_slice();
                let a = slice_subrange(all, c1_bounds.0, c1_bounds.1);
                let b = slice_subrange(all, c2_bounds.0, c2_bounds.1);
                let v = merge_bounds(a, b);
                proof {
                    assert(merge_answer(
                        *merge_bounds,
                        b2.subrange(c1_bounds.0 as int, c1_bounds.1 as int),
                        b2.subrange(c2_bounds.0 as int, c2_bounds.1 as int),
                        v@,
                    ));
                }
                v
            };
            let ghost merged_bounds = merged@;
            self.bounds.append(&mut merged);
            let be = self.bounds.len();
            let energy = combine(&self.nodes[me + 1].energy, &self.nodes[c2_index].energy);
            self.nodes.set(
                me,
                BuilderNode { is_leaf: false, bounds_range: (bi, be), energy, child_index: c2_index },
            );
            proof {
                let s3 = self.nodes@;
                let b3 = self.bounds@;
                let sh1 = light_shape(s1, c1_index as int, offset as int).unwrap();
                let sh2 = light_shape(s2, c2_index as int, offset + split_index).unwrap();
                assert forall|j: int| c1_index <= j < s1.len() implies s3[j] == s1[j] by {
                    assert(s2.take(s1.len() as int)[j] == s2[j]);
                }
                lemma_light_shape_stable(s1, s3, c1_index as int, offset as int);
                lemma_light_shape_stable(s2, s3, c2_index as int, offset + split_index);
                assert forall|j: int| 0 <= j < b1.len() implies b3[j] == b1[j] by {
                    assert(b2.take(b1.len() as int)[j] == b2[j]);
                }
                assert forall|j: int| 0 <= j < b2.len() implies b3[j] == b2[j] by {}
                lemma_light_decided_stable(
                    s1,
                    s3,
                    b1,
                    b3,
                    c1_index as int,
                    offset as int,
                    *split,
                    *info,
                    *merge_bounds,
                    *combine,
                );
                lemma_light_decided_stable(
                    s2,
                    s3,
                    b2,
                    b3,
                    c2_index as int,
                    offset + split_index,
                    *split,
                    *info,
                    *merge_bounds,
                    *combine,
                );
                assert(b3.subrange(c1_bounds.0 as int, c1_bounds.1 as int) =~= b2.subrange(
                    c1_bounds.0 as int,
                    c1_bounds.1 as int,
                ));
                assert(b3.subrange(c2_bounds.0 as int, c2_bounds.1 as int) =~= b2.subrange(
                    c2_bounds.0 as int,
                    c2_bounds.1 as int,
                ));
                assert(b3.subrange(bi as int, be as int) =~= merged_bounds);
                assert(split.ensures(((offset as int) as usize, (len as int) as usize), raw_index));
                assert(light_split_answer(*split, offset as int, len as int, split_index as int));
                assert(s3[me + 1] == s2[me + 1]);
                assert(add_answer(*combine, s3[me + 1].energy, s3[c2_index as int].energy, energy));
                assert(light_shape(s3, me as int, offset as int) == Some(
                    (len as int, 1 + sh1.1 + sh2.1, 1 + max_int(sh1.2, sh2.2)),
                ));
                assert(self.nodes@.take(me as int) =~= old(self).nodes@) by {
                    assert forall|j: int| 0 <= j < me implies s3[j] == old(self).nodes@[j] by {
                        assert(s0[j] == old(self).nodes@[j]);
                        assert(s1.take(s0.len() as int)[j] == s1[j]);
                        assert(s2.take(s1.len() as int)[j] == s2[j]);
                    }
                }
                assert(self.bounds@.take(old(self).bounds@.len() as int) =~= old(self).bounds@) by {
                    assert forall|j: int| 0 <= j < old(self).bounds@.len() implies self.bounds@[j]
                        == old(self).bounds@[j] by {
                        assert(b1.take(b0.len() as int)[j] == b1[j]);
                    }
                }
                assert forall|j: int| me <= j < s3.len() implies #[trigger] light_node_wf(
                    s3,
                    j,
                    be as int,
                ) by {
                    if j == me {
                    } else if j < s1.len() {
                        assert(light_node_wf(s1, j, b1.len() as int));
                        assert(s2.take(s1.len() as int)[j] == s2[j]);
                    } else {
                        assert(light_node_wf(s2, j, b2.len() as int));
                    }
                }
            }
            return (me, (bi, be));
        }
    }
}

/// The nodes that collapsing levels below a node of a well-formed tree
/// gives are that node or come after it; after it, where it is internal
/// and a level is collapsed.
pub proof fn lemma_frontier_after<E>(nodes: Seq<BuilderNode<E>>, level: nat, idx: int, bounds_len: int)
    requires
        light_wf_from(nodes, 0, bounds_len),
        0 <= idx < nodes.len(),
    ensures
        forall|k: int|
            0 <= k < frontier(nodes, level, idx).len() ==> idx <= #[trigger] frontier(
                nodes,
                level,
                idx,
            )[k] < nodes.len(),
        level > 0 && !nodes[idx].is_leaf ==> forall|k: int|
            0 <= k < frontier(nodes, level, idx).len() ==> idx < #[trigger] frontier(
                nodes,
                level,
                idx,
            )[k],
    decreases level,
{
    assert(light_node_wf(nodes, idx, bounds_len));
    if level > 0 && !nodes[idx].is_leaf {
        let l = (level - 1) as nat;
        let c = nodes[idx].child_index as int;
        lemma_frontier_after(nodes, l, idx + 1, bounds_len);
        lemma_frontier_after(nodes, l, c, bounds_len);
        let a = frontier(nodes, l, idx + 1);
        let b = frontier(nodes, l, c);
        assert forall|k: int| 0 <= k < (a + b).len() implies idx < #[trigger] (a + b)[k]
            < nodes.len() by {
            if k < a.len() {
                assert((a + b)[k] == a[k]);
            } else {
                assert((a + b)[k] == b[k - a.len()]);
            }
        }
    }
}

/// Well-formed nodes are nodes whose children lie in the list.
pub proof fn lemma_light_wf_nodes_wf<E>(nodes: Seq<BuilderNode<E>>, bounds_len: int)
    requires
        light_wf_from(nodes, 0, bounds_len),
    ensures
        nodes_wf(nodes),
{
    assert forall|i: int| 0 <= i < nodes.len() && !(#[trigger] nodes[i]).is_leaf implies i + 1
        < nodes.len() && nodes[i].child_index < nodes.len() by {
        assert(light_node_wf(nodes, i, bounds_len));
    }
}

/// Node `j` is a leaf that holds light `x`.
pub open spec fn light_leaf_holds<E>(nodes: Seq<BuilderNode<E>>, j: int, x: int) -> bool {
    0 <= j < nodes.len() && nodes[j].is_leaf && nodes[j].child_index == x
}

/// One of the nodes `lo..hi` is a leaf that holds light `x`.
pub open spec fn light_held_in<E>(nodes: Seq<BuilderNode<E>>, lo: int, hi: int, x: int) -> bool {
    exists|j: int| lo <= j < hi && #[trigger] light_leaf_holds(nodes, j, x)
}

/// A laid-out subtree takes the nodes `i..i + m` and its leaves hold the
/// lights `offset..offset + k`, each light in exactly one leaf.
pub proof fn lemma_light_leaves<E>(nodes: Seq<BuilderNode<E>>, i: int, offset: int)
    requires
        light_shape(nodes, i, offset) is Some,
    ensures
        ({
            let (k, m, d) = light_shape(nodes, i, offset).unwrap();
            &&& 1 <= k
            &&& 1 <= m
            &&& 0 <= d
            &&& i + m <= nodes.len()
            &&& forall|j: int, x: int|
                i <= j < i + m && #[trigger] light_leaf_holds(nodes, j, x) ==> offset <= x < offset
                    + k
            &&& forall|x: int| offset <= x < offset + k ==> #[trigger] light_held_in(nodes, i, i + m, x)
            &&& forall|j1: int, j2: int, x: int|
                i <= j1 < i + m && i <= j2 < i + m && #[trigger] light_leaf_holds(nodes, j1, x)
                    && #[trigger] light_leaf_holds(nodes, j2, x) ==> j1 == j2
        }),
    decreases nodes.len() - i,
{
    if nodes[i].is_leaf {
        assert forall|x: int| offset <= x < offset + 1 implies #[trigger] light_held_in(
            nodes,
            i,
            i + 1,
            x,
        ) by {
            assert(light_leaf_holds(nodes, i, x));
        }
    } else {
        let c1 = i + 1;
        let c2 = nodes[i].child_index as int;
        assert(i < c2 < nodes.len());
        let (k1, n1, d1) = light_shape(nodes, c1, offset).unwrap();
        let (k2, n2, d2) = light_shape(nodes, c2, offset + k1).unwrap();
        lemma_light_leaves(nodes, c1, offset);
        lemma_light_leaves(nodes, c2, offset + k1);
        let k = k1 + k2;
        let m = 1 + n1 + n2;
        assert forall|x: int| offset <= x < offset + k implies #[trigger] light_held_in(
            nodes,
            i,
            i + m,
            x,
        ) by {
            if x < offset + k1 {
                assert(light_held_in(nodes, c1, c1 + n1, x));
                let j = choose|j: int| c1 <= j < c1 + n1 && #[trigger] light_leaf_holds(nodes, j, x);
                assert(i <= j < i + m && light_leaf_holds(nodes, j, x));
            } else {
                assert(light_held_in(nodes, c2, c2 + n2, x));
                let j = choose|j: int| c2 <= j < c2 + n2 && #[trigger] light_leaf_holds(nodes, j, x);
                assert(i <= j < i + m && light_leaf_holds(nodes, j, x));
            }
        }
    }
}

/// Each of the lights a light tree was built over is held by exactly one
/// leaf of the binary tree it was made from.
pub proof fn law_each_light_in_one_leaf<B, E>(t: LightTree<B, E>, n: int, x: int)
    requires
        n > 0,
        light_shape(t.builder@.nodes@, 0, 0) == Some(
            (n, t.builder@.nodes@.len() as int, t.builder@.depth as int),
        ),
        0 <= x < n,
    ensures
        exists|j: int| light_leaf_holds(t.builder@.nodes@, j, x),
        forall|j1: int, j2: int|
            light_leaf_holds(t.builder@.nodes@, j1, x) && light_leaf_holds(t.builder@.nodes@, j2, x)
                ==> j1 == j2,
{
    let nodes = t.builder@.nodes@;
    lemma_light_leaves(nodes, 0, 0);
    assert(light_held_in(nodes, 0, nodes.len() as int, x));
    let j = choose|j: int| 0 <= j < nodes.len() && #[trigger] light_leaf_holds(nodes, j, x);
    assert(light_leaf_holds(nodes, j, x));
}

/// A node of the light tree: an inner node with its children, or a leaf
/// with the index of its light; either with its bounds (one per time
/// sample) and its energy.
#[derive(Debug)]
pub enum Node<B, E> {
    Inner { children: Vec<Node<B, E>>, bounds: Vec<B>, energy: E },
    Leaf { light_index: usize, bounds: Vec<B>, energy: E },
}

/// Node `n` is the one made from builder node `idx`: a leaf with the same
/// light, or an inner node whose children are made from the nodes that
/// collapsing `ARITY_LOG2` levels gives; either with the same bounds and
/// energy.
pub open spec fn light_mirrors<B, E>(
    n: Node<B, E>,
    nodes: Seq<BuilderNode<E>>,
    bounds: Seq<B>,
    idx: int,
) -> bool
    decreases nodes.len() - idx,
{
    if 0 <= idx < nodes.len() {
        let b = nodes[idx];
        let own = bounds.subrange(b.bounds_range.0 as int, b.bounds_range.1 as int);
        if b.is_leaf {
            n matches Node::Leaf { light_index, bounds: nb, energy } && light_index == b.child_index
                && nb@ == own && energy == b.energy
        } else {
            let f = frontier(nodes, ARITY_LOG2 as nat, idx);
            match n {
                Node::Inner { children, bounds: nb, energy } => {
                    &&& nb@ == own
                    &&& energy == b.energy
                    &&& children@.len() == f.len()
                    &&& forall|k: int|
                        0 <= k < f.len() ==> idx < f[k] < nodes.len() && light_mirrors(
                            #[trigger] children@[k],
                            nodes,
                            bounds,
                            f[k],
                        )
                },
                Node::Leaf { .. } => false,
            }
        }
    } else {
        false
    }
}

impl<B, E: Copy> Node<B, E> {
    /// The node's bounds.
    pub fn bounds(&self) -> (r: &[B])
        ensures
            r@ == match *self {
                Node::Inner { bounds, .. } => bounds@,
                Node::Leaf { bounds, .. } => bounds@,
            },
    {
        match self {
            Node::Inner { bounds, .. } => bounds.as_slice(),
            Node::Leaf { bounds, .. } => bounds.as_slice(),
        }
    }

    /// The node's energy.
    pub fn energy(&self) -> (r: E)
        ensures
            r == match *self {
                Node::Inner { energy, .. } => energy,
                Node::Leaf { energy, .. } => energy,
            },
    {
        match self {
            Node::Inner { energy, .. } => *energy,
            Node::Leaf { energy, .. } => *energy,
        }
    }

    /// The index of a leaf's light.
    pub fn light_index(&self) -> (r: usize)
        requires
            self is Leaf,
        ensures
            self matches Node::Leaf { light_index, .. } && r == light_index,
    {
        match self {
            Node::Inner { .. } => vstd::pervasive::unreached(),
            Node::Leaf { light_index, .. } => *light_index,
        }
    }
}

/// A copy of the bounds `range` of `bounds`.
pub(crate) fn copy_bounds<B: Copy>(bounds: &Vec<B>, range: (usize, usize)) -> (r: Vec<B>)
    requires
        range.0 <= range.1 <= bounds@.len(),
    ensures
        r@ == bounds@.subrange(range.0 as int, range.1 as int),
{
    let mut out: Vec<B> = Vec::new();
    let mut i = range.0;
    while i < range.1
        invariant
            range.0 <= i <= range.1 <= bounds@.len(),
            out@ == bounds@.subrange(range.0 as int, i as int),
        decreases range.1 - i,
    {
        out.push(bounds[i]);
        i = i + 1;
        proof {
            assert(out@ =~= bounds@.subrange(range.0 as int, i as int));
        }
    }
    out
}

/// Makes the light-tree node from builder node `node_index`.
fn construct_from_builder<B: Copy, E: Copy>(base: &LightTreeBuilder<B, E>, node_index: usize) -> (r:
    Node<B, E>)
    requires
        light_wf_from(base.nodes@, 0, base.bounds@.len() as int),
        node_index < base.nodes@.len(),
    ensures
        light_mirrors(r, base.nodes@, base.bounds@, node_index as int),
    decreases base.nodes@.len() - node_index,
{
    let ghost nodes = base.nodes@;
    let ghost bl = base.bounds@.len() as int;
    proof {
        lemma_light_wf_nodes_wf(nodes, bl);
        assert(light_node_wf(nodes, node_index as int, bl));
        lemma_frontier_after(nodes, ARITY_LOG2 as nat, node_index as int, bl);
    }
    let bounds_range = base.nodes[node_index].bounds_range;
    let bounds = copy_bounds(&base.bounds, bounds_range);
    if base.nodes[node_index].is_leaf {
        Node::Leaf {
            light_index: base.nodes[node_index].child_index,
            bounds,
            energy: base.nodes[node_index].energy,
        }
    } else {
        let ghost f = frontier(nodes, ARITY_LOG2 as nat, node_index as int);
        let child_count = node_child_count(base.nodes.as_slice(), node_index);
        let mut children: Vec<Node<B, E>> = Vec::new();
        let mut i: usize = 0;
        while i < child_count
            invariant
                nodes == base.nodes@,
                light_wf_from(nodes, 0, bl),
                bl == base.bounds@.len(),
                nodes_wf(nodes),
                node_index < nodes.len(),
                f == frontier(nodes, ARITY_LOG2 as nat, node_index as int),
                child_count == f.len(),
                forall|k: int| 0 <= k < f.len() ==> node_index < #[trigger] f[k] < nodes.len(),
                i <= child_count,
                children@.len() == i,
                forall|k: int|
                    0 <= k < i ==> light_mirrors(#[trigger] children@[k], nodes, base.bounds@, f[k]),
            decreases child_count - i,
        {
            let ci = node_nth_child_index(base.nodes.as_slice(), node_index, i);
            let child = construct_from_builder(base, ci);
            children.push(child);
            i = i + 1;
        }
        Node::Inner { children, bounds, energy: base.nodes[node_index].energy }
    }
}

/// A light tree: its root, none for no lights, and the depth of the binary
/// tree it was made from, which (for contracts) it keeps.
pub struct LightTree<B, E> {
    pub root: Option<Node<B, E>>,
    pub depth: usize,
    pub builder: Ghost<LightTreeBuilder<B, E>>,
}

impl<B: Copy, E: Copy> LightTree<B, E> {
    /// Builds the light tree over `object_count` lights: first a binary
    /// tree, whose ranges of lights `split(offset, len)` splits in place
    /// (returning where), whose leaves take the bounds and energy that
    /// `info(index)` gives for their light, and whose inner nodes take the
    /// bounds `merge_bounds` makes of their children's and the energy
    /// `combine` makes of their children's (holding `zero` while their
    /// children are built); then its collapse into nodes of up to `ARITY`
    /// children.
    pub fn from_objects<S, I, M, A>(
        object_count: usize,
        zero: E,
        split: &S,
        info: &I,
        merge_bounds: &M,
        combine: &A,
    ) -> (r: LightTree<B, E>) where
        S: Fn(usize, usize) -> usize,
        I: Fn(usize) -> (Vec<B>, E),
        M: Fn(&[B], &[B]) -> Vec<B>,
        A: Fn(&E, &E) -> E,

        requires
            object_count < usize::MAX,
            forall|o: usize, l: usize| #[trigger] split.requires((o, l)),
            forall|o: usize| #[trigger] info.requires((o,)),
            forall|a: &[B], b: &[B]| #[trigger] merge_bounds.requires((a, b)),
            forall|a: &E, b: &E| #[trigger] combine.requires((a, b)),
        ensures
            object_count == 0 ==> r.root is None && r.depth == 0,
            object_count > 0 ==> {
                let b = r.builder@;
                &&& light_shape(b.nodes@, 0, 0) == Some(
                    (object_count as int, b.nodes@.len() as int, b.depth as int),
                )
                &&& light_wf_from(b.nodes@, 0, b.bounds@.len() as int)
                &&& light_decided_by(
                    b.nodes@,
                    b.bounds@,
                    0,
                    0,
                    *split,
                    *info,
                    *merge_bounds,
                    *combine,
                )
                &&& r.root matches Some(root) && light_mirrors(root, b.nodes@, b.bounds@, 0)
                &&& r.depth == b.depth
            },
    {
        let mut builder = LightTreeBuilder::new();
        if object_count == 0 {
            LightTree { root: None, depth: 0, builder: Ghost(builder) }
        } else {
            builder.recursive_build(
                0,
                0,
                object_count,
                object_count,
                zero,
                split,
                info,
                merge_bounds,
                combine,
            );
            let root = construct_from_builder(&builder, builder.root_node_index());
            let depth = builder.depth;
            LightTree { root: Some(root), depth, builder: Ghost(builder) }
        }
    }
}

} // verus!
