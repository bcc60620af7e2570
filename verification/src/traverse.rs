//! Whole-tree traversal: pre-order depth-first and level-order breadth-first.
//!
//! Both traversals return the payloads of the tree as a sequence of borrows,
//! one per node, in the traversal's order; the tree itself is unchanged.  The
//! orders are specified by [`TreeView::dfs`] and [`TreeView::bfs`], and both
//! are proved complete: they yield exactly [`TreeView::size`] payloads.

use std::collections::VecDeque;

use vstd::prelude::*;
use vstd::seq_lib::lemma_multiset_commutative;

use crate::node::Node;
use crate::node::TreeView;
use crate::node::lemma_views_of_index;
use crate::node::lemma_views_of_len;
use crate::node::views_of;

verus! {

/// The number of nodes in each tree of `ts`, summed.
pub open spec fn size_of<T>(ts: Seq<TreeView<T>>) -> nat
    decreases ts,
{
    if ts.len() == 0 {
        0
    } else {
        ts[0].size() + size_of(ts.drop_first())
    }
}

/// The payloads of the trees of `ts`, each in pre-order depth-first order,
/// concatenated.
pub open spec fn dfs_of<T>(ts: Seq<TreeView<T>>) -> Seq<T>
    decreases ts,
{
    if ts.len() == 0 {
        Seq::<T>::empty()
    } else {
        ts[0].dfs() + dfs_of(ts.drop_first())
    }
}

/// The payloads of the trees of `q` in level order: the roots already queued
/// come first, then all of their children, level by level.
pub open spec fn bfs_rounds<T>(q: Seq<TreeView<T>>) -> Seq<T>
    decreases size_of(q),
    via bfs_rounds_decreases::<T>
{
    if q.len() == 0 {
        Seq::<T>::empty()
    } else {
        seq![q[0].data] + bfs_rounds(q.drop_first() + q[0].children)
    }
}

#[via_fn]
proof fn bfs_rounds_decreases<T>(q: Seq<TreeView<T>>) {
    if q.len() > 0 {
        lemma_size_of_concat(q.drop_first(), q[0].children);
        assert(size_of(q) == q[0].size() + size_of(q.drop_first()));
        assert(q[0].size() == 1 + size_of(q[0].children));
    }
}

impl<T> TreeView<T> {
    /// The number of nodes in the tree.
    pub open spec fn size(self) -> nat
        decreases self,
    {
        1 + size_of(self.children)
    }

    /// The payloads of the tree in pre-order depth-first order: the root's
    /// payload first, then each child's subtree in insertion order.
    pub open spec fn dfs(self) -> Seq<T>
        decreases self,
    {
        seq![self.data] + dfs_of(self.children)
    }

    /// The payloads of the tree in level order: all payloads at one depth
    /// before any payload at the next, siblings in insertion order.
    pub open spec fn bfs(self) -> Seq<T> {
        bfs_rounds(seq![self])
    }
}

pub proof fn lemma_size_of_concat<T>(a: Seq<TreeView<T>>, b: Seq<TreeView<T>>)
    ensures
        size_of(a + b) == size_of(a) + size_of(b),
    decreases a.len(),
{
    if a.len() == 0 {
        assert(a + b =~= b);
    } else {
        assert((a + b).drop_first() =~= a.drop_first() + b);
        lemma_size_of_concat(a.drop_first(), b);
    }
}

pub proof fn lemma_dfs_of_concat<T>(a: Seq<TreeView<T>>, b: Seq<TreeView<T>>)
    ensures
        dfs_of(a + b) == dfs_of(a) + dfs_of(b),
    decreases a.len(),
{
    if a.len() == 0 {
        assert(a + b =~= b);
        assert(dfs_of(a) + dfs_of(b) =~= dfs_of(b));
    } else {
        assert((a + b).drop_first() =~= a.drop_first() + b);
        lemma_dfs_of_concat(a.drop_first(), b);
        assert(a[0].dfs() + (dfs_of(a.drop_first()) + dfs_of(b)) =~= (a[0].dfs() + dfs_of(
            a.drop_first(),
        )) + dfs_of(b));
    }
}

/// Depth-first traversal is complete: it yields exactly one payload for each
/// of the tree's nodes.
pub proof fn lemma_dfs_complete<T>(t: TreeView<T>)
    ensures
        t.dfs().len() == t.size(),
    decreases t,
{
    lemma_dfs_of_size(t.children);
}

proof fn lemma_dfs_of_size<T>(ts: Seq<TreeView<T>>)
    ensures
        dfs_of(ts).len() == size_of(ts),
    decreases ts,
{
    if ts.len() > 0 {
        lemma_dfs_complete(ts[0]);
        lemma_dfs_of_size(ts.drop_first());
    }
}

/// Breadth-first traversal is complete: it yields exactly one payload for
/// each of the tree's nodes.
pub proof fn lemma_bfs_complete<T>(t: TreeView<T>)
    ensures
        t.bfs().len() == t.size(),
{
    lemma_bfs_rounds_size(seq![t]);
    assert(seq![t].drop_first() =~= Seq::<TreeView<T>>::empty());
    assert(size_of(Seq::<TreeView<T>>::empty()) == 0);
    assert(size_of(seq![t]) == t.size() + size_of(seq![t].drop_first()));
}

proof fn lemma_bfs_rounds_size<T>(q: Seq<TreeView<T>>)
    ensures
        bfs_rounds(q).len() == size_of(q),
    decreases size_of(q),
{
    if q.len() > 0 {
        lemma_size_of_concat(q.drop_first(), q[0].children);
        assert(size_of(q) == q[0].size() + size_of(q.drop_first()));
        assert(q[0].size() == 1 + size_of(q[0].children));
        lemma_bfs_rounds_size(q.drop_first() + q[0].children);
        assert(bfs_rounds(q) == seq![q[0].data] + bfs_rounds(q.drop_first() + q[0].children));
    }
}

/// Both traversals visit the same nodes: a breadth-first traversal yields
/// exactly the payloads a depth-first traversal yields, each the same number
/// of times — only the order differs.
pub proof fn lemma_bfs_is_dfs_permutation<T>(t: TreeView<T>)
    ensures
        t.bfs().to_multiset() == t.dfs().to_multiset(),
{
    lemma_bfs_rounds_multiset(seq![t]);
    lemma_dfs_of_singleton(t);
}

proof fn lemma_bfs_rounds_multiset<T>(q: Seq<TreeView<T>>)
    ensures
        bfs_rounds(q).to_multiset() == dfs_of(q).to_multiset(),
    decreases size_of(q),
{
    if q.len() > 0 {
        lemma_size_of_concat(q.drop_first(), q[0].children);
        assert(size_of(q) == q[0].size() + size_of(q.drop_first()));
        assert(q[0].size() == 1 + size_of(q[0].children));
        lemma_bfs_rounds_multiset(q.drop_first() + q[0].children);
        assert(bfs_rounds(q) == seq![q[0].data] + bfs_rounds(q.drop_first() + q[0].children));
        lemma_multiset_commutative(seq![q[0].data], bfs_rounds(q.drop_first() + q[0].children));
        lemma_dfs_of_concat(q.drop_first(), q[0].children);
        lemma_multiset_commutative(dfs_of(q.drop_first()), dfs_of(q[0].children));
        assert(dfs_of(q) == q[0].dfs() + dfs_of(q.drop_first()));
        lemma_multiset_commutative(q[0].dfs(), dfs_of(q.drop_first()));
        assert(q[0].dfs() == seq![q[0].data] + dfs_of(q[0].children));
        lemma_multiset_commutative(seq![q[0].data], dfs_of(q[0].children));
        assert(bfs_rounds(q).to_multiset() =~= dfs_of(q).to_multiset());
    }
}

pub proof fn lemma_dfs_of_singleton<T>(t: TreeView<T>)
    ensures
        dfs_of(seq![t]) == t.dfs(),
{
    assert(seq![t].drop_first() =~= Seq::<TreeView<T>>::empty());
    assert(dfs_of(Seq::<TreeView<T>>::empty()) == Seq::<T>::empty());
    assert(dfs_of(seq![t]) == t.dfs() + dfs_of(seq![t].drop_first()));
    assert(t.dfs() + Seq::<T>::empty() =~= t.dfs());
}

/// The values behind a sequence of references.
pub open spec fn deref_seq<T>(s: Seq<&T>) -> Seq<T> {
    s.map_values(|t: &T| *t)
}

/// The views of a sequence of borrowed nodes, element by element.
pub open spec fn ref_views<T>(ns: Seq<&Node<T>>) -> Seq<TreeView<T>> {
    ns.map_values(|n: &Node<T>| n@)
}

impl<T> Node<T> {
    /// The payloads of the subtree rooted at this node, in pre-order
    /// depth-first order: the receiver's payload first, then each child's
    /// subtree in insertion order, depth first.
    pub fn deepth_first_search(&self) -> (r: Vec<&T>)
        ensures
            deref_seq(r@) == self@.dfs(),
    {
        let mut out: Vec<&T> = Vec::new();
        self.dfs_into(&mut out);
        proof {
            assert(deref_seq(Seq::<&T>::empty()) =~= Seq::<T>::empty());
            assert(Seq::<T>::empty() + self@.dfs() =~= self@.dfs());
        }
        out
    }

    /// Appends the payloads of this subtree to `out`, in pre-order
    /// depth-first order.
    fn dfs_into<'a>(&'a self, out: &mut Vec<&'a T>)
        ensures
            deref_seq(final(out)@) == deref_seq(old(out)@) + self@.dfs(),
        decreases *self,
    {
        out.push(self.data());
        proof {
            assert(deref_seq(out@) =~= deref_seq(old(out)@) + seq![self@.data]);
            assert(self@.children.subrange(0, 0) =~= Seq::<TreeView<T>>::empty());
            assert(deref_seq(out@) =~= deref_seq(old(out)@) + seq![self@.data] + dfs_of(
                self@.children.subrange(0, 0),
            ));
        }
        proof {
            lemma_views_of_len(self.children@);
        }
        let n = self.children.len();
        let mut i: usize = 0;
        while i < n
            invariant
                n == self.children@.len(),
                i <= n,
                self@.children.len() == n,
                deref_seq(out@) == deref_seq(old(out)@) + seq![self@.data] + dfs_of(
                    self@.children.subrange(0, i as int),
                ),
            decreases n - i,
        {
            let c = &self.children[i];
            c.dfs_into(out);
            proof {
                lemma_views_of_index(self.children@, i as int);
                assert(self@.children.subrange(0, i as int + 1) =~= self@.children.subrange(
                    0,
                    i as int,
                ) + seq![self@.children[i as int]]);
                lemma_dfs_of_concat(
                    self@.children.subrange(0, i as int),
                    seq![self@.children[i as int]],
                );
                lemma_dfs_of_singleton(self@.children[i as int]);
                assert(deref_seq(out@) =~= deref_seq(old(out)@) + seq![self@.data] + dfs_of(
                    self@.children.subrange(0, i as int + 1),
                ));
            }
            i += 1;
        }
        proof {
            assert(self@.children.subrange(0, n as int) =~= self@.children);
            assert(deref_seq(out@) =~= deref_seq(old(out)@) + self@.dfs());
        }
    }

    /// The payloads of the subtree rooted at this node, in level order: the
    /// receiver's payload first, then its children's payloads in insertion
    /// order, then all payloads one level deeper, and so on, driven by a
    /// first-in-first-out queue.
    pub fn breadth_first_search(&self) -> (r: Vec<&T>)
        ensures
            deref_seq(r@) == self@.bfs(),
    {
        let mut out: Vec<&T> = Vec::new();
        let mut queue: VecDeque<&Node<T>> = VecDeque::new();
        queue.push_back(self);
        proof {
            assert(ref_views(queue@) =~= seq![self@]);
            assert(deref_seq(out@) =~= Seq::<T>::empty());
            assert(deref_seq(out@) + bfs_rounds(ref_views(queue@)) =~= self@.bfs());
        }
        loop
            invariant
                deref_seq(out@) + bfs_rounds(ref_views(queue@)) == self@.bfs(),
            decreases size_of(ref_views(queue@)),
        {
            let ghost q0 = ref_views(queue@);
            let ghost out0 = deref_seq(out@);
            let popped = queue.pop_front();
            match popped {
                None => {
                    proof {
                        assert(ref_views(queue@) =~= Seq::<TreeView<T>>::empty());
                        assert(deref_seq(out@) + bfs_rounds(ref_views(queue@)) =~= deref_seq(
                            out@,
                        ));
                    }
                    return out;
                },
                Some(node) => {
                    proof {
                        assert(q0[0] == node@);
                        assert(ref_views(queue@) =~= q0.drop_first());
                    }
                    out.push(node.data());
                    let cs = node.children();
                    let m = cs.len();
                    proof {
                        lemma_views_of_len(cs@);
                        lemma_size_of_concat(q0.drop_first(), q0[0].children);
                    }
                    let ghost qd = ref_views(queue@);
                    let mut j: usize = 0;
                    while j < m
                        invariant
                            m == cs@.len(),
                            j <= m,
                            views_of(cs@) == node@.children,
                            ref_views(queue@) == qd + views_of(cs@).subrange(0, j as int),
                        decreases m - j,
                    {
                        let ghost qbefore = ref_views(queue@);
                        queue.push_back(&cs[j]);
                        proof {
                            lemma_views_of_len(cs@);
                            lemma_views_of_index(cs@, j as int);
                            assert(ref_views(queue@) =~= qbefore.push(cs@[j as int]@));
                            assert(views_of(cs@).subrange(0, j as int + 1) =~= views_of(
                                cs@,
                            ).subrange(0, j as int).push(cs@[j as int]@));
                            assert((qd + views_of(cs@).subrange(0, j as int)).push(
                                cs@[j as int]@,
                            ) =~= qd + views_of(cs@).subrange(0, j as int + 1));
                        }
                        j += 1;
                    }
                    proof {
                        assert(views_of(cs@).subrange(0, m as int) =~= node@.children);
                        assert(ref_views(queue@) =~= q0.drop_first() + q0[0].children);
                        assert(deref_seq(out@) =~= out0 + seq![q0[0].data]);
                        assert(bfs_rounds(q0) == seq![q0[0].data] + bfs_rounds(
                            q0.drop_first() + q0[0].children,
                        ));
                        assert(out0 + bfs_rounds(q0) =~= (out0 + seq![q0[0].data]) + bfs_rounds(
                            q0.drop_first() + q0[0].children,
                        ));
                        lemma_size_of_concat(q0.drop_first(), q0[0].children);
                        assert(size_of(q0) == q0[0].size() + size_of(q0.drop_first()));
                        assert(q0[0].size() == 1 + size_of(q0[0].children));
                    }
                },
            }
        }
    }
}

} // verus!
