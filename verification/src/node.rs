//! The tree node and its navigation operations.
//!
//! A [`Node`] exclusively owns one payload value and an ordered, growable
//! sequence of child nodes.  Children are attached one at a time with
//! [`Node::add`] and keep their insertion order; there is no removal
//! operation, so the structure is acyclic by construction.  Every lookup that
//! can miss returns `Option` — no operation here panics.

use vstd::prelude::*;

verus! {

/// The ghost model of a tree: the payload at the root together with the
/// models of the children, in insertion order.
#[verifier::ext_equal]
pub ghost struct TreeView<T> {
    pub data: T,
    pub children: Seq<TreeView<T>>,
}

impl<T> TreeView<T> {
    /// The child at index `i`, or `None` when `i` is out of range.
    pub open spec fn child(self, i: int) -> Option<TreeView<T>> {
        if 0 <= i < self.children.len() {
            Some(self.children[i])
        } else {
            None
        }
    }

    /// The most recently appended child, or `None` on a leaf.
    pub open spec fn last_child(self) -> Option<TreeView<T>> {
        if self.children.len() > 0 {
            Some(self.children.last())
        } else {
            None
        }
    }

    /// Descends one child index at a time, `None` as soon as an index along
    /// the way is out of range.
    pub open spec fn descend(self, idxs: Seq<usize>) -> Option<TreeView<T>>
        decreases idxs.len(),
    {
        if idxs.len() == 0 {
            Some(self)
        } else {
            match self.child(idxs[0] as int) {
                Some(c) => c.descend(idxs.drop_first()),
                None => None,
            }
        }
    }

    /// The node a path reaches: the first element of `path` is a placeholder
    /// for the receiver itself and is ignored, the remaining elements are
    /// successive child indices applied from the receiver on.
    pub open spec fn child_by_path(self, path: Seq<usize>) -> Option<TreeView<T>> {
        self.descend(path_tail(path))
    }

    /// The tree with the node that `idxs` reaches replaced by `sub`.
    pub open spec fn replaced(self, idxs: Seq<usize>, sub: TreeView<T>) -> TreeView<T>
        recommends
            self.descend(idxs) is Some,
        decreases idxs.len(),
    {
        if idxs.len() == 0 {
            sub
        } else {
            let i = idxs[0] as int;
            TreeView {
                data: self.data,
                children: self.children.update(
                    i,
                    self.children[i].replaced(idxs.drop_first(), sub),
                ),
            }
        }
    }

    /// Starting here, the node reached by descending into the last child
    /// exactly `level` times, or `None` as soon as a leaf is reached early.
    pub open spec fn last_child_by_level(self, level: nat) -> Option<TreeView<T>>
        decreases level,
    {
        if level == 0 {
            Some(self)
        } else {
            match self.last_child() {
                Some(c) => c.last_child_by_level((level - 1) as nat),
                None => None,
            }
        }
    }

    /// The tree with the node that `level` last-child steps reach replaced by
    /// `sub`.
    pub open spec fn replaced_at_last(self, level: nat, sub: TreeView<T>) -> TreeView<T>
        recommends
            self.last_child_by_level(level) is Some,
        decreases level,
    {
        if level == 0 {
            sub
        } else {
            let i = self.children.len() - 1;
            TreeView {
                data: self.data,
                children: self.children.update(
                    i,
                    self.children.last().replaced_at_last((level - 1) as nat, sub),
                ),
            }
        }
    }
}

/// Insertion order is preserved: in a tree whose children stand in the order
/// they were appended, the child at index `i` is exactly the `i`-th appended
/// child, for every `i` in range.
pub proof fn lemma_insertion_order<T>(t: TreeView<T>, cs: Seq<TreeView<T>>, i: int)
    requires
        t.children == cs,
        0 <= i < cs.len(),
    ensures
        t.child(i) == Some(cs[i]),
{
}

/// A lookup past the last child is absent: on a node with `n` children every
/// index at or beyond `n` resolves to `None`, and a childless node has no
/// last child.
pub proof fn lemma_out_of_range_absent<T>(t: TreeView<T>, i: int)
    requires
        i >= t.children.len(),
    ensures
        t.child(i) is None,
        t.children.len() == 0 ==> t.last_child() is None,
{
}

/// The child indices that a path descends by: every element after the first,
/// which stands for the starting node itself.
pub open spec fn path_tail(path: Seq<usize>) -> Seq<usize> {
    if path.len() == 0 {
        path
    } else {
        path.drop_first()
    }
}

/// A tree node: one payload value and the node's children, each exclusively
/// owned, in insertion order.
pub struct Node<T> {
    pub(crate) data: T,
    pub(crate) children: Vec<Node<T>>,
}

/// The views of a sequence of nodes, element by element.
pub open(crate) spec fn views_of<T>(ns: Seq<Node<T>>) -> Seq<TreeView<T>>
    decreases ns,
{
    if ns.len() == 0 {
        Seq::<TreeView<T>>::empty()
    } else {
        seq![ns[0].tree_view()] + views_of(ns.drop_first())
    }
}

impl<T> Node<T> {
    /// The ghost model of the subtree rooted at this node.
    pub open(crate) spec fn tree_view(self) -> TreeView<T>
        decreases self,
    {
        TreeView { data: self.data, children: views_of(self.children@) }
    }
}

impl<T> View for Node<T> {
    type V = TreeView<T>;

    open(crate) spec fn view(&self) -> TreeView<T> {
        self.tree_view()
    }
}

pub proof fn lemma_views_of_len<T>(ns: Seq<Node<T>>)
    ensures
        views_of(ns).len() == ns.len(),
    decreases ns.len(),
{
    if ns.len() > 0 {
        lemma_views_of_len(ns.drop_first());
    }
}

pub proof fn lemma_views_of_index<T>(ns: Seq<Node<T>>, i: int)
    requires
        0 <= i < ns.len(),
    ensures
        views_of(ns)[i] == ns[i]@,
    decreases ns.len(),
{
    lemma_views_of_len(ns);
    if i > 0 {
        lemma_views_of_index(ns.drop_first(), i - 1);
    }
}

pub proof fn lemma_views_of_update<T>(ns: Seq<Node<T>>, i: int, n: Node<T>)
    requires
        0 <= i < ns.len(),
    ensures
        views_of(ns.update(i, n)) == views_of(ns).update(i, n@),
{
    lemma_views_of_len(ns);
    lemma_views_of_len(ns.update(i, n));
    assert forall|j: int| 0 <= j < ns.len() implies views_of(ns.update(i, n))[j] == views_of(
        ns,
    ).update(i, n@)[j] by {
        lemma_views_of_index(ns.update(i, n), j);
        lemma_views_of_index(ns, j);
    }
    assert(views_of(ns.update(i, n)) =~= views_of(ns).update(i, n@));
}

pub proof fn lemma_views_of_push<T>(ns: Seq<Node<T>>, n: Node<T>)
    ensures
        views_of(ns.push(n)) == views_of(ns).push(n@),
    decreases ns.len(),
{
    if ns.len() == 0 {
        assert(ns.push(n).drop_first() =~= ns);
        assert(views_of(ns.push(n)) =~= views_of(ns).push(n@));
    } else {
        assert(ns.push(n).drop_first() =~= ns.drop_first().push(n));
        lemma_views_of_push(ns.drop_first(), n);
        assert(views_of(ns.push(n)) =~= views_of(ns).push(n@));
    }
}

impl<T> Node<T> {
    /// Creates a leaf node that holds `data` and has no children.
    pub fn new(data: T) -> (r: Node<T>)
        ensures
            r@ == (TreeView { data, children: Seq::<TreeView<T>>::empty() }),
    {
        let r = Node { data, children: Vec::new() };
        proof {
            assert(r@.children =~= Seq::<TreeView<T>>::empty());
        }
        r
    }

    /// Appends `node` as the new last child, transferring ownership of the
    /// whole subtree rooted at `node` to `self`.
    pub fn add(&mut self, node: Node<T>)
        ensures
            final(self)@ == (TreeView {
                data: old(self)@.data,
                children: old(self)@.children.push(node@),
            }),
    {
        proof {
            lemma_views_of_push(self.children@, node);
        }
        self.children.push(node);
    }

    /// Read-only access to this node's payload.
    pub fn data(&self) -> (r: &T)
        ensures
            *r == self@.data,
    {
        &self.data
    }

    /// Exclusive access to this node's payload, for in-place replacement or
    /// partial mutation; the children are untouched.
    pub fn data_mut(&mut self) -> (r: &mut T)
        ensures
            *r == old(self)@.data,
            final(self)@ == (TreeView { data: *final(r), children: old(self)@.children }),
    {
        &mut self.data
    }

    /// The child at zero-based `index` in insertion order, or `None` when
    /// `index` is out of range.
    pub fn child(&self, index: usize) -> (r: Option<&Node<T>>)
        ensures
            match r {
                Some(c) => self@.child(index as int) == Some(c@),
                None => self@.child(index as int) is None,
            },
    {
        proof {
            lemma_views_of_len(self.children@);
            if (index as int) < self.children@.len() {
                lemma_views_of_index(self.children@, index as int);
            }
        }
        if index < self.children.len() {
            Some(&self.children[index])
        } else {
            None
        }
    }

    /// The most recently appended child, or `None` if there are no children.
    pub fn last_child(&self) -> (r: Option<&Node<T>>)
        ensures
            match r {
                Some(c) => self@.last_child() == Some(c@),
                None => self@.last_child() is None,
            },
    {
        proof {
            lemma_views_of_len(self.children@);
            if self.children@.len() > 0 {
                lemma_views_of_index(self.children@, self.children@.len() - 1);
            }
        }
        if self.children.len() > 0 {
            Some(&self.children[self.children.len() - 1])
        } else {
            None
        }
    }

    /// The child at zero-based `index`, exclusively borrowed, or `None` when
    /// `index` is out of range.
    pub fn child_mut(&mut self, index: usize) -> (r: Option<&mut Node<T>>)
        ensures
            index < old(self)@.children.len() ==> r is Some && (*r.unwrap())@ == old(
                self,
            )@.children[index as int] && final(self)@ == (TreeView {
                data: old(self)@.data,
                children: old(self)@.children.update(index as int, (*final(r.unwrap()))@),
            }),
            index >= old(self)@.children.len() ==> r is None && final(self)@ == old(self)@,
    {
        proof {
            lemma_views_of_len(self.children@);
        }
        if index < self.children.len() {
            let m = &mut self.children[index];
            proof {
                lemma_views_of_index(old(self).children@, index as int);
                lemma_views_of_update(old(self).children@, index as int, *final(m));
            }
            Some(m)
        } else {
            None
        }
    }

    /// The most recently appended child, exclusively borrowed, or `None` if
    /// there are no children.
    pub fn last_child_mut(&mut self) -> (r: Option<&mut Node<T>>)
        ensures
            old(self)@.children.len() > 0 ==> r is Some && Some((*r.unwrap())@) == old(
                self,
            )@.last_child() && final(self)@ == (TreeView {
                data: old(self)@.data,
                children: old(self)@.children.update(
                    old(self)@.children.len() - 1,
                    (*final(r.unwrap()))@,
                ),
            }),
            old(self)@.children.len() == 0 ==> r is None && final(self)@ == old(self)@,
    {
        proof {
            lemma_views_of_len(self.children@);
        }
        if self.children.len() > 0 {
            let index = self.children.len() - 1;
            let m = &mut self.children[index];
            proof {
                lemma_views_of_index(old(self).children@, index as int);
                lemma_views_of_update(old(self).children@, index as int, *final(m));
            }
            Some(m)
        } else {
            None
        }
    }

    /// The node that `path` reaches, read-only.
    ///
    /// The first path element is a placeholder for the receiver itself and is
    /// ignored; each later element is the index of the child to descend into
    /// next.  Returns `None` the moment an index along the path is out of
    /// range.  An empty or single-element path returns the receiver.
    pub fn child_by_path(&self, path: &Vec<usize>) -> (r: Option<&Node<T>>)
        ensures
            match r {
                Some(c) => self@.child_by_path(path@) == Some(c@),
                None => self@.child_by_path(path@) is None,
            },
    {
        if path.len() <= 1 {
            return Some(self);
        }
        self.descend_from(path, 1)
    }

    /// Descends along `path[from..]`, read-only.
    fn descend_from(&self, path: &Vec<usize>, from: usize) -> (r: Option<&Node<T>>)
        requires
            from <= path@.len(),
        ensures
            match r {
                Some(c) => self@.descend(path@.skip(from as int)) == Some(c@),
                None => self@.descend(path@.skip(from as int)) is None,
            },
        decreases path@.len() - from,
    {
        if from == path.len() {
            proof {
                assert(path@.skip(from as int) =~= Seq::<usize>::empty());
            }
            return Some(self);
        }
        match self.child(path[from]) {
            Some(c) => {
                proof {
                    assert(path@.skip(from as int).drop_first() =~= path@.skip(from as int + 1));
                }
                c.descend_from(path, from + 1)
            },
            None => None,
        }
    }

    /// The node that `path` reaches, exclusively borrowed; the tree after the
    /// borrow is the old tree with that node replaced by whatever the caller
    /// left behind the returned reference.
    pub fn child_mut_by_path(&mut self, path: &Vec<usize>) -> (r: Option<&mut Node<T>>)
        ensures
            old(self)@.child_by_path(path@) is Some ==> r is Some && old(self)@.child_by_path(
                path@,
            ) == Some((*r.unwrap())@) && final(self)@ == old(self)@.replaced(
                path_tail(path@),
                (*final(r.unwrap()))@,
            ),
            old(self)@.child_by_path(path@) is None ==> r is None && final(self)@ == old(self)@,
    {
        if path.len() <= 1 {
            return Some(self);
        }
        self.descend_mut_from(path, 1)
    }

    /// Descends along `path[from..]`, exclusively borrowed.
    fn descend_mut_from(&mut self, path: &Vec<usize>, from: usize) -> (r: Option<&mut Node<T>>)
        requires
            from <= path@.len(),
        ensures
            old(self)@.descend(path@.skip(from as int)) is Some ==> r is Some && old(self)@.descend(
                path@.skip(from as int),
            ) == Some((*r.unwrap())@) && final(self)@ == old(self)@.replaced(
                path@.skip(from as int),
                (*final(r.unwrap()))@,
            ),
            old(self)@.descend(path@.skip(from as int)) is None ==> r is None && final(self)@
                == old(self)@,
        decreases path@.len() - from,
    {
        if from == path.len() {
            proof {
                assert(path@.skip(from as int) =~= Seq::<usize>::empty());
            }
            return Some(self);
        }
        let i = path[from];
        proof {
            lemma_views_of_len(self.children@);
        }
        if i < self.children.len() {
            let c = &mut self.children[i];
            proof {
                assert(path@.skip(from as int).drop_first() =~= path@.skip(from as int + 1));
                lemma_views_of_index(old(self).children@, i as int);
                lemma_views_of_update(old(self).children@, i as int, *final(c));
                if old(self)@.descend(path@.skip(from as int)) is None {
                    assert(views_of(old(self).children@).update(
                        i as int,
                        old(self)@.children[i as int],
                    ) =~= views_of(old(self).children@));
                }
            }
            c.descend_mut_from(path, from + 1)
        } else {
            None
        }
    }

    /// Starting at the receiver, descends into the last child exactly `level`
    /// times, read-only; `None` as soon as a leaf is reached early.
    pub fn last_child_by_level(&self, level: usize) -> (r: Option<&Node<T>>)
        ensures
            match r {
                Some(c) => self@.last_child_by_level(level as nat) == Some(c@),
                None => self@.last_child_by_level(level as nat) is None,
            },
        decreases level,
    {
        if level == 0 {
            return Some(self);
        }
        match self.last_child() {
            Some(c) => c.last_child_by_level(level - 1),
            None => None,
        }
    }

    /// Starting at the receiver, descends into the last child exactly `level`
    /// times, exclusively borrowed; the tree after the borrow is the old tree
    /// with the reached node replaced by whatever the caller left behind the
    /// returned reference.
    pub fn last_child_mut_by_level(&mut self, level: usize) -> (r: Option<&mut Node<T>>)
        ensures
            old(self)@.last_child_by_level(level as nat) is Some ==> r is Some && old(
                self,
            )@.last_child_by_level(level as nat) == Some((*r.unwrap())@) && final(self)@ == old(
                self,
            )@.replaced_at_last(level as nat, (*final(r.unwrap()))@),
            old(self)@.last_child_by_level(level as nat) is None ==> r is None && final(self)@
                == old(self)@,
        decreases level,
    {
        if level == 0 {
            return Some(self);
        }
        proof {
            lemma_views_of_len(self.children@);
        }
        if self.children.len() == 0 {
            return None;
        }
        let index = self.children.len() - 1;
        let c = &mut self.children[index];
        proof {
            lemma_views_of_index(old(self).children@, index as int);
            lemma_views_of_update(old(self).children@, index as int, *final(c));
            if old(self)@.last_child_by_level(level as nat) is None {
                assert(views_of(old(self).children@).update(
                    index as int,
                    old(self)@.children[index as int],
                ) =~= views_of(old(self).children@));
            }
        }
        c.last_child_mut_by_level(level - 1)
    }

    /// The full ordered children sequence, read-only.
    pub fn children(&self) -> (r: &Vec<Node<T>>)
        ensures
            views_of(r@) == self@.children,
    {
        &self.children
    }

    /// The full ordered children sequence, exclusively borrowed; structural
    /// changes made through it become this node's new children.
    pub fn children_mut(&mut self) -> (r: &mut Vec<Node<T>>)
        ensures
            views_of((*r)@) == old(self)@.children,
            final(self)@ == (TreeView {
                data: old(self)@.data,
                children: views_of((*final(r))@),
            }),
    {
        &mut self.children
    }
}

} // verus!
