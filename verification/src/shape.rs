//! What an insertion does to the shape of the tree.

use vstd::prelude::*;
use crate::node::Node;
use crate::prefix::{begins_with, is_shared_len, related};

verus! {

impl<T> Node<T> {
    /// A node without children that holds `value` under the fragment `key`.
    pub open spec fn is_leaf(&self, key: Seq<char>, value: T) -> bool {
        &&& self.frag@ == key
        &&& self.value == Some(value)
        &&& self.children@.len() == 0
    }

    /// `ks` is `k` with the first `s` characters cut off its fragment; it
    /// keeps the value and the children of `k`.
    pub open spec fn is_cut(k: Node<T>, ks: Node<T>, s: int) -> bool {
        &&& ks.frag@ == k.frag@.skip(s)
        &&& ks.value == k.value
        &&& ks.children@ == k.children@
    }

    /// None of the siblings `a` has a fragment that shares a prefix with `path`.
    pub open spec fn none_related(a: Seq<Node<T>>, path: Seq<char>) -> bool {
        forall|j: int| 0 <= j < a.len() ==> !related(path, (#[trigger] a[j]).frag@)
    }

    /// `a[i]` is the first of the siblings `a` whose fragment shares a prefix
    /// with `path`.
    pub open spec fn is_first_related(a: Seq<Node<T>>, path: Seq<char>, i: int) -> bool {
        &&& 0 <= i < a.len()
        &&& related(path, a[i].frag@)
        &&& forall|j: int| 0 <= j < i ==> !related(path, (#[trigger] a[j]).frag@)
    }

    /// The siblings `b` are the siblings `a` after `path` was added with the
    /// value `v`. Where no sibling shares a prefix with `path`, a leaf for
    /// `path` was put at the end; otherwise the first sibling that shares a
    /// prefix with it was changed as `changed_at` says.
    pub open spec fn grown(a: Seq<Node<T>>, b: Seq<Node<T>>, path: Seq<char>, v: T) -> bool
        decreases path.len(), 1nat,
    {
        if Self::none_related(a, path) {
            &&& b.len() == a.len() + 1
            &&& b =~= a.push(b.last())
            &&& b.last().is_leaf(path, v)
        } else {
            exists|i: int|
                #[trigger] Self::is_first_related(a, path, i) && Self::changed_at(a, b, i, path, v)
        }
    }

    /// The siblings `b` are the siblings `a` after `path` was added with the
    /// value `v` at the sibling `a[i]`, whose fragment shares a prefix with
    /// `path`:
    /// - the fragment is `path`: that sibling has the value `v` now;
    /// - `path` starts with all of the fragment: the rest of `path` was added
    ///   below that sibling;
    /// - the fragment starts with all of `path`: the sibling was taken out and
    ///   cut by `path`, and a node for `path` with the value `v`, whose one
    ///   child is the cut sibling, was put at the end;
    /// - otherwise: the sibling was taken out and cut by the shared prefix, and
    ///   a node for the shared prefix without a value was put at the end, whose
    ///   children are the cut sibling and a leaf for the rest of `path`.
    pub open spec fn changed_at(
        a: Seq<Node<T>>,
        b: Seq<Node<T>>,
        i: int,
        path: Seq<char>,
        v: T,
    ) -> bool
        decreases path.len(), 0nat,
    {
        let k = a[i];
        if path =~= k.frag@ {
            &&& b.len() == a.len()
            &&& b =~= a.update(i, b[i])
            &&& b[i].frag@ == k.frag@
            &&& b[i].children@ == k.children@
            &&& b[i].value == Some(v)
        } else if begins_with(path, k.frag@) && k.frag@.len() > 0 {
            &&& b.len() == a.len()
            &&& b =~= a.update(i, b[i])
            &&& b[i].frag@ == k.frag@
            &&& b[i].value == k.value
            &&& Self::grown(k.children@, b[i].children@, path.skip(k.frag@.len() as int), v)
        } else if begins_with(k.frag@, path) {
            let n2 = b.last();
            &&& b.len() == a.len()
            &&& b =~= a.remove(i).push(n2)
            &&& n2.frag@ == path
            &&& n2.value == Some(v)
            &&& n2.children@.len() == 1
            &&& Self::is_cut(k, n2.children@[0], path.len() as int)
        } else {
            let n2 = b.last();
            let s = n2.frag@.len() as int;
            &&& b.len() == a.len()
            &&& b =~= a.remove(i).push(n2)
            &&& 0 < s
            &&& is_shared_len(path, k.frag@, s)
            &&& n2.frag@ == path.take(s)
            &&& n2.value is None
            &&& n2.children@.len() == 2
            &&& Self::is_cut(k, n2.children@[0], s)
            &&& n2.children@[1].is_leaf(path.skip(s), v)
        }
    }

    /// `post` is `pre` after `path` was added with the value `v`: the same
    /// node, with children grown by `path`.
    pub open spec fn added(pre: Node<T>, post: Node<T>, path: Seq<char>, v: T) -> bool {
        &&& post.frag@ == pre.frag@
        &&& post.value == pre.value
        &&& Self::grown(pre.children@, post.children@, path, v)
    }

    /// The number of nodes in the tree below and including this node.
    pub open spec fn size(&self) -> nat
        decreases self, 0nat,
    {
        1 + Self::size_from(self.children@, 0)
    }

    /// The number of nodes in the trees of `kids` from position `from` on.
    pub open spec fn size_from(kids: Seq<Node<T>>, from: int) -> nat
        decreases kids, kids.len() - from,
    {
        if 0 <= from < kids.len() {
            kids[from].size() + Self::size_from(kids, from + 1)
        } else {
            0
        }
    }
}

} // verus!
