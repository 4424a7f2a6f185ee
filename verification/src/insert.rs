//! Insertion.

use vstd::prelude::*;
use crate::node::Node;
use crate::prefix::{begins_with, is_split, lemma_related_iff_shared, opt_view, related};

verus! {

impl<T> Node<T> {
    /// The node at position `i` of `kids`.
    pub open spec fn kid(kids: Seq<Node<T>>, i: usize) -> Node<T> {
        kids[i as int]
    }

    /// The first child of `node` whose fragment shares a prefix with `path`:
    /// its position, the shared prefix, and what is left of `path` and of the
    /// child's fragment. `None` where no child shares a prefix with `path`.
    pub fn first_related(path: &'static str, node: &Node<T>) -> (r: Option<
        (usize, &'static str, Option<&'static str>, Option<&'static str>),
    >)
        ensures
            match r {
                None => forall|j: int|
                    0 <= j < node.children@.len() ==> !related(
                        path@,
                        (#[trigger] node.children@[j]).frag@,
                    ),
                Some((i, shared, path_rest, frag_rest)) => {
                    &&& i < node.children@.len()
                    &&& forall|j: int|
                        0 <= j < i ==> !related(path@, (#[trigger] node.children@[j]).frag@)
                    &&& related(path@, Self::kid(node.children@, i).frag@)
                    &&& is_split(
                        path@,
                        Self::kid(node.children@, i).frag@,
                        Some(shared@),
                        opt_view(path_rest),
                        opt_view(frag_rest),
                    )
                },
            },
    {
        let n: usize = node.children.len();
        let mut i: usize = 0;
        while i < n
            invariant
                i <= n,
                n == node.children@.len(),
                forall|j: int| 0 <= j < i ==> !related(path@, (#[trigger] node.children@[j]).frag@),
            decreases n - i,
        {
            let (shared, path_rest, frag_rest) = Self::cmp_frag(path, node.children[i].frag);
            match shared {
                Some(s) => {
                    proof {
                        lemma_related_iff_shared(path@, Self::kid(node.children@, i).frag@);
                    }
                    return Some((i, s, path_rest, frag_rest));
                },
                None => {
                    proof {
                        lemma_related_iff_shared(path@, Self::kid(node.children@, i).frag@);
                    }
                },
            }
            i += 1;
        }
        None
    }

    /// Adds `path` with `value` below `node`: the first child whose fragment
    /// shares a prefix with `path` takes it in, and where there is none a new
    /// leaf is put at the end of the children.
    pub fn add_to_node(path: &'static str, value: T, node: &mut Node<T>)
        where T: Copy
        ensures
            Self::added(*old(node), *final(node), path@, value),
            old(node).wf() ==> final(node).wf(),
        decreases path@.len(),
    {
        let ghost a = node.children@;
        match Self::first_related(path, node) {
            None => {
                let leaf = Node::<T> { frag: path, value: Some(value), children: Vec::new() };
                node.children.push(leaf);
            },
            Some((i, shared, path_rest, frag_rest)) => {
                let ghost k = a[i as int];
                assert(Self::is_first_related(a, path@, i as int));
                match (path_rest, frag_rest) {
                    (None, None) => {
                        node.children[i].value = Some(value);
                        proof {
                            let b = node.children@;
                            assert(path@ =~= k.frag@);
                            assert(b =~= a.update(i as int, b[i as int]));
                            assert(Self::changed_at(a, b, i as int, path@, value));
                        }
                    },
                    (Some(rest), None) => {
                        Self::add_to_node(rest, value, &mut node.children[i]);
                        proof {
                            let b = node.children@;
                            assert(b =~= a.update(i as int, b[i as int]));
                            assert(!(path@ =~= k.frag@));
                            assert(Self::changed_at(a, b, i as int, path@, value));
                        }
                    },
                    (None, Some(cut)) => {
                        let mut kid = node.children.remove(i);
                        kid.frag = cut;
                        let mut kids: Vec<Node<T>> = Vec::new();
                        kids.push(kid);
                        let above = Node::<T> { frag: shared, value: Some(value), children: kids };
                        node.children.push(above);
                        proof {
                            let b = node.children@;
                            assert(path@ =~= shared@);
                            assert(b =~= a.remove(i as int).push(b.last()));
                            assert(!(path@ =~= k.frag@));
                            assert(!begins_with(path@, k.frag@));
                            assert(Self::changed_at(a, b, i as int, path@, value));
                        }
                    },
                    (Some(rest), Some(cut)) => {
                        let mut kid = node.children.remove(i);
                        kid.frag = cut;
                        let mut kids: Vec<Node<T>> = Vec::new();
                        kids.push(kid);
                        let leaf = Node::<T> { frag: rest, value: Some(value), children: Vec::new() };
                        kids.push(leaf);
                        let junction = Node::<T> { frag: shared, value: None, children: kids };
                        node.children.push(junction);
                        proof {
                            let b = node.children@;
                            let s = shared@.len() as int;
                            assert(b =~= a.remove(i as int).push(b.last()));
                            assert(path@[s] != k.frag@[s]);
                            assert(!begins_with(path@, k.frag@));
                            assert(!begins_with(k.frag@, path@));
                            assert(Self::changed_at(a, b, i as int, path@, value));
                        }
                    },
                }
            },
        }
        proof {
            assert(Self::grown(a, node.children@, path@, value));
            if old(node).wf() {
                Self::lemma_wf_kids(*old(node));
                Self::lemma_grown(a, node.children@, path@, value);
                Self::lemma_wf_kids(*node);
            }
        }
    }

    /// Inserts `path` with `value`, or gives `path` the new value where the
    /// trie holds it already. Returns the trie itself.
    pub fn add(&mut self, path: &'static str, value: T) -> (r: &mut Node<T>)
        where T: Copy
        ensures
            *final(self) == *final(r),
            Self::added(*old(self), *r, path@, value),
            old(self).is_trie() ==> r.is_trie(),
            old(self).is_trie() && path@.len() > 0 ==> r.value_at(path@) == Some(value),
            old(self).is_trie() ==> forall|q: Seq<char>|
                q != path@ ==> #[trigger] r.value_at(q) == old(self).value_at(q),
    {
        if self.children.is_empty() {
            let new_node = Node::<T> { frag: path, value: Some(value), children: Vec::new() };
            self.children.push(new_node);
            assert(Self::none_related(old(self).children@, path@));
        } else {
            Self::add_to_node(path, value, self);
        }
        proof {
            if old(self).is_trie() {
                Self::lemma_added(*old(self), *self, path@, value);
            }
        }
        self
    }
}

} // verus!
