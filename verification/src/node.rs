//! The node type, its validity, and lookup.

use vstd::prelude::*;
use vstd::string::StrSliceExecFns;
use crate::prefix::{begins_with, related, starts_with};

verus! {

/// A node of the trie. The root of a trie has the empty fragment.
#[derive(Debug)]
pub struct Node<T> {
    /// The piece of text that this node adds to every key that passes through it.
    pub frag: &'static str,
    /// The nodes below this one, in no meaningful order.
    pub children: Vec<Node<T>>,
    /// The value of the key that ends at this node, if there is one.
    pub value: Option<T>,
}

impl<T> Node<T> {
    /// What must hold among the children of one node: no two of them share a
    /// non-empty prefix, one with an empty fragment has no children, and one
    /// without a value branches into at least two children.
    pub open spec fn siblings_ok(kids: Seq<Node<T>>) -> bool {
        &&& forall|i: int, j: int|
            0 <= i < kids.len() && 0 <= j < kids.len() && i != j ==> !related(
                #[trigger] kids[i].frag@,
                #[trigger] kids[j].frag@,
            )
        &&& forall|i: int|
            0 <= i < kids.len() && (#[trigger] kids[i]).frag@.len() == 0
                ==> kids[i].children@.len() == 0
        &&& forall|i: int|
            0 <= i < kids.len() ==> (#[trigger] kids[i]).value is Some || kids[i].children@.len()
                >= 2
    }

    /// The subtree below this node is well formed: `siblings_ok` holds of the
    /// children of every node in it.
    pub open spec fn wf(&self) -> bool
        decreases self,
    {
        &&& Self::siblings_ok(self.children@)
        &&& forall|i: int|
            0 <= i < self.children.len() ==> (#[trigger] self.children[i]).wf()
    }

    /// A valid trie: a well-formed tree whose root has the empty fragment and
    /// no value.
    pub open spec fn is_trie(&self) -> bool {
        &&& self.frag@.len() == 0
        &&& self.value is None
        &&& self.wf()
    }

    /// The node at which `path` ends when the walk starts at this node, which
    /// first consumes this node's own fragment.
    pub open spec fn node_at(&self, path: Seq<char>) -> Option<Node<T>>
        decreases self, 0nat,
    {
        if begins_with(path, self.frag@) {
            let rest = path.skip(self.frag@.len() as int);
            if rest.len() == 0 {
                Some(*self)
            } else {
                Self::first_at(self.children@, rest, 0)
            }
        } else {
            None
        }
    }

    /// The first answer that the nodes of `kids` from position `from` on give
    /// for `path`.
    pub open spec fn first_at(kids: Seq<Node<T>>, path: Seq<char>, from: int) -> Option<Node<T>>
        decreases kids, kids.len() - from,
    {
        if 0 <= from < kids.len() {
            match kids[from].node_at(path) {
                Some(n) => Some(n),
                None => Self::first_at(kids, path, from + 1),
            }
        } else {
            None
        }
    }

    /// The value stored for `path`, if any.
    pub open spec fn value_at(&self, path: Seq<char>) -> Option<T> {
        match self.node_at(path) {
            Some(n) => n.value,
            None => None,
        }
    }

    /// The value that a lookup of `path` among `kids` gives.
    pub open spec fn value_below(kids: Seq<Node<T>>, path: Seq<char>) -> Option<T> {
        match Self::first_at(kids, path, 0) {
            Some(n) => n.value,
            None => None,
        }
    }

    /// All of `kids` are well formed, and well formed as siblings.
    pub open spec fn kids_wf(kids: Seq<Node<T>>) -> bool {
        &&& Self::siblings_ok(kids)
        &&& forall|j: int| 0 <= j < kids.len() ==> (#[trigger] kids[j]).wf()
    }

    /// An empty trie.
    pub fn new() -> (r: Self)
        ensures
            r.is_trie(),
            r.children@.len() == 0,
    {
        proof {
            reveal_strlit("");
        }
        Node::<T> { frag: "", value: None, children: Vec::new() }
    }

    /// The node at which `path` ends, if the trie has one.
    pub fn find(&self, path: &'static str) -> (r: Option<&Node<T>>)
        where T: Copy
        ensures
            match r {
                Some(n) => self.node_at(path@) == Some(*n),
                None => self.node_at(path@) is None,
            },
    {
        Self::find_in_node(self, path)
    }

    /// Lookup from `current_node`, which must consume its own fragment first.
    pub fn find_in_node<'a>(current_node: &'a Node<T>, path: &'static str) -> (r: Option<&'a Node<T>>)
        where T: Copy
        ensures
            match r {
                Some(n) => current_node.node_at(path@) == Some(*n),
                None => current_node.node_at(path@) is None,
            },
        decreases current_node, 1nat,
    {
        if starts_with(path, current_node.frag) {
            let consumed: usize = current_node.frag.unicode_len();
            let total: usize = path.unicode_len();
            if total > consumed {
                let striped_path = path.substring_char(consumed, total);
                assert(striped_path@ =~= path@.skip(consumed as int));
                Self::find_in_children(current_node, striped_path)
            } else {
                Some(current_node)
            }
        } else {
            None
        }
    }

    /// The first match for `path` among the children of `node`.
    pub fn find_in_children<'a>(node: &'a Node<T>, path: &'static str) -> (r: Option<&'a Node<T>>)
        where T: Copy
        ensures
            match r {
                Some(n) => Self::first_at(node.children@, path@, 0) == Some(*n),
                None => Self::first_at(node.children@, path@, 0) is None,
            },
        decreases node, 0nat,
    {
        let n: usize = node.children.len();
        let mut i: usize = 0;
        while i < n
            invariant
                i <= n,
                n == node.children@.len(),
                Self::first_at(node.children@, path@, 0) == Self::first_at(
                    node.children@,
                    path@,
                    i as int,
                ),
            decreases n - i,
        {
            let found = Self::find_in_node(&node.children[i], path);
            if found.is_some() {
                return found;
            }
            i += 1;
        }
        None
    }
}

impl<T> Default for Node<T> {
    /// An empty trie.
    fn default() -> (r: Self)
        ensures
            r.is_trie(),
            r.children@.len() == 0,
    {
        Node::<T>::new()
    }
}

/// An empty trie.
pub fn new_trie<T>() -> (r: Node<T>)
    ensures
        r.is_trie(),
        r.children@.len() == 0,
{
    Node::<T>::new()
}

} // verus!
