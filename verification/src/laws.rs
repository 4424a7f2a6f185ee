//! What holds of every trie, stated over `added`, the relation between a trie
//! before and after an insertion that `Node::add` guarantees, and `value_at`,
//! the value of the node that `Node::find` returns.

use vstd::prelude::*;
use crate::node::Node;
use crate::prefix::related;

verus! {

impl<T> Node<T> {
    /// An empty trie holds no value, whatever the key.
    pub proof fn lemma_empty_holds_nothing(t: Node<T>, q: Seq<char>)
        requires
            t.is_trie(),
            t.children@.len() == 0,
        ensures
            t.value_at(q) is None,
    {
        Self::lemma_root_lookup(t, q);
    }

    /// Round trip: after a non-empty key was inserted with a value, the lookup
    /// of that key gives that value.
    pub proof fn lemma_round_trip(pre: Node<T>, post: Node<T>, k: Seq<char>, v: T)
        requires
            pre.is_trie(),
            Self::added(pre, post, k, v),
            k.len() > 0,
        ensures
            post.is_trie(),
            post.value_at(k) == Some(v),
    {
        Self::lemma_added(pre, post, k, v);
    }

    /// An insertion changes the value of no key but its own.
    pub proof fn lemma_other_keys_kept(
        pre: Node<T>,
        post: Node<T>,
        k: Seq<char>,
        v: T,
        q: Seq<char>,
    )
        requires
            pre.is_trie(),
            Self::added(pre, post, k, v),
            q != k,
        ensures
            post.value_at(q) == pre.value_at(q),
    {
        Self::lemma_added(pre, post, k, v);
    }

    /// Overwrite: after a non-empty key was inserted twice, its lookup gives
    /// the second value, and the second insertion changed the value of no
    /// other key and created no node.
    pub proof fn lemma_overwrite(
        t0: Node<T>,
        t1: Node<T>,
        t2: Node<T>,
        k: Seq<char>,
        v1: T,
        v2: T,
    )
        requires
            t0.is_trie(),
            Self::added(t0, t1, k, v1),
            Self::added(t1, t2, k, v2),
            k.len() > 0,
        ensures
            t2.value_at(k) == Some(v2),
            forall|q: Seq<char>| q != k ==> #[trigger] t2.value_at(q) == t1.value_at(q),
            t2.size() == t1.size(),
    {
        Self::lemma_added(t0, t1, k, v1);
        Self::lemma_added(t1, t2, k, v2);
        Self::lemma_stored_key_adds_no_node(t1, t2, k, v2);
    }

    /// Inserting a non-empty key that has a value already creates no node.
    pub proof fn lemma_stored_key_adds_no_node(pre: Node<T>, post: Node<T>, k: Seq<char>, v: T)
        requires
            pre.is_trie(),
            pre.value_at(k) is Some,
            k.len() > 0,
            Self::added(pre, post, k, v),
        ensures
            post.size() == pre.size(),
    {
        Self::lemma_wf_kids(pre);
        Self::lemma_root_lookup(pre, k);
        Self::lemma_grown_same_size(pre.children@, post.children@, k, v);
    }

    /// Absence: where the lookup of a non-empty key finds a node without a
    /// value, that node is a junction, with at least two children. So a key
    /// without a value is either not found at all, or ends where two or more
    /// longer keys part.
    pub proof fn lemma_found_without_value_is_junction(t: Node<T>, q: Seq<char>)
        requires
            t.is_trie(),
            q.len() > 0,
            t.node_at(q) is Some,
            t.value_at(q) is None,
        ensures
            t.node_at(q)->0.children@.len() >= 2,
    {
        Self::lemma_wf_kids(t);
        assert(q.skip(0) =~= q);
        Self::lemma_found_below(t.children@, q, 0);
    }

    /// A key that shares no prefix with any child of the root, put into a
    /// trie, becomes a new leaf at the end of the root's children, which are
    /// otherwise as they were.
    pub proof fn lemma_unrelated_key_becomes_leaf(pre: Node<T>, post: Node<T>, k: Seq<char>, v: T)
        requires
            Self::none_related(pre.children@, k),
            Self::added(pre, post, k, v),
        ensures
            post.children@.len() == pre.children@.len() + 1,
            post.children@.drop_last() == pre.children@,
            post.children@.last().is_leaf(k, v),
    {
        assert(post.children@.drop_last() =~= pre.children@);
    }

    /// A non-empty key that shares no prefix with the fragment of any child of
    /// the root ends at no node.
    pub proof fn lemma_unrelated_key_not_found(t: Node<T>, q: Seq<char>)
        requires
            t.is_trie(),
            q.len() > 0,
            Self::none_related(t.children@, q),
        ensures
            t.node_at(q) is None,
    {
        Self::lemma_wf_kids(t);
        Self::lemma_first_at_related(t.children@, q);
        assert(q.skip(0) =~= q);
    }

    /// Prefix independence: two keys that share no prefix, inserted one after
    /// the other into an empty trie, end up as two leaves side by side below
    /// the root, each with its own key and value.
    pub proof fn lemma_unrelated_keys_side_by_side(
        t0: Node<T>,
        t1: Node<T>,
        t2: Node<T>,
        k1: Seq<char>,
        v1: T,
        k2: Seq<char>,
        v2: T,
    )
        requires
            t0.children@.len() == 0,
            Self::added(t0, t1, k1, v1),
            Self::added(t1, t2, k2, v2),
            !related(k1, k2),
        ensures
            t2.children@.len() == 2,
            t2.children@[0].is_leaf(k1, v1),
            t2.children@[1].is_leaf(k2, v2),
    {
        assert(Self::none_related(t0.children@, k1));
        assert(t1.children@.len() == 1);
        assert(!related(k2, t1.children@[0].frag@));
        assert(Self::none_related(t1.children@, k2));
        assert(t2.children@[0] == t1.children@[0]);
    }

    /// `tries` are the states of one trie that starts empty and takes in the
    /// key `keys[i]` with the value `vals[i]` at step `i`.
    pub open spec fn is_history(
        tries: Seq<Node<T>>,
        keys: Seq<Seq<char>>,
        vals: Seq<T>,
    ) -> bool {
        &&& tries.len() == keys.len() + 1
        &&& vals.len() == keys.len()
        &&& tries[0].is_trie()
        &&& tries[0].children@.len() == 0
        &&& forall|i: int|
            0 <= i < keys.len() ==> Self::added(#[trigger] tries[i], tries[i + 1], keys[i], vals[i])
    }

    /// After any number of insertions into an empty trie, the lookup of a
    /// non-empty key gives the value of its last insertion, and a key that was
    /// never inserted has no value.
    pub proof fn lemma_history(tries: Seq<Node<T>>, keys: Seq<Seq<char>>, vals: Seq<T>, n: int)
        requires
            Self::is_history(tries, keys, vals),
            0 <= n <= keys.len(),
        ensures
            tries[n].is_trie(),
            forall|i: int|
                0 <= i < n && (#[trigger] keys[i]).len() > 0 && (forall|j: int|
                    i < j < n ==> #[trigger] keys[j] != keys[i]) ==> tries[n].value_at(keys[i])
                    == Some(vals[i]),
            forall|q: Seq<char>|
                (forall|i: int| 0 <= i < n ==> #[trigger] keys[i] != q) ==> (
                #[trigger] tries[n].value_at(q)) is None,
        decreases n,
    {
        if n == 0 {
            assert forall|q: Seq<char>| (#[trigger] tries[0].value_at(q)) is None by {
                Self::lemma_empty_holds_nothing(tries[0], q);
            }
        } else {
            let m = n - 1;
            Self::lemma_history(tries, keys, vals, m);
            assert(Self::added(tries[m], tries[m + 1], keys[m], vals[m]));
            Self::lemma_added(tries[m], tries[n], keys[m], vals[m]);
            assert forall|i: int|
                0 <= i < n && (#[trigger] keys[i]).len() > 0 && (forall|j: int|
                    i < j < n ==> #[trigger] keys[j] != keys[i]) implies tries[n].value_at(keys[i])
                == Some(vals[i]) by {
                if i < m {
                    assert(keys[m] != keys[i]);
                    assert(tries[n].value_at(keys[i]) == tries[m].value_at(keys[i]));
                }
            }
            assert forall|q: Seq<char>|
                (forall|i: int| 0 <= i < n ==> #[trigger] keys[i] != q) implies (
            #[trigger] tries[n].value_at(q)) is None by {
                assert(keys[m] != q);
                assert(tries[n].value_at(q) == tries[m].value_at(q));
            }
        }
    }
}

} // verus!
