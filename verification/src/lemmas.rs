//! Facts about lookup among siblings, and about what each way of changing a
//! child does to the keys below its parent.

use vstd::prelude::*;
use crate::node::Node;
use crate::prefix::{begins_with, is_shared_len, related};

verus! {

impl<T> Node<T> {
    /// Where no node from `from` on answers, the lookup among `kids` fails.
    pub proof fn lemma_first_at_none(kids: Seq<Node<T>>, q: Seq<char>, from: int)
        requires
            0 <= from,
            forall|j: int| from <= j < kids.len() ==> (#[trigger] kids[j]).node_at(q) is None,
        ensures
            Self::first_at(kids, q, from) is None,
        decreases kids.len() - from,
    {
        if from < kids.len() {
            Self::lemma_first_at_none(kids, q, from + 1);
        }
    }

    /// Where only the node at `i` can answer, the lookup among `kids` gives its answer.
    pub proof fn lemma_first_at_sole(kids: Seq<Node<T>>, q: Seq<char>, i: int, from: int)
        requires
            0 <= from <= i < kids.len(),
            forall|j: int|
                from <= j < kids.len() && j != i ==> (#[trigger] kids[j]).node_at(q) is None,
        ensures
            Self::first_at(kids, q, from) == kids[i].node_at(q),
        decreases kids.len() - from,
    {
        if from < i {
            Self::lemma_first_at_sole(kids, q, i, from + 1);
        } else {
            Self::lemma_first_at_none(kids, q, from + 1);
        }
    }

    /// A node whose fragment shares no prefix with a non-empty `q` has no
    /// answer for it, provided that with an empty fragment it has no children.
    pub proof fn lemma_unrelated_none(kid: Node<T>, q: Seq<char>)
        requires
            q.len() > 0,
            !related(q, kid.frag@),
            kid.frag@.len() == 0 ==> kid.children@.len() == 0,
        ensures
            kid.node_at(q) is None,
    {
        if kid.frag@.len() == 0 {
            assert(q.skip(0) =~= q);
        }
    }

    /// Among well-formed siblings, the lookup of a non-empty `q` is decided by
    /// the one sibling whose fragment shares a prefix with `q`.
    pub proof fn lemma_first_at_related(kids: Seq<Node<T>>, q: Seq<char>)
        requires
            Self::siblings_ok(kids),
            q.len() > 0,
        ensures
            forall|j: int|
                0 <= j < kids.len() && related(q, (#[trigger] kids[j]).frag@) ==> Self::first_at(
                    kids,
                    q,
                    0,
                ) == kids[j].node_at(q),
            (forall|j: int| 0 <= j < kids.len() ==> !related(q, (#[trigger] kids[j]).frag@))
                ==> Self::first_at(kids, q, 0) is None,
    {
        assert forall|j: int| 0 <= j < kids.len() && related(q, (#[trigger] kids[j]).frag@) implies
            Self::first_at(kids, q, 0) == kids[j].node_at(q) by {
            assert forall|k: int| 0 <= k < kids.len() && k != j implies (#[trigger] kids[k]).node_at(
                q,
            ) is None by {
                assert(!related(kids[k].frag@, kids[j].frag@));
                Self::lemma_unrelated_none(kids[k], q);
            }
            Self::lemma_first_at_sole(kids, q, j, 0);
        }
        if forall|j: int| 0 <= j < kids.len() ==> !related(q, (#[trigger] kids[j]).frag@) {
            assert forall|k: int| 0 <= k < kids.len() implies (#[trigger] kids[k]).node_at(
                q,
            ) is None by {
                Self::lemma_unrelated_none(kids[k], q);
            }
            Self::lemma_first_at_none(kids, q, 0);
        }
    }

    /// Siblings stay well formed when one more is added that shares no
    /// prefix with any of them.
    pub proof fn lemma_siblings_push(a: Seq<Node<T>>, k2: Node<T>)
        requires
            Self::siblings_ok(a),
            forall|j: int| 0 <= j < a.len() ==> !related(k2.frag@, (#[trigger] a[j]).frag@),
            k2.frag@.len() == 0 ==> k2.children@.len() == 0,
            k2.value is Some || k2.children@.len() >= 2,
        ensures
            Self::siblings_ok(a.push(k2)),
    {
        let b = a.push(k2);
        assert forall|i: int, j: int|
            0 <= i < b.len() && 0 <= j < b.len() && i != j implies !related(
            #[trigger] b[i].frag@,
            #[trigger] b[j].frag@,
        ) by {
            if i < a.len() && j < a.len() {
                assert(!related(a[i].frag@, a[j].frag@));
            } else if i < a.len() {
                assert(!related(k2.frag@, a[i].frag@));
            } else {
                assert(!related(k2.frag@, a[j].frag@));
            }
        }
    }

    /// Siblings stay well formed when one of them is taken out.
    pub proof fn lemma_siblings_remove(a: Seq<Node<T>>, i: int)
        requires
            Self::siblings_ok(a),
            0 <= i < a.len(),
        ensures
            Self::siblings_ok(a.remove(i)),
            forall|j: int| 0 <= j < a.len() - 1 ==> !related(a[i].frag@, (#[trigger] a.remove(i)[j]).frag@),
    {
        let b = a.remove(i);
        assert forall|x: int, y: int|
            0 <= x < b.len() && 0 <= y < b.len() && x != y implies !related(
            #[trigger] b[x].frag@,
            #[trigger] b[y].frag@,
        ) by {
            let xa = if x < i { x } else { x + 1 };
            let ya = if y < i { y } else { y + 1 };
            assert(!related(a[xa].frag@, a[ya].frag@));
        }
        assert forall|x: int| 0 <= x < b.len() && (#[trigger] b[x]).frag@.len() == 0 implies b[x].children@.len() == 0 by {
            let xa = if x < i { x } else { x + 1 };
            assert(b[x] == a[xa]);
        }
        assert forall|x: int| 0 <= x < b.len() implies (#[trigger] b[x]).value is Some || b[x].children@.len() >= 2 by {
            let xa = if x < i { x } else { x + 1 };
            assert(b[x] == a[xa]);
        }
        assert forall|j: int| 0 <= j < a.len() - 1 implies !related(a[i].frag@, (#[trigger] b[j]).frag@) by {
            let ja = if j < i { j } else { j + 1 };
            assert(!related(a[i].frag@, a[ja].frag@));
        }
    }

    /// Siblings stay well formed when one of them is replaced, in its place,
    /// by a node whose fragment starts with the same character.
    pub proof fn lemma_siblings_update(a: Seq<Node<T>>, i: int, k2: Node<T>)
        requires
            Self::siblings_ok(a),
            0 <= i < a.len(),
            related(k2.frag@, a[i].frag@),
            k2.value is Some || k2.children@.len() >= 2,
        ensures
            Self::siblings_ok(a.update(i, k2)),
    {
        let b = a.update(i, k2);
        assert forall|x: int, y: int|
            0 <= x < b.len() && 0 <= y < b.len() && x != y implies !related(
            #[trigger] b[x].frag@,
            #[trigger] b[y].frag@,
        ) by {
            assert(!related(a[x].frag@, a[y].frag@));
        }
        assert forall|x: int| 0 <= x < b.len() && (#[trigger] b[x]).frag@.len() == 0 implies b[x].children@.len() == 0 by {
            assert(b[x] == a[x]);
        }
        assert forall|x: int| 0 <= x < b.len() implies (#[trigger] b[x]).value is Some || b[x].children@.len() >= 2 by {
            if x != i {
                assert(b[x] == a[x]);
            }
        }
    }

    /// What a lookup among siblings gives after one of them was replaced in
    /// its place by a node whose fragment starts with the same character.
    pub proof fn lemma_lookup_update(a: Seq<Node<T>>, i: int, k2: Node<T>, q: Seq<char>)
        requires
            Self::siblings_ok(a),
            Self::siblings_ok(a.update(i, k2)),
            0 <= i < a.len(),
            related(k2.frag@, a[i].frag@),
            q.len() > 0,
        ensures
            related(q, a[i].frag@) ==> Self::first_at(a, q, 0) == a[i].node_at(q)
                && Self::first_at(a.update(i, k2), q, 0) == k2.node_at(q),
            !related(q, a[i].frag@) ==> Self::first_at(a.update(i, k2), q, 0) == Self::first_at(
                a,
                q,
                0,
            ),
    {
        let b = a.update(i, k2);
        Self::lemma_first_at_related(a, q);
        Self::lemma_first_at_related(b, q);
        if related(q, a[i].frag@) {
            assert(related(q, b[i].frag@));
        } else {
            if exists|j: int| 0 <= j < a.len() && related(q, (#[trigger] a[j]).frag@) {
                let j = choose|j: int| 0 <= j < a.len() && related(q, (#[trigger] a[j]).frag@);
                assert(b[j] == a[j]);
                assert(related(q, b[j].frag@));
            } else {
                assert forall|j: int| 0 <= j < b.len() implies !related(q, (#[trigger] b[j]).frag@) by {
                    if j != i {
                        assert(b[j] == a[j]);
                    }
                }
            }
        }
    }

    /// What a lookup among siblings gives after one of them was taken out and
    /// a node whose fragment starts with the same character was put at the end.
    pub proof fn lemma_lookup_moved(a: Seq<Node<T>>, i: int, k2: Node<T>, q: Seq<char>)
        requires
            Self::siblings_ok(a),
            Self::siblings_ok(a.remove(i).push(k2)),
            0 <= i < a.len(),
            related(k2.frag@, a[i].frag@),
            q.len() > 0,
        ensures
            related(q, a[i].frag@) ==> Self::first_at(a, q, 0) == a[i].node_at(q)
                && Self::first_at(a.remove(i).push(k2), q, 0) == k2.node_at(q),
            !related(q, a[i].frag@) ==> Self::first_at(a.remove(i).push(k2), q, 0)
                == Self::first_at(a, q, 0),
    {
        let b = a.remove(i).push(k2);
        let last = a.len() - 1;
        assert(b[last] == k2);
        Self::lemma_first_at_related(a, q);
        Self::lemma_first_at_related(b, q);
        if related(q, a[i].frag@) {
            assert(related(q, b[last].frag@));
        } else {
            if exists|j: int| 0 <= j < a.len() && related(q, (#[trigger] a[j]).frag@) {
                let j = choose|j: int| 0 <= j < a.len() && related(q, (#[trigger] a[j]).frag@);
                let jb = if j < i { j } else { j - 1 };
                assert(b[jb] == a[j]);
                assert(related(q, b[jb].frag@));
            } else {
                assert forall|j: int| 0 <= j < b.len() implies !related(q, (#[trigger] b[j]).frag@) by {
                    if j < last {
                        let ja = if j < i { j } else { j + 1 };
                        assert(b[j] == a[ja]);
                    }
                }
            }
        }
    }

    /// Overwriting the value of a node changes the answer for the key that
    /// ends at it, and for no other key.
    pub proof fn lemma_overwritten(k: Node<T>, k2: Node<T>, q: Seq<char>, v: T)
        requires
            k2.frag@ == k.frag@,
            k2.children@ == k.children@,
            k2.value == Some(v),
        ensures
            q == k.frag@ ==> k2.value_at(q) == Some(v),
            q != k.frag@ ==> k2.value_at(q) == k.value_at(q),
    {
        let n = k.frag@.len() as int;
        if q == k.frag@ {
            assert(q.skip(n).len() == 0);
        } else if begins_with(q, k.frag@) {
            if q.skip(n).len() == 0 {
                assert(q =~= k.frag@);
            }
        }
    }

    /// Adding a key below a node changes, among the keys that pass through
    /// that node, the answer for that key alone.
    pub proof fn lemma_descended(k: Node<T>, k2: Node<T>, path: Seq<char>, q: Seq<char>, v: T)
        requires
            k2.frag@ == k.frag@,
            k2.value == k.value,
            begins_with(path, k.frag@),
            path.len() > k.frag@.len(),
            Self::value_below(k2.children@, path.skip(k.frag@.len() as int)) == Some(v),
            forall|r: Seq<char>|
                r.len() > 0 && r != path.skip(k.frag@.len() as int) ==> #[trigger] Self::value_below(
                    k2.children@,
                    r,
                ) == Self::value_below(k.children@, r),
        ensures
            q == path ==> k2.value_at(q) == Some(v),
            q != path ==> k2.value_at(q) == k.value_at(q),
    {
        let n = k.frag@.len() as int;
        let rest = path.skip(n);
        if q != path && begins_with(q, k.frag@) {
            let r = q.skip(n);
            if r.len() > 0 {
                if r == rest {
                    assert forall|x: int| 0 <= x < q.len() implies q[x] == path[x] by {
                        if x >= n {
                            assert(q[x] == r[x - n]);
                            assert(path[x] == rest[x - n]);
                        }
                    }
                    assert(q =~= path);
                }
                assert(Self::value_below(k2.children@, r) == Self::value_below(k.children@, r));
            }
        }
    }

    /// Putting a new node with the key `path` above a node whose fragment
    /// starts with all of `path`, and cutting `path` off that fragment,
    /// changes the answer for `path` alone.
    pub proof fn lemma_wrapped(
        k: Node<T>,
        ks: Node<T>,
        n2: Node<T>,
        path: Seq<char>,
        q: Seq<char>,
        v: T,
    )
        requires
            path.len() > 0,
            begins_with(k.frag@, path),
            path.len() < k.frag@.len(),
            ks.frag@ == k.frag@.skip(path.len() as int),
            ks.children@ == k.children@,
            ks.value == k.value,
            n2.frag@ == path,
            n2.value == Some(v),
            n2.children@ == seq![ks],
            q.len() > 0,
        ensures
            q == path ==> n2.value_at(q) == Some(v),
            q != path ==> n2.value_at(q) == k.value_at(q),
    {
        let n = path.len() as int;
        let m = k.frag@.len() as int;
        if q == path {
            assert(q.skip(n).len() == 0);
        } else if begins_with(q, path) {
            let r = q.skip(n);
            if r.len() == 0 {
                assert(q =~= path);
            }
            assert(Self::first_at(n2.children@, r, 1) is None);
            assert(Self::first_at(n2.children@, r, 0) == match ks.node_at(r) {
                Some(x) => Some(x),
                None => None,
            });
            if begins_with(q, k.frag@) {
                assert forall|x: int| 0 <= x < ks.frag@.len() implies r[x] == ks.frag@[x] by {
                    assert(r[x] == q[x + n]);
                    assert(ks.frag@[x] == k.frag@[x + n]);
                }
                assert(begins_with(r, ks.frag@));
                assert(r.skip(m - n) =~= q.skip(m));
            } else {
                if begins_with(r, ks.frag@) {
                    assert forall|x: int| 0 <= x < m implies q[x] == k.frag@[x] by {
                        if x >= n {
                            assert(q[x] == r[x - n]);
                            assert(k.frag@[x] == ks.frag@[x - n]);
                        }
                    }
                }
                assert(!begins_with(r, ks.frag@));
            }
        } else {
            assert(!begins_with(q, k.frag@)) by {
                if begins_with(q, k.frag@) {
                    assert forall|x: int| 0 <= x < n implies q[x] == path[x] by {
                        assert(q[x] == k.frag@[x]);
                    }
                }
            }
        }
    }

    /// Replacing a node by a junction that holds that node, cut short by the
    /// shared prefix, and a new leaf for the rest of `path`, changes the answer
    /// for `path` alone.
    pub proof fn lemma_forked(
        k: Node<T>,
        ks: Node<T>,
        leaf: Node<T>,
        n2: Node<T>,
        s: int,
        path: Seq<char>,
        q: Seq<char>,
        v: T,
    )
        requires
            is_shared_len(path, k.frag@, s),
            0 < s < path.len(),
            s < k.frag@.len(),
            ks.frag@ == k.frag@.skip(s),
            ks.children@ == k.children@,
            ks.value == k.value,
            leaf.is_leaf(path.skip(s), v),
            n2.frag@ == path.take(s),
            n2.value is None,
            n2.children@ == seq![ks, leaf],
            q.len() > 0,
        ensures
            q == path ==> n2.value_at(q) == Some(v),
            q != path ==> n2.value_at(q) == k.value_at(q),
    {
        let m = k.frag@.len() as int;
        let kids = n2.children@;
        let pr = path.skip(s);
        if begins_with(q, n2.frag@) {
            let r = q.skip(s);
            if r.len() > 0 {
                assert(Self::first_at(kids, r, 2) is None);
                assert(Self::first_at(kids, r, 1) == match leaf.node_at(r) {
                    Some(x) => Some(x),
                    None => None,
                });
                assert(Self::first_at(kids, r, 0) == match ks.node_at(r) {
                    Some(x) => Some(x),
                    None => Self::first_at(kids, r, 1),
                });
                if q == path {
                    assert(r[0] == path[s]);
                    assert(ks.frag@[0] == k.frag@[s]);
                    assert(!begins_with(r, ks.frag@));
                    assert(r.skip(pr.len() as int).len() == 0);
                } else {
                    // the leaf answers for the rest of `path` only
                    if begins_with(r, pr) {
                        if r.skip(pr.len() as int).len() == 0 {
                            assert forall|x: int| 0 <= x < q.len() implies q[x] == path[x] by {
                                if x >= s {
                                    assert(q[x] == r[x - s]);
                                    assert(path[x] == pr[x - s]);
                                } else {
                                    assert(q[x] == n2.frag@[x]);
                                }
                            }
                            assert(q =~= path);
                        }
                        assert(Self::first_at(leaf.children@, r.skip(pr.len() as int), 0) is None);
                    }
                    assert(leaf.node_at(r) is None);
                    if begins_with(q, k.frag@) {
                        assert forall|x: int| 0 <= x < ks.frag@.len() implies r[x] == ks.frag@[x] by {
                            assert(r[x] == q[x + s]);
                            assert(ks.frag@[x] == k.frag@[x + s]);
                        }
                        assert(begins_with(r, ks.frag@));
                        assert(r.skip(m - s) =~= q.skip(m));
                    } else {
                        if begins_with(r, ks.frag@) {
                            assert forall|x: int| 0 <= x < m implies q[x] == k.frag@[x] by {
                                if x >= s {
                                    assert(q[x] == r[x - s]);
                                    assert(k.frag@[x] == ks.frag@[x - s]);
                                } else {
                                    assert(q[x] == n2.frag@[x]);
                                }
                            }
                        }
                        assert(!begins_with(r, ks.frag@));
                    }
                }
            } else {
                assert(q.len() == s);
                assert(!begins_with(q, k.frag@));
            }
        } else {
            assert(q != path);
            assert(!begins_with(q, k.frag@)) by {
                if begins_with(q, k.frag@) {
                    assert forall|x: int| 0 <= x < s implies q[x] == n2.frag@[x] by {
                        assert(q[x] == k.frag@[x]);
                    }
                }
            }
        }
    }

    /// Adding a leaf for `path` beside siblings that share no prefix with
    /// `path` changes the answer for `path` alone.
    pub proof fn lemma_pushed_leaf(a: Seq<Node<T>>, leaf: Node<T>, path: Seq<char>, q: Seq<char>, v: T)
        requires
            Self::siblings_ok(a),
            Self::siblings_ok(a.push(leaf)),
            forall|j: int| 0 <= j < a.len() ==> !related(path, (#[trigger] a[j]).frag@),
            leaf.is_leaf(path, v),
            q.len() > 0,
        ensures
            q == path ==> Self::value_below(a.push(leaf), q) == Some(v),
            q != path ==> Self::value_below(a.push(leaf), q) == Self::value_below(a, q),
    {
        let b = a.push(leaf);
        let last = a.len() as int;
        assert(b[last] == leaf);
        Self::lemma_first_at_related(a, q);
        Self::lemma_first_at_related(b, q);
        if q == path {
            assert(related(q, b[last].frag@));
            assert(q.skip(path.len() as int).len() == 0);
        } else {
            assert(leaf.node_at(q) is None) by {
                if begins_with(q, path) {
                    if q.skip(path.len() as int).len() == 0 {
                        assert(q =~= path);
                    }
                }
            }
            if exists|j: int| 0 <= j < a.len() && related(q, (#[trigger] a[j]).frag@) {
                let j = choose|j: int| 0 <= j < a.len() && related(q, (#[trigger] a[j]).frag@);
                assert(b[j] == a[j]);
                assert(related(q, b[j].frag@));
            } else {
                if related(q, leaf.frag@) {
                    assert(related(q, b[last].frag@));
                } else {
                    assert forall|j: int| 0 <= j < b.len() implies !related(q, (#[trigger] b[j]).frag@) by {
                        if j < last {
                            assert(b[j] == a[j]);
                        }
                    }
                }
            }
        }
    }

    /// Every sibling is well formed after one of them was taken out and a
    /// well-formed node was put at the end.
    pub proof fn lemma_wf_moved(a: Seq<Node<T>>, i: int, k2: Node<T>)
        requires
            0 <= i < a.len(),
            forall|j: int| 0 <= j < a.len() ==> (#[trigger] a[j]).wf(),
            k2.wf(),
        ensures
            forall|j: int| 0 <= j < a.len() ==> (#[trigger] a.remove(i).push(k2)[j]).wf(),
    {
        let b = a.remove(i).push(k2);
        assert forall|j: int| 0 <= j < a.len() implies (#[trigger] b[j]).wf() by {
            if j < a.len() - 1 {
                let ja = if j < i { j } else { j + 1 };
                assert(b[j] == a[ja]);
            }
        }
    }

    /// Insertion keeps siblings well formed, makes the lookup of `path` among
    /// them give `v`, and leaves the value found for every other non-empty key
    /// as it was.
    pub proof fn lemma_grown(a: Seq<Node<T>>, b: Seq<Node<T>>, path: Seq<char>, v: T)
        requires
            Self::kids_wf(a),
            Self::grown(a, b, path, v),
        ensures
            Self::kids_wf(b),
            b.len() >= a.len(),
            path.len() > 0 ==> Self::value_below(b, path) == Some(v),
            forall|q: Seq<char>|
                q.len() > 0 && q != path ==> #[trigger] Self::value_below(b, q)
                    == Self::value_below(a, q),
        decreases path.len(),
    {
        if Self::none_related(a, path) {
            let leaf = b.last();
            Self::lemma_siblings_push(a, leaf);
            assert(leaf.wf());
            assert forall|j: int| 0 <= j < b.len() implies (#[trigger] b[j]).wf() by {
                if j < a.len() {
                    assert(b[j] == a[j]);
                }
            }
            assert forall|q: Seq<char>| q.len() > 0 implies (if q == path {
                Self::value_below(b, q) == Some(v)
            } else {
                #[trigger] Self::value_below(b, q) == Self::value_below(a, q)
            }) by {
                Self::lemma_pushed_leaf(a, leaf, path, q, v);
            }
        } else {
            let i = choose|i: int|
                #[trigger] Self::is_first_related(a, path, i) && Self::changed_at(a, b, i, path, v);
            let k = a[i];
            assert(k.wf());
            if path =~= k.frag@ || (begins_with(path, k.frag@) && k.frag@.len() > 0) {
                let k2 = b[i];
                if path =~= k.frag@ {
                    assert(k2.wf());
                } else {
                    let rest = path.skip(k.frag@.len() as int);
                    Self::lemma_grown(k.children@, k2.children@, rest, v);
                    assert(k2.wf());
                }
                Self::lemma_siblings_update(a, i, k2);
                assert forall|j: int| 0 <= j < b.len() implies (#[trigger] b[j]).wf() by {
                    if j != i {
                        assert(b[j] == a[j]);
                    }
                }
                assert forall|q: Seq<char>| q.len() > 0 implies (if q == path {
                    Self::value_below(b, q) == Some(v)
                } else {
                    #[trigger] Self::value_below(b, q) == Self::value_below(a, q)
                }) by {
                    Self::lemma_lookup_update(a, i, k2, q);
                    if path =~= k.frag@ {
                        Self::lemma_overwritten(k, k2, q, v);
                    } else {
                        Self::lemma_descended(k, k2, path, q, v);
                    }
                }
            } else {
                let n2 = b.last();
                let s = n2.frag@.len() as int;
                let ks = n2.children@[0];
                assert(ks.wf());
                if begins_with(k.frag@, path) {
                    assert(n2.children@ =~= seq![ks]);
                } else {
                    let leaf = n2.children@[1];
                    assert(n2.children@ =~= seq![ks, leaf]);
                    assert(leaf.wf());
                    assert(ks.frag@[0] == k.frag@[s]);
                    assert(leaf.frag@[0] == path[s]);
                }
                assert(n2.wf());
                Self::lemma_siblings_remove(a, i);
                Self::lemma_siblings_push(a.remove(i), n2);
                Self::lemma_wf_moved(a, i, n2);
                assert forall|q: Seq<char>| q.len() > 0 implies (if q == path {
                    Self::value_below(b, q) == Some(v)
                } else {
                    #[trigger] Self::value_below(b, q) == Self::value_below(a, q)
                }) by {
                    Self::lemma_lookup_moved(a, i, n2, q);
                    if begins_with(k.frag@, path) {
                        Self::lemma_wrapped(k, ks, n2, path, q, v);
                    } else {
                        Self::lemma_forked(k, ks, n2.children@[1], n2, s, path, q, v);
                    }
                }
            }
        }
    }

    /// A node is well formed exactly when its children are.
    pub proof fn lemma_wf_kids(n: Node<T>)
        ensures
            n.wf() <==> Self::kids_wf(n.children@),
    {
    }

    /// A lookup from the root of a trie consumes nothing at the root: for the
    /// empty key it gives the value of the root, for any other key what the
    /// children give.
    pub proof fn lemma_root_lookup(t: Node<T>, q: Seq<char>)
        requires
            t.frag@.len() == 0,
        ensures
            q.len() == 0 ==> t.value_at(q) == t.value,
            q.len() > 0 ==> t.value_at(q) == Self::value_below(t.children@, q),
    {
        assert(q.skip(0) =~= q);
    }

    /// Insertion into a trie gives a trie in which `path`, unless it is empty,
    /// has the value `v`, and every other key the value it had.
    pub proof fn lemma_added(pre: Node<T>, post: Node<T>, path: Seq<char>, v: T)
        requires
            pre.is_trie(),
            Self::added(pre, post, path, v),
        ensures
            post.is_trie(),
            path.len() > 0 ==> post.value_at(path) == Some(v),
            forall|q: Seq<char>| q != path ==> #[trigger] post.value_at(q) == pre.value_at(q),
    {
        Self::lemma_wf_kids(pre);
        Self::lemma_grown(pre.children@, post.children@, path, v);
        Self::lemma_wf_kids(post);
        Self::lemma_root_lookup(post, path);
        assert forall|q: Seq<char>| q != path implies #[trigger] post.value_at(q) == pre.value_at(
            q,
        ) by {
            Self::lemma_root_lookup(post, q);
            Self::lemma_root_lookup(pre, q);
            if q.len() > 0 {
                assert(Self::value_below(post.children@, q) == Self::value_below(pre.children@, q));
            }
        }
    }

    /// Replacing a sibling by a node of the same size keeps the size of the whole.
    pub proof fn lemma_size_update(a: Seq<Node<T>>, i: int, k2: Node<T>, from: int)
        requires
            0 <= i < a.len(),
            0 <= from,
            k2.size() == a[i].size(),
        ensures
            Self::size_from(a.update(i, k2), from) == Self::size_from(a, from),
        decreases a.len() - from,
    {
        if from < a.len() {
            Self::lemma_size_update(a, i, k2, from + 1);
        }
    }

    /// Inserting a key that has a value already adds no node.
    pub proof fn lemma_grown_same_size(a: Seq<Node<T>>, b: Seq<Node<T>>, path: Seq<char>, v: T)
        requires
            Self::kids_wf(a),
            path.len() > 0,
            Self::value_below(a, path) is Some,
            Self::grown(a, b, path, v),
        ensures
            Self::size_from(b, 0) == Self::size_from(a, 0),
        decreases path.len(),
    {
        Self::lemma_first_at_related(a, path);
        let i = choose|i: int|
            #[trigger] Self::is_first_related(a, path, i) && Self::changed_at(a, b, i, path, v);
        let k = a[i];
        let k2 = b[i];
        assert(Self::first_at(a, path, 0) == k.node_at(path));
        assert(k.wf());
        if !(path =~= k.frag@) {
            let rest = path.skip(k.frag@.len() as int);
            if rest.len() == 0 {
                assert(path =~= k.frag@);
            }
            Self::lemma_grown_same_size(k.children@, k2.children@, rest, v);
        }
        assert(k2.size() == k.size());
        Self::lemma_size_update(a, i, k2, 0);
    }

    /// A node found among well-formed siblings holds a value or has at least
    /// two children.
    pub proof fn lemma_found_below(kids: Seq<Node<T>>, q: Seq<char>, from: int)
        requires
            Self::kids_wf(kids),
            0 <= from,
            Self::first_at(kids, q, from) is Some,
        ensures
            ({
                let n = Self::first_at(kids, q, from)->0;
                n.value is Some || n.children@.len() >= 2
            }),
        decreases kids, kids.len() - from,
    {
        if kids[from].node_at(q) is Some {
            Self::lemma_found_from(kids[from], q);
        } else {
            Self::lemma_found_below(kids, q, from + 1);
        }
    }

    /// A node found from a well-formed node that holds a value or has at
    /// least two children holds a value or has at least two children itself.
    pub proof fn lemma_found_from(node: Node<T>, q: Seq<char>)
        requires
            node.wf(),
            node.value is Some || node.children@.len() >= 2,
            node.node_at(q) is Some,
        ensures
            ({
                let n = node.node_at(q)->0;
                n.value is Some || n.children@.len() >= 2
            }),
        decreases node, 0nat,
    {
        let rest = q.skip(node.frag@.len() as int);
        if rest.len() > 0 {
            Self::lemma_wf_kids(node);
            Self::lemma_found_below(node.children@, rest, 0);
        }
    }
}

} // verus!
