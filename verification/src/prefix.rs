//! Comparison of text fragments by their leading characters.

use vstd::prelude::*;
use vstd::string::StrSliceExecFns;
use crate::node::Node;

verus! {

/// Two fragments are related when they share a non-empty prefix, that is when
/// both are non-empty and start with the same character.
pub open spec fn related(a: Seq<char>, b: Seq<char>) -> bool {
    a.len() > 0 && b.len() > 0 && a[0] == b[0]
}

/// `n` is the length, in characters, of the longest common prefix of `a` and `b`.
pub open spec fn is_shared_len(a: Seq<char>, b: Seq<char>, n: int) -> bool {
    &&& 0 <= n <= a.len()
    &&& n <= b.len()
    &&& forall|k: int| 0 <= k < n ==> a[k] == b[k]
    &&& (n < a.len() && n < b.len() ==> a[n] != b[n])
}

/// `path` starts with all of `frag`.
pub open spec fn begins_with(path: Seq<char>, frag: Seq<char>) -> bool {
    &&& frag.len() <= path.len()
    &&& forall|k: int| 0 <= k < frag.len() ==> path[k] == frag[k]
}

/// The longest common prefix has exactly one length.
pub proof fn lemma_shared_len_unique(a: Seq<char>, b: Seq<char>, n: int, m: int)
    requires
        is_shared_len(a, b, n),
        is_shared_len(a, b, m),
    ensures
        n == m,
{
    if n < m {
        assert(a[n] == b[n]);
    } else if m < n {
        assert(a[m] == b[m]);
    }
}

/// Two fragments share a non-empty prefix exactly when their longest common
/// prefix is not empty.
pub proof fn lemma_related_iff_shared(a: Seq<char>, b: Seq<char>)
    ensures
        forall|n: int| #[trigger] is_shared_len(a, b, n) ==> (related(a, b) <==> n > 0),
{
    assert forall|n: int| #[trigger] is_shared_len(a, b, n) implies (related(a, b) <==> n > 0) by {
        if n > 0 {
            assert(a[0] == b[0]);
        }
    }
}

/// Whether `path` starts with all of `frag`, compared character by character.
pub fn starts_with(path: &str, frag: &str) -> (r: bool)
    ensures
        r == begins_with(path@, frag@),
{
    let pl: usize = path.unicode_len();
    let fl: usize = frag.unicode_len();
    if fl > pl {
        return false;
    }
    let mut i: usize = 0;
    while i < fl
        invariant
            i <= fl,
            fl <= pl,
            pl == path@.len(),
            fl == frag@.len(),
            forall|k: int| 0 <= k < i ==> path@[k] == frag@[k],
        decreases fl - i,
    {
        if path.get_char(i) != frag.get_char(i) {
            return false;
        }
        i += 1;
    }
    true
}

/// What the comparison of `input` with `existing` gives: the shared prefix,
/// then what is left of each side, where `None` stands for nothing left. With
/// no shared prefix all three are `None`.
pub open spec fn is_split(
    input: Seq<char>,
    existing: Seq<char>,
    shared: Option<Seq<char>>,
    input_rest: Option<Seq<char>>,
    existing_rest: Option<Seq<char>>,
) -> bool {
    match shared {
        None => is_shared_len(input, existing, 0) && input_rest is None && existing_rest is None,
        Some(s) => {
            &&& s.len() > 0
            &&& is_shared_len(input, existing, s.len() as int)
            &&& s == input.take(s.len() as int)
            &&& match input_rest {
                None => s.len() == input.len(),
                Some(x) => x.len() > 0 && x == input.skip(s.len() as int),
            }
            &&& match existing_rest {
                None => s.len() == existing.len(),
                Some(x) => x.len() > 0 && x == existing.skip(s.len() as int),
            }
        },
    }
}

/// The view of an optional fragment.
pub open spec fn opt_view(s: Option<&'static str>) -> Option<Seq<char>> {
    match s {
        None => None,
        Some(x) => Some(x@),
    }
}

impl<T> Node<T> {
    /// How many characters both fragments share at the beginning, or `None`
    /// where they share none.
    pub fn shared_pref_idx(lfrag: &'static str, rfrag: &'static str) -> (r: Option<usize>)
        ensures
            match r {
                Some(n) => n > 0 && is_shared_len(lfrag@, rfrag@, n as int),
                None => is_shared_len(lfrag@, rfrag@, 0),
            },
    {
        let ll: usize = lfrag.unicode_len();
        let rl: usize = rfrag.unicode_len();
        let mut counter: usize = 0;
        while counter < ll && counter < rl && lfrag.get_char(counter) == rfrag.get_char(counter)
            invariant
                counter <= ll,
                counter <= rl,
                ll == lfrag@.len(),
                rl == rfrag@.len(),
                forall|k: int| 0 <= k < counter ==> lfrag@[k] == rfrag@[k],
            decreases ll - counter,
        {
            counter += 1;
        }
        if counter > 0 {
            Some(counter)
        } else {
            None
        }
    }

    /// Splits both fragments at the end of their longest common prefix:
    /// the shared prefix, the rest of `lfrag`, the rest of `rfrag`.
    pub fn cmp_frag(lfrag: &'static str, rfrag: &'static str) -> (r: (
        Option<&'static str>,
        Option<&'static str>,
        Option<&'static str>,
    ))
        ensures
            is_split(lfrag@, rfrag@, opt_view(r.0), opt_view(r.1), opt_view(r.2)),
    {
        if let Some(shared_idx) = Self::shared_pref_idx(lfrag, rfrag) {
            let ll: usize = lfrag.unicode_len();
            let rl: usize = rfrag.unicode_len();
            let shared_prefix = lfrag.substring_char(0, shared_idx);
            let left = if shared_idx == ll {
                None
            } else {
                Some(lfrag.substring_char(shared_idx, ll))
            };
            let right = if shared_idx == rl {
                None
            } else {
                Some(rfrag.substring_char(shared_idx, rl))
            };
            (Some(shared_prefix), left, right)
        } else {
            (None, None, None)
        }
    }
}

} // verus!
