//! First-match search over a sequence, shared by every lookup in the crate.
use vstd::prelude::*;

verus! {

/// The position of the first element satisfying `p`, if any.
pub open spec fn first_where<T>(s: Seq<T>, p: spec_fn(T) -> bool) -> Option<int>
    decreases s.len(),
{
    if s.len() == 0 {
        None
    } else if p(s[0]) {
        Some(0)
    } else {
        match first_where(s.drop_first(), p) {
            Some(i) => Some(i + 1),
            None => None,
        }
    }
}

/// A first match at `i` is found exactly there when nothing earlier matches.
pub proof fn lemma_first_where_found<T>(s: Seq<T>, p: spec_fn(T) -> bool, i: int)
    requires
        0 <= i < s.len(),
        p(s[i]),
        forall|j: int| 0 <= j < i ==> !p(s[j]),
    ensures
        first_where(s, p) == Some(i),
    decreases i,
{
    if i == 0 {
    } else {
        assert(!p(s[0]));
        assert(s.drop_first()[i - 1] == s[i]);
        assert(forall|j: int| 0 <= j < i - 1 ==> s.drop_first()[j] == s[j + 1] && !p(s[j + 1]));
        lemma_first_where_found(s.drop_first(), p, i - 1);
    }
}

/// When nothing matches, there is no first match.
pub proof fn lemma_first_where_none<T>(s: Seq<T>, p: spec_fn(T) -> bool)
    requires
        forall|j: int| 0 <= j < s.len() ==> !p(s[j]),
    ensures
        first_where(s, p) is None,
    decreases s.len(),
{
    if s.len() > 0 {
        assert(forall|j: int| 0 <= j < s.len() - 1 ==> s.drop_first()[j] == s[j + 1] && !p(
            s[j + 1],
        ));
        lemma_first_where_none(s.drop_first(), p);
    }
}

/// Without a first match, nothing matches.
pub proof fn lemma_first_where_all_none<T>(s: Seq<T>, p: spec_fn(T) -> bool)
    requires
        first_where(s, p) is None,
    ensures
        forall|j: int| 0 <= j < s.len() ==> !p(s[j]),
    decreases s.len(),
{
    if s.len() > 0 {
        lemma_first_where_all_none(s.drop_first(), p);
        assert(forall|j: int| 1 <= j < s.len() ==> s.drop_first()[j - 1] == s[j]);
    }
}

/// Appending an element leaves an existing first match where it was, and
/// otherwise matches exactly when the new element does.
pub proof fn lemma_first_where_push<T>(s: Seq<T>, p: spec_fn(T) -> bool, x: T)
    ensures
        first_where(s.push(x), p) == (match first_where(s, p) {
            Some(i) => Some(i),
            None => if p(x) {
                Some(s.len() as int)
            } else {
                None
            },
        }),
    decreases s.len(),
{
    let ext = s.push(x);
    if s.len() == 0 {
        assert(ext[0] == x);
        assert(ext.drop_first() =~= s);
    } else {
        assert(ext[0] == s[0]);
        assert(ext.drop_first() =~= s.drop_first().push(x));
        lemma_first_where_push(s.drop_first(), p, x);
    }
}

/// What a first match means: it lies in range, satisfies `p`, and nothing
/// before it does.
pub proof fn lemma_first_where_some<T>(s: Seq<T>, p: spec_fn(T) -> bool, i: int)
    requires
        first_where(s, p) == Some(i),
    ensures
        0 <= i < s.len(),
        p(s[i]),
        forall|j: int| 0 <= j < i ==> !p(s[j]),
    decreases s.len(),
{
    if s.len() > 0 && !p(s[0]) {
        lemma_first_where_some(s.drop_first(), p, i - 1);
        assert(s.drop_first()[i - 1] == s[i]);
        assert(forall|j: int| 1 <= j < i ==> s.drop_first()[j - 1] == s[j]);
    }
}

} // verus!
