//! First matches: the least index with a property, and the first fault found
//! when items are checked in order.
use crate::error::texts;
use crate::strings::str_eq;
use vstd::prelude::*;

verus! {

/// The least index below `n` where `p` holds.
pub open spec fn first_where(n: int, p: spec_fn(int) -> bool) -> Option<int>
    decreases n,
{
    if n <= 0 {
        None
    } else {
        match first_where(n - 1, p) {
            Some(i) => Some(i),
            None => if p(n - 1) {
                Some(n - 1)
            } else {
                None
            },
        }
    }
}

/// What `f` reports at the least index below `n` where it reports anything.
pub open spec fn first_some<E>(n: int, f: spec_fn(int) -> Option<E>) -> Option<E>
    decreases n,
{
    if n <= 0 {
        None
    } else {
        match first_some(n - 1, f) {
            Some(e) => Some(e),
            None => f(n - 1),
        }
    }
}

/// Whether a position of `s` holds `x`.
pub open spec fn holds_at(s: Seq<Seq<char>>, x: Seq<char>) -> spec_fn(int) -> bool {
    |i: int| s[i] == x
}

/// The first position of `x` in `s`.
pub open spec fn first_index(s: Seq<Seq<char>>, x: Seq<char>) -> Option<int> {
    first_where(s.len() as int, holds_at(s, x))
}

/// `first_where` is the least index where `p` holds.
pub proof fn lemma_first_where(n: int, p: spec_fn(int) -> bool)
    ensures
        first_where(n, p) matches Some(i) ==> 0 <= i < n && p(i) && forall|j: int|
            0 <= j < i ==> !#[trigger] p(j),
        first_where(n, p) is None ==> forall|j: int| 0 <= j < n ==> !#[trigger] p(j),
    decreases n,
{
    if n > 0 {
        lemma_first_where(n - 1, p);
    }
}

/// The least index where `p` holds is what `first_where` finds.
pub proof fn lemma_first_where_at(n: int, p: spec_fn(int) -> bool, i: int)
    requires
        0 <= i < n,
        p(i),
        forall|j: int| 0 <= j < i ==> !#[trigger] p(j),
    ensures
        first_where(n, p) == Some(i),
    decreases n,
{
    if n - 1 > i {
        lemma_first_where_at(n - 1, p, i);
    } else {
        lemma_first_where(n - 1, p);
    }
}

/// `first_where` depends only on the indices below `n`.
pub proof fn lemma_first_where_none(n: int, p: spec_fn(int) -> bool)
    requires
        forall|j: int| 0 <= j < n ==> !#[trigger] p(j),
    ensures
        first_where(n, p) is None,
    decreases n,
{
    if n > 0 {
        lemma_first_where_none(n - 1, p);
    }
}

/// A fault at `n` after none before is the first fault up to `n + 1`.
pub proof fn lemma_first_some_step<E>(n: int, f: spec_fn(int) -> Option<E>)
    requires
        n >= 0,
    ensures
        first_some(n + 1, f) == (match first_some(n, f) {
            Some(e) => Some(e),
            None => f(n),
        }),
{
}

/// A fault found below `m` is the first fault below any `n` past `m`.
pub proof fn lemma_first_some_prefix<E>(n: int, m: int, f: spec_fn(int) -> Option<E>)
    requires
        0 <= m <= n,
        first_some(m, f) is Some,
    ensures
        first_some(n, f) == first_some(m, f),
    decreases n - m,
{
    if n > m {
        lemma_first_some_prefix(n - 1, m, f);
    }
}

/// No fault below `n` where `f` reports none.
pub proof fn lemma_first_some_none<E>(n: int, f: spec_fn(int) -> Option<E>)
    requires
        forall|j: int| 0 <= j < n ==> (#[trigger] f(j)) is None,
    ensures
        first_some(n, f) is None,
    decreases n,
{
    if n > 0 {
        lemma_first_some_none(n - 1, f);
    }
}

/// Where `first_some` finds nothing, `f` reports nothing below `n`.
pub proof fn lemma_first_some_none_all<E>(n: int, f: spec_fn(int) -> Option<E>)
    requires
        first_some(n, f) is None,
    ensures
        forall|j: int| 0 <= j < n ==> (#[trigger] f(j)) is None,
    decreases n,
{
    if n > 0 {
        lemma_first_some_none_all(n - 1, f);
    }
}

/// Where `first_index` finds `x`, `x` stands.
pub proof fn lemma_first_index(s: Seq<Seq<char>>, x: Seq<char>)
    ensures
        first_index(s, x) matches Some(k) ==> 0 <= k < s.len() && s[k] == x,
{
    lemma_first_where(s.len() as int, holds_at(s, x));
}

/// The position of `id` among `ids`, the first where it occurs twice.
pub fn index_in(ids: &Vec<String>, id: &str) -> (r: Option<usize>)
    ensures
        r matches Some(i) ==> first_index(texts(ids@), id@) == Some(i as int),
        r is None ==> first_index(texts(ids@), id@) is None,
{
    let ghost s = texts(ids@);
    let ghost p = holds_at(s, id@);
    let n = ids.len();
    for i in 0..n
        invariant
            n == ids.len(),
            s == texts(ids@),
            p == holds_at(s, id@),
            forall|j: int| 0 <= j < i ==> !#[trigger] p(j),
    {
        if str_eq(ids[i].as_str(), id) {
            proof {
                lemma_first_where_at(s.len() as int, p, i as int);
            }
            return Some(i);
        }
    }
    proof {
        lemma_first_where_none(s.len() as int, p);
    }
    None
}

} // verus!
