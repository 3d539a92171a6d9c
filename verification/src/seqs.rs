use vstd::prelude::*;

verus! {

/// Index of the first occurrence of `x` in `s`, or -1 when `x` does not occur.
pub open spec fn first_pos(s: Seq<usize>, x: usize) -> int
    decreases s.len(),
{
    if s.len() == 0 {
        -1
    } else {
        let p = first_pos(s.drop_last(), x);
        if p >= 0 {
            p
        } else if s.last() == x {
            s.len() - 1
        } else {
            -1
        }
    }
}

/// Number of occurrences of `x` in `s`.
pub open spec fn count(s: Seq<usize>, x: usize) -> nat
    decreases s.len(),
{
    if s.len() == 0 {
        0
    } else {
        count(s.drop_last(), x) + if s.last() == x { 1nat } else { 0nat }
    }
}

/// The sequence of `n` copies of `x`.
pub open spec fn repeat(x: usize, n: nat) -> Seq<usize> {
    Seq::new(n, |_i: int| x)
}

/// What characterises the first occurrence.
pub proof fn lemma_first_pos(s: Seq<usize>, x: usize)
    ensures
        -1 <= first_pos(s, x) < s.len(),
        first_pos(s, x) == -1 <==> !s.contains(x),
        first_pos(s, x) >= 0 ==> s[first_pos(s, x)] == x,
        forall|j: int| 0 <= j < first_pos(s, x) ==> s[j] != x,
        first_pos(s, x) == -1 ==> forall|j: int| 0 <= j < s.len() ==> s[j] != x,
    decreases s.len(),
{
    if s.len() > 0 {
        lemma_first_pos(s.drop_last(), x);
        let p = first_pos(s.drop_last(), x);
        assert forall|j: int| 0 <= j < s.len() - 1 implies s[j] == s.drop_last()[j] by {}
        if p >= 0 {
            assert(s.contains(x)) by {
                assert(s[p] == x);
            }
        } else if s.last() == x {
            assert(s.contains(x)) by {
                assert(s[s.len() - 1] == x);
            }
        } else {
            assert forall|j: int| 0 <= j < s.len() implies s[j] != x by {
                if j < s.len() - 1 {
                    assert(s[j] == s.drop_last()[j]);
                }
            }
        }
    }
}

/// An index holding `x` with no earlier occurrence is the first occurrence.
pub proof fn lemma_first_pos_at(s: Seq<usize>, x: usize, i: int)
    requires
        0 <= i < s.len(),
        s[i] == x,
        forall|j: int| 0 <= j < i ==> s[j] != x,
    ensures
        first_pos(s, x) == i,
{
    lemma_first_pos(s, x);
    let p = first_pos(s, x);
    assert(p >= 0) by {
        assert(s.contains(x));
    }
    if p < i {
        assert(s[p] != x);
    }
}

/// Growing a prefix by one element.
pub proof fn lemma_take_push<A>(s: Seq<A>, k: int)
    requires
        0 <= k < s.len(),
    ensures
        s.take(k + 1).drop_last() == s.take(k),
        s.take(k + 1).last() == s[k],
        s.take(k + 1) == s.take(k).push(s[k]),
{
    assert(s.take(k + 1).drop_last() =~= s.take(k));
    assert(s.take(k + 1) =~= s.take(k).push(s[k]));
}


/// Index of the last occurrence of `x` in `s`, or -1 when `x` does not occur.
pub open spec fn last_pos(s: Seq<usize>, x: usize) -> int
    decreases s.len(),
{
    if s.len() == 0 {
        -1
    } else if s.last() == x {
        s.len() - 1
    } else {
        last_pos(s.drop_last(), x)
    }
}

/// The elements of `s` that do not occur in `t`, in order.
pub open spec fn missing(s: Seq<usize>, t: Seq<usize>) -> Seq<usize>
    decreases s.len(),
{
    if s.len() == 0 {
        Seq::empty()
    } else if t.contains(s.last()) {
        missing(s.drop_last(), t)
    } else {
        missing(s.drop_last(), t).push(s.last())
    }
}

/// What characterises the last occurrence.
pub proof fn lemma_last_pos(s: Seq<usize>, x: usize)
    ensures
        -1 <= last_pos(s, x) < s.len(),
        last_pos(s, x) >= 0 ==> s[last_pos(s, x)] == x,
        forall|j: int| last_pos(s, x) < j < s.len() ==> s[j] != x,
        last_pos(s, x) == -1 <==> !s.contains(x),
    decreases s.len(),
{
    if s.len() > 0 {
        lemma_last_pos(s.drop_last(), x);
        assert forall|j: int| 0 <= j < s.len() - 1 implies s[j] == s.drop_last()[j] by {}
        if s.last() == x {
            assert(s.contains(x)) by {
                assert(s[s.len() - 1] == x);
            }
        } else if last_pos(s.drop_last(), x) >= 0 {
            assert(s.contains(x)) by {
                assert(s[last_pos(s, x)] == x);
            }
        } else {
            assert forall|j: int| 0 <= j < s.len() implies s[j] != x by {}
        }
    }
}

/// An index holding `x` with no later occurrence is the last occurrence.
pub proof fn lemma_last_pos_at(s: Seq<usize>, x: usize, i: int)
    requires
        0 <= i < s.len(),
        s[i] == x,
        forall|j: int| i < j < s.len() ==> s[j] != x,
    ensures
        last_pos(s, x) == i,
{
    lemma_last_pos(s, x);
    assert(s.contains(x));
    if last_pos(s, x) > i {
        assert(s[last_pos(s, x)] != x);
    }
}

} // verus!
