//! Small general-purpose sequence utilities.
//!
//! The crate's contracts are stated over deep views of vectors.  [`dv`]
//! names the deep view of a sequence of values, and the lemmas here move
//! it across the operations the executable code performs.
use vstd::prelude::*;

verus! {

/// The deep view of each element of a sequence, in order.
pub open spec fn dv<T: DeepView>(s: Seq<T>) -> Seq<T::V> {
    Seq::new(s.len(), |i: int| s[i].deep_view())
}

/// A vector's deep view is the deep view of its elements.
pub broadcast proof fn vec_dv<T: DeepView>(v: Vec<T>)
    ensures
        #[trigger] v.deep_view() == dv(v@),
{
    assert(v.deep_view() =~= dv(v@));
}

/// Deep view commutes with push.
pub broadcast proof fn dv_push<T: DeepView>(s: Seq<T>, x: T)
    ensures
        #[trigger] dv(s.push(x)) == dv(s).push(x.deep_view()),
{
    assert(dv(s.push(x)) =~= dv(s).push(x.deep_view()));
}

/// Deep view commutes with take.
pub broadcast proof fn dv_take<T: DeepView>(s: Seq<T>, i: int)
    requires
        0 <= i <= s.len(),
    ensures
        #[trigger] dv(s.take(i)) == dv(s).take(i),
{
    assert(dv(s.take(i)) =~= dv(s).take(i));
}

/// Deep view commutes with remove.
pub broadcast proof fn dv_remove<T: DeepView>(s: Seq<T>, i: int)
    requires
        0 <= i < s.len(),
    ensures
        #[trigger] dv(s.remove(i)) == dv(s).remove(i),
{
    assert(dv(s.remove(i)) =~= dv(s).remove(i));
}

/// Deep view commutes with insert.
pub broadcast proof fn dv_insert<T: DeepView>(s: Seq<T>, i: int, x: T)
    requires
        0 <= i <= s.len(),
    ensures
        #[trigger] dv(s.insert(i, x)) == dv(s).insert(i, x.deep_view()),
{
    assert(dv(s.insert(i, x)) =~= dv(s).insert(i, x.deep_view()));
}

/// Extending a vector whose deep view is a prefix of `goal` by one element
/// whose deep view is the next entry of `goal` extends the prefix.
pub proof fn dv_snoc_take_to<T: DeepView>(pre: Seq<T>, x: T, goal: Seq<T::V>, i: int)
    requires
        0 <= i < goal.len(),
        dv(pre) == goal.take(i),
        x.deep_view() == goal[i],
    ensures
        dv(pre.push(x)) == goal.take(i + 1),
{
    dv_push(pre, x);
    assert(dv(pre).push(x.deep_view()) =~= goal.take(i + 1));
}

/// Deep view commutes with concatenation.
pub broadcast proof fn dv_concat<T: DeepView>(a: Seq<T>, b: Seq<T>)
    ensures
        #[trigger] dv(a + b) == dv(a) + dv(b),
{
    assert(dv(a + b) =~= dv(a) + dv(b));
}

/// The sum of `f` over the elements of a sequence.
pub open spec fn sum_by<T>(s: Seq<T>, f: spec_fn(T) -> int) -> int
    decreases s.len(),
{
    if s.len() == 0 {
        0
    } else {
        sum_by(s.drop_last(), f) + f(s.last())
    }
}

/// Concatenation adds the sums.
pub proof fn lemma_sum_by_concat<T>(a: Seq<T>, b: Seq<T>, f: spec_fn(T) -> int)
    ensures
        sum_by(a + b, f) == sum_by(a, f) + sum_by(b, f),
    decreases b.len(),
{
    if b.len() == 0 {
        assert(a + b =~= a);
    } else {
        assert((a + b).drop_last() =~= a + b.drop_last());
        assert((a + b).last() == b.last());
        lemma_sum_by_concat(a, b.drop_last(), f);
    }
}

/// Removing one element takes exactly its contribution out of the sum.
pub proof fn lemma_sum_by_remove<T>(s: Seq<T>, i: int, f: spec_fn(T) -> int)
    requires
        0 <= i < s.len(),
    ensures
        sum_by(s, f) == sum_by(s.remove(i), f) + f(s[i]),
    decreases s.len(),
{
    if i == s.len() - 1 {
        assert(s.remove(i) =~= s.drop_last());
    } else {
        assert(s.remove(i).drop_last() =~= s.drop_last().remove(i));
        assert(s.remove(i).last() == s.last());
        lemma_sum_by_remove(s.drop_last(), i, f);
    }
}

/// Sums of functions that agree on the elements agree.
pub proof fn lemma_sum_by_ext<T>(s: Seq<T>, f: spec_fn(T) -> int, g: spec_fn(T) -> int)
    requires
        forall|i: int| 0 <= i < s.len() ==> f(#[trigger] s[i]) == g(s[i]),
    ensures
        sum_by(s, f) == sum_by(s, g),
    decreases s.len(),
{
    if s.len() > 0 {
        lemma_sum_by_ext(s.drop_last(), f, g);
        assert(f(s[s.len() - 1]) == g(s[s.len() - 1]));
    }
}

/// A pointwise bound on the elements carries to the sums.
pub proof fn lemma_sum_by_le<T>(s: Seq<T>, f: spec_fn(T) -> int, g: spec_fn(T) -> int)
    requires
        forall|i: int| 0 <= i < s.len() ==> f(#[trigger] s[i]) <= g(s[i]),
    ensures
        sum_by(s, f) <= sum_by(s, g),
    decreases s.len(),
{
    if s.len() > 0 {
        lemma_sum_by_le(s.drop_last(), f, g);
        assert(f(s[s.len() - 1]) <= g(s[s.len() - 1]));
    }
}

/// A sum of zero weights is zero.
pub proof fn lemma_sum_by_zero<T>(s: Seq<T>, f: spec_fn(T) -> int)
    requires
        forall|i: int| 0 <= i < s.len() ==> f(#[trigger] s[i]) == 0,
    ensures
        sum_by(s, f) == 0,
    decreases s.len(),
{
    if s.len() > 0 {
        lemma_sum_by_zero(s.drop_last(), f);
        assert(f(s[s.len() - 1]) == 0);
    }
}

/// Splitting each weight into two parts splits the sum.
pub proof fn lemma_sum_by_split<T>(
    s: Seq<T>,
    f: spec_fn(T) -> int,
    g: spec_fn(T) -> int,
    h: spec_fn(T) -> int,
)
    requires
        forall|i: int| 0 <= i < s.len() ==> f(#[trigger] s[i]) == g(s[i]) + h(s[i]),
    ensures
        sum_by(s, f) == sum_by(s, g) + sum_by(s, h),
    decreases s.len(),
{
    if s.len() > 0 {
        lemma_sum_by_split(s.drop_last(), f, g, h);
        assert(f(s[s.len() - 1]) == g(s[s.len() - 1]) + h(s[s.len() - 1]));
    }
}

/// A sum can also be peeled from the front.
pub proof fn lemma_sum_by_first<T>(s: Seq<T>, f: spec_fn(T) -> int)
    requires
        s.len() > 0,
    ensures
        sum_by(s, f) == f(s[0]) + sum_by(s.drop_first(), f),
    decreases s.len(),
{
    if s.len() == 1 {
        assert(s.drop_first() =~= Seq::<T>::empty());
        assert(s.drop_last() =~= Seq::<T>::empty());
    } else {
        lemma_sum_by_first(s.drop_last(), f);
        assert(s.drop_last().drop_first() =~= s.drop_first().drop_last());
        assert(s.drop_last()[0] == s[0]);
        assert(s.drop_first().last() == s.last());
    }
}

/// A sum whose only nonzero entry sits at `i` is that entry.
pub proof fn lemma_sum_by_single<T>(s: Seq<T>, f: spec_fn(T) -> int, i: int)
    requires
        0 <= i < s.len(),
        forall|j: int| 0 <= j < s.len() && j != i ==> f(#[trigger] s[j]) == 0,
    ensures
        sum_by(s, f) == f(s[i]),
{
    lemma_sum_by_remove(s, i, f);
    assert forall|j: int| 0 <= j < s.remove(i).len() implies f(#[trigger] s.remove(i)[j]) == 0 by {
        if j < i {
            assert(s.remove(i)[j] == s[j]);
        } else {
            assert(s.remove(i)[j] == s[j + 1]);
        }
    }
    lemma_sum_by_zero(s.remove(i), f);
}

/// One row of a two-place weight, as a one-place function.
pub open spec fn curry<T>(f: spec_fn(T, T) -> int, c: T) -> spec_fn(T) -> int {
    |r: T| f(c, r)
}

/// One column of a two-place weight, as a one-place function.
pub open spec fn curry_t<T>(f: spec_fn(T, T) -> int, r: T) -> spec_fn(T) -> int {
    |c: T| f(c, r)
}

/// The sum of the inner sums, row by row.
pub open spec fn inner_of<T>(rs: Seq<T>, f: spec_fn(T, T) -> int) -> spec_fn(T) -> int {
    |c: T| sum_by(rs, curry(f, c))
}

/// The sum of the inner sums, column by column.
pub open spec fn col_of<T>(cs: Seq<T>, f: spec_fn(T, T) -> int) -> spec_fn(T) -> int {
    |r: T| sum_by(cs, curry_t(f, r))
}

/// Summing a two-place weight row by row or column by column is the same.
pub proof fn lemma_sum_swap<T>(cs: Seq<T>, rs: Seq<T>, f: spec_fn(T, T) -> int)
    ensures
        sum_by(cs, inner_of(rs, f)) == sum_by(rs, col_of(cs, f)),
    decreases cs.len(),
{
    if cs.len() == 0 {
        assert forall|i: int| 0 <= i < rs.len() implies col_of(cs, f)(#[trigger] rs[i]) == 0 by {
            assert(sum_by(cs, curry_t(f, rs[i])) == 0);
        }
        lemma_sum_by_zero(rs, col_of(cs, f));
    } else {
        let c0 = cs.last();
        let rest = cs.drop_last();
        lemma_sum_swap(rest, rs, f);
        assert(sum_by(cs, inner_of(rs, f)) == sum_by(rest, inner_of(rs, f)) + sum_by(
            rs,
            curry(f, c0),
        ));
        assert forall|i: int|
            0 <= i < rs.len() implies col_of(cs, f)(#[trigger] rs[i]) == col_of(rest, f)(rs[i])
            + curry(f, c0)(rs[i]) by {
            let r = rs[i];
            assert(sum_by(cs, curry_t(f, r)) == sum_by(rest, curry_t(f, r)) + curry_t(f, r)(c0));
        }
        lemma_sum_by_split(rs, col_of(cs, f), col_of(rest, f), curry(f, c0));
    }
}

/// Sequences holding the same elements, in any order, have the same sum.
pub proof fn lemma_sum_by_permutation<T>(s1: Seq<T>, s2: Seq<T>, f: spec_fn(T) -> int)
    requires
        s1.to_multiset() == s2.to_multiset(),
    ensures
        sum_by(s1, f) == sum_by(s2, f),
    decreases s1.len(),
{
    broadcast use vstd::seq_lib::group_to_multiset_ensures;
    broadcast use vstd::multiset::group_multiset_axioms;

    if s1.len() == 0 {
        assert(s2.to_multiset().len() == 0);
    } else {
        let x = s1.last();
        assert(s1.drop_last().push(x) =~= s1);
        assert(s1.to_multiset().count(x) > 0);
        assert(s2.to_multiset().count(x) > 0);
        assert(s2.contains(x));
        let j = choose|j: int| 0 <= j < s2.len() && s2[j] == x;
        lemma_sum_by_remove(s2, j, f);
        assert(s1.drop_last().to_multiset() =~= s2.remove(j).to_multiset()) by {
            assert(s1.drop_last().push(x).to_multiset() == s1.drop_last().to_multiset().insert(x));
            assert(s2.remove(j).to_multiset() == s2.to_multiset().remove(x));
        }
        lemma_sum_by_permutation(s1.drop_last(), s2.remove(j), f);
    }
}

/// The lemmas this module offers, as one group.
pub broadcast group group_dv {
    vec_dv,
    dv_push,
    dv_take,
    dv_remove,
    dv_insert,
    dv_concat,
}

} // verus!
