//! Orders, and sorting by them.

use vstd::multiset::Multiset;
use vstd::prelude::*;

verus! {

/// A type whose values stand in an order that is total and transitive.
pub trait Ranked: Sized {
    /// Whether `self` may stand before `other`.
    spec fn before(&self, other: &Self) -> bool;

    /// Whether `self` may stand before `other`.
    fn goes_before(&self, other: &Self) -> (b: bool)
        ensures
            b == self.before(other),
    ;

    /// Of two values, one may stand before the other.
    proof fn lemma_total(a: &Self, b: &Self)
        ensures
            a.before(b) || b.before(a),
    ;

    /// What may stand before a value may stand before all that this one may stand before.
    proof fn lemma_transitive(a: &Self, b: &Self, c: &Self)
        requires
            a.before(b),
            b.before(c),
        ensures
            a.before(c),
    ;
}

/// Whether each value of `s` may stand before all that follow it.
pub open spec fn sorted<T: Ranked>(s: Seq<T>) -> bool {
    forall|i: int, j: int| 0 <= i < j < s.len() ==> (#[trigger] s[i]).before(#[trigger] &s[j])
}

/// Whether all that follow a value of `s` may stand before it.
pub open spec fn descending<T: Ranked>(s: Seq<T>) -> bool {
    forall|i: int, j: int| 0 <= i < j < s.len() ==> (#[trigger] s[j]).before(#[trigger] &s[i])
}

/// Whether `x` may stand before every value of `s`.
pub open spec fn before_all<T: Ranked>(x: T, s: Seq<T>) -> bool {
    forall|i: int| 0 <= i < s.len() ==> x.before(#[trigger] &s[i])
}

/// The values of `v` from the last to the first.
fn reversed<T: Ranked>(v: Vec<T>) -> (out: Vec<T>)
    ensures
        out@ == v@.reverse(),
{
    let ghost all = v@;
    let mut rest: Vec<T> = v;
    let mut out: Vec<T> = Vec::new();
    while rest.len() > 0
        invariant
            rest@ == all.take(rest@.len() as int),
            rest@.len() + out@.len() == all.len(),
            forall|i: int| 0 <= i < out@.len() ==> out@[i] == all[all.len() - 1 - i],
        decreases rest.len(),
    {
        let x: T = rest.pop().unwrap();
        out.push(x);
        assert(rest@ =~= all.take(rest@.len() as int));
    }
    assert(out@ =~= all.reverse());
    out
}

/// One sorted sequence of the values of two sorted sequences.
fn merge<T: Ranked>(a: Vec<T>, b: Vec<T>) -> (out: Vec<T>)
    requires
        sorted(a@),
        sorted(b@),
    ensures
        sorted(out@),
        out@.to_multiset() == a@.to_multiset().add(b@.to_multiset()),
{
    broadcast use vstd::seq_lib::group_to_multiset_ensures;

    let ghost total = a@.to_multiset().add(b@.to_multiset());
    proof {
        a@.lemma_reverse_to_multiset();
        b@.lemma_reverse_to_multiset();
        lemma_reverse_descending(a@);
        lemma_reverse_descending(b@);
    }
    let mut left: Vec<T> = reversed(a);
    let mut right: Vec<T> = reversed(b);
    let mut out: Vec<T> = Vec::new();
    assert(out@.to_multiset() =~= Multiset::<T>::empty());
    assert(out@.to_multiset().add(left@.to_multiset()).add(right@.to_multiset()) =~= total);
    while left.len() > 0 || right.len() > 0
        invariant
            descending(left@),
            descending(right@),
            sorted(out@),
            forall|i: int| 0 <= i < out@.len() ==> before_all(#[trigger] out@[i], left@),
            forall|i: int| 0 <= i < out@.len() ==> before_all(#[trigger] out@[i], right@),
            out@.to_multiset().add(left@.to_multiset()).add(right@.to_multiset()) == total,
        decreases left.len() + right.len(),
    {
        let ghost old_left = left@;
        let ghost old_right = right@;
        let ghost old_out = out@;
        let from_left: bool = if left.len() == 0 {
            false
        } else if right.len() == 0 {
            true
        } else {
            left[left.len() - 1].goes_before(&right[right.len() - 1])
        };
        if from_left {
            let x: T = left.pop().unwrap();
            proof {
                assert(old_left =~= left@.push(x));
                assert forall|i: int| 0 <= i < right@.len() implies x.before(#[trigger] &right@[i]) by {
                    if i < right@.len() - 1 {
                        T::lemma_transitive(&x, &right@[right@.len() - 1], &right@[i]);
                    }
                }
                assert forall|i: int| 0 <= i < left@.len() implies x.before(#[trigger] &left@[i]) by {
                    assert(old_left[old_left.len() - 1].before(&old_left[i]));
                }
                assert forall|i: int| 0 <= i < old_out.len() implies (#[trigger] old_out[i]).before(
                    &x,
                ) by {
                    assert(before_all(old_out[i], old_left));
                    assert(old_left[old_left.len() - 1] == x);
                }
            }
            out.push(x);
            proof {
                assert forall|i: int| 0 <= i < out@.len() implies before_all(#[trigger] out@[i], left@) by {
                    if i < old_out.len() {
                        assert(before_all(old_out[i], old_left));
                        assert forall|k: int| 0 <= k < left@.len() implies out@[i].before(
                            #[trigger] &left@[k],
                        ) by {
                            assert(old_left[k] == left@[k]);
                        }
                    }
                }
                assert forall|i: int| 0 <= i < out@.len() implies before_all(#[trigger] out@[i], right@) by {
                    if i < old_out.len() {
                        assert(before_all(old_out[i], old_right));
                    }
                }
                vstd::seq_lib::to_multiset_build(left@, x);
                vstd::seq_lib::to_multiset_build(old_out, x);
                assert(out@.to_multiset().add(left@.to_multiset()).add(right@.to_multiset())
                    =~= total);
            }
        } else {
            let x: T = right.pop().unwrap();
            proof {
                assert(old_right =~= right@.push(x));
                if left@.len() > 0 {
                    T::lemma_total(&left@[left@.len() - 1], &x);
                }
                assert forall|i: int| 0 <= i < left@.len() implies x.before(#[trigger] &left@[i]) by {
                    if i < left@.len() - 1 {
                        T::lemma_transitive(&x, &left@[left@.len() - 1], &left@[i]);
                    }
                }
                assert forall|i: int| 0 <= i < right@.len() implies x.before(#[trigger] &right@[i]) by {
                    assert(old_right[old_right.len() - 1].before(&old_right[i]));
                }
                assert forall|i: int| 0 <= i < old_out.len() implies (#[trigger] old_out[i]).before(
                    &x,
                ) by {
                    assert(before_all(old_out[i], old_right));
                    assert(old_right[old_right.len() - 1] == x);
                }
            }
            out.push(x);
            proof {
                assert forall|i: int| 0 <= i < out@.len() implies before_all(#[trigger] out@[i], right@) by {
                    if i < old_out.len() {
                        assert(before_all(old_out[i], old_right));
                        assert forall|k: int| 0 <= k < right@.len() implies out@[i].before(
                            #[trigger] &right@[k],
                        ) by {
                            assert(old_right[k] == right@[k]);
                        }
                    }
                }
                assert forall|i: int| 0 <= i < out@.len() implies before_all(#[trigger] out@[i], left@) by {
                    if i < old_out.len() {
                        assert(before_all(old_out[i], old_left));
                    }
                }
                vstd::seq_lib::to_multiset_build(right@, x);
                vstd::seq_lib::to_multiset_build(old_out, x);
                assert(out@.to_multiset().add(left@.to_multiset()).add(right@.to_multiset())
                    =~= total);
            }
        }
    }
    proof {
        assert(left@ =~= Seq::<T>::empty());
        assert(right@ =~= Seq::<T>::empty());
        assert(out@.to_multiset() =~= total);
    }
    out
}

/// The values of `v` in order: a sorted sequence of the same values, each as often as in
/// `v`.
pub fn sort<T: Ranked>(v: Vec<T>) -> (out: Vec<T>)
    ensures
        sorted(out@),
        out@.to_multiset() == v@.to_multiset(),
    decreases v@.len(),
{
    broadcast use vstd::seq_lib::group_to_multiset_ensures;

    if v.len() <= 1 {
        return v;
    }
    let ghost all = v@;
    let half: usize = v.len() / 2;
    let mut left: Vec<T> = v;
    let mut right: Vec<T> = Vec::new();
    assert(left@.to_multiset().add(right@.to_multiset()) =~= all.to_multiset());
    while right.len() < half
        invariant
            left@.len() + right@.len() == all.len(),
            right@.len() <= half,
            half == all.len() / 2,
            left@.to_multiset().add(right@.to_multiset()) == all.to_multiset(),
        decreases half - right.len(),
    {
        let ghost old_left = left@;
        let ghost old_right = right@;
        let x: T = left.pop().unwrap();
        right.push(x);
        proof {
            assert(old_left =~= left@.push(x));
            vstd::seq_lib::to_multiset_build(left@, x);
            vstd::seq_lib::to_multiset_build(old_right, x);
            assert(left@.to_multiset().add(right@.to_multiset()) =~= all.to_multiset());
        }
    }
    let left_sorted: Vec<T> = sort(left);
    let right_sorted: Vec<T> = sort(right);
    merge(left_sorted, right_sorted)
}

/// What is sorted, read backwards, is descending.
pub proof fn lemma_reverse_descending<T: Ranked>(s: Seq<T>)
    requires
        sorted(s),
    ensures
        descending(s.reverse()),
{
    assert forall|i: int, j: int| 0 <= i < j < s.reverse().len() implies (#[trigger] s.reverse()[j]).before(
        #[trigger] &s.reverse()[i],
    ) by {
        assert(s[s.len() - 1 - j].before(&s[s.len() - 1 - i]));
    }
}

/// There is one order only: two sorted sequences of the same values, each as often, are the
/// same sequence, where of two values that differ one only may stand before the other.
pub proof fn lemma_one_order<T: Ranked>(x: Seq<T>, y: Seq<T>)
    requires
        sorted(x),
        sorted(y),
        x.to_multiset() == y.to_multiset(),
        forall|a: T, b: T| #[trigger] a.before(&b) && b.before(&a) ==> a == b,
    ensures
        x == y,
{
    let leq = |a: T, b: T| a.before(&b);
    assert(vstd::relations::total_ordering(leq)) by {
        assert forall|a: T| #[trigger] leq(a, a) by {
            T::lemma_total(&a, &a);
        }
        assert forall|a: T, b: T| #[trigger] leq(a, b) || #[trigger] leq(b, a) by {
            T::lemma_total(&a, &b);
        }
        assert forall|a: T, b: T, c: T| #[trigger] leq(a, b) && #[trigger] leq(b, c) implies leq(
            a,
            c,
        ) by {
            T::lemma_transitive(&a, &b, &c);
        }
        assert forall|a: T, b: T| #[trigger] leq(a, b) && #[trigger] leq(b, a) implies a == b by {
            assert(a.before(&b) && b.before(&a));
        }
    }
    assert(vstd::relations::sorted_by(x, leq)) by {
        assert forall|i: int, j: int| 0 <= i < j < x.len() implies #[trigger] leq(x[i], x[j]) by {
            assert(x[i].before(&x[j]));
        }
    }
    assert(vstd::relations::sorted_by(y, leq)) by {
        assert forall|i: int, j: int| 0 <= i < j < y.len() implies #[trigger] leq(y[i], y[j]) by {
            assert(y[i].before(&y[j]));
        }
    }
    vstd::seq_lib::lemma_sorted_unique(x, y, leq);
}

// ---------------------------------------------------------------------------------------------
// The order of the dictionary on vectors of hashes

/// Whether `a` stands before `b` in the order of the dictionary: at the first place where
/// they differ `a` has the lesser hash, or `a` ends there and `b` goes on.
pub open spec fn lex_before(a: Seq<i64>, b: Seq<i64>) -> bool
    decreases a.len(),
{
    if b.len() == 0 {
        false
    } else if a.len() == 0 {
        true
    } else if a[0] != b[0] {
        a[0] < b[0]
    } else {
        lex_before(a.drop_first(), b.drop_first())
    }
}

/// Of two vectors that differ, one stands before the other, and never both.
pub proof fn lemma_lex_trichotomy(a: Seq<i64>, b: Seq<i64>)
    ensures
        a != b ==> lex_before(a, b) || lex_before(b, a),
        !(lex_before(a, b) && lex_before(b, a)),
        !lex_before(a, a),
    decreases a.len(),
{
    if a.len() > 0 && b.len() > 0 && a[0] == b[0] {
        lemma_lex_trichotomy(a.drop_first(), b.drop_first());
        if a.drop_first() == b.drop_first() {
            assert(a =~= seq![a[0]] + a.drop_first());
            assert(b =~= seq![b[0]] + b.drop_first());
        }
    } else if a.len() == 0 && b.len() == 0 {
        assert(a =~= b);
    }
    if a.len() > 0 {
        lemma_lex_irreflexive(a);
    }
}

/// No vector stands before itself.
pub proof fn lemma_lex_irreflexive(a: Seq<i64>)
    ensures
        !lex_before(a, a),
    decreases a.len(),
{
    if a.len() > 0 {
        lemma_lex_irreflexive(a.drop_first());
    }
}

/// What stands before a vector stands before all that this one stands before.
pub proof fn lemma_lex_transitive(a: Seq<i64>, b: Seq<i64>, c: Seq<i64>)
    requires
        lex_before(a, b),
        lex_before(b, c),
    ensures
        lex_before(a, c),
    decreases a.len(),
{
    if a.len() > 0 && a[0] == b[0] && b[0] == c[0] {
        lemma_lex_transitive(a.drop_first(), b.drop_first(), c.drop_first());
    }
}

/// The place of `a` against `b` in the order of the dictionary.
pub enum Place {
    Before,
    Same,
    After,
}

/// Where `a` stands against `b` in the order of the dictionary.
pub fn lex_place(a: &Vec<i64>, b: &Vec<i64>) -> (place: Place)
    ensures
        place is Before <==> lex_before(a@, b@),
        place is Same <==> a@ == b@,
        place is After <==> lex_before(b@, a@),
{
    proof {
        lemma_lex_trichotomy(a@, b@);
    }
    let mut i: usize = 0;
    assert(a@.skip(0) =~= a@ && b@.skip(0) =~= b@);
    while i < a.len() && i < b.len()
        invariant
            i <= a.len(),
            i <= b.len(),
            a@.take(i as int) == b@.take(i as int),
            lex_before(a@, b@) == lex_before(a@.skip(i as int), b@.skip(i as int)),
            lex_before(b@, a@) == lex_before(b@.skip(i as int), a@.skip(i as int)),
        decreases a.len() - i,
    {
        proof {
            assert(a@.skip(i as int)[0] == a@[i as int]);
            assert(b@.skip(i as int)[0] == b@[i as int]);
            assert(a@.skip(i as int).drop_first() =~= a@.skip(i + 1));
            assert(b@.skip(i as int).drop_first() =~= b@.skip(i + 1));
        }
        if a[i] < b[i] {
            return Place::Before;
        }
        if a[i] > b[i] {
            return Place::After;
        }
        i += 1;
        assert(a@.take(i as int) =~= a@.take(i - 1).push(a@[i - 1]));
        assert(b@.take(i as int) =~= b@.take(i - 1).push(b@[i - 1]));
    }
    if i < b.len() {
        assert(a@.skip(i as int).len() == 0);
        Place::Before
    } else if i < a.len() {
        assert(b@.skip(i as int).len() == 0);
        Place::After
    } else {
        assert(a@ =~= a@.take(i as int));
        assert(b@ =~= b@.take(i as int));
        Place::Same
    }
}

} // verus!
