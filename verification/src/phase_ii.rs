//! Phase II: the pairs of submissions that share fingerprints, and how much they share.

use crate::error::Error;
use crate::index::{index_get, index_keys};
use crate::order::{sort, sorted, Ranked};
use crate::ratio::Ratio;
use crate::phase_i::{
    docs_hashes, hashes_of, holds, increasing, insert_hashes, is_index_of, lemma_docs_hashes,
    lists_in_order, sub_has_hash,
};
use crate::{Doc, Sub};
use fnv::FnvHashMap;
use std::collections::HashSet;
use vstd::prelude::*;

verus! {

/// Two submissions that share fingerprints. `a` and `b` are their places among the
/// submissions, `matches` the hashes that both hold, in increasing order. `a_percent` and
/// `b_percent` say how many of the hashes of each are shared, and `percentile` how the number
/// of shared hashes compares to the greatest number that any pair shares.
#[derive(Debug, Clone)]
pub struct SubPair {
    pub a: usize,
    pub a_percent: Ratio,
    pub b: usize,
    pub b_percent: Ratio,
    pub matches: Vec<i64>,
    pub percentile: Ratio,
}

/// The hashes that a submission shares with a later one, while they are gathered.
pub struct Shared {
    pub b: usize,
    pub hashes: Vec<i64>,
}

/// Whether the index lists both `a` and `b` for the hash `h`.
pub open spec fn both_hold(index: Map<i64, Vec<usize>>, h: i64, a: usize, b: usize) -> bool {
    holds(index, h, a) && holds(index, h, b)
}

/// Whether each hash of `list` is less than all that follow it.
pub open spec fn ascending(list: Seq<i64>) -> bool {
    forall|i: int, j: int| 0 <= i < j < list.len() ==> list[i] < list[j]
}

/// Whether `list` holds the hashes that both `a` and `b` hold, in increasing order.
pub open spec fn is_shared_list(list: Seq<i64>, index: Map<i64, Vec<usize>>, a: usize, b: usize) -> bool {
    &&& ascending(list)
    &&& forall|h: i64| list.contains(h) <==> both_hold(index, h, a, b)
}

/// The hashes among the first `q` of `keys` that both `a` and `b` hold, in the order of
/// `keys`.
pub open spec fn shared_upto(
    keys: Seq<i64>,
    index: Map<i64, Vec<usize>>,
    a: usize,
    b: usize,
    q: int,
) -> Seq<i64>
    decreases q,
{
    if q <= 0 {
        Seq::empty()
    } else if both_hold(index, keys[q - 1], a, b) {
        shared_upto(keys, index, a, b, q - 1).push(keys[q - 1])
    } else {
        shared_upto(keys, index, a, b, q - 1)
    }
}

/// What is gathered from the first keys is made of them, in their order.
pub proof fn lemma_shared_upto(keys: Seq<i64>, index: Map<i64, Vec<usize>>, a: usize, b: usize, q: int)
    requires
        0 <= q <= keys.len(),
        ascending(keys),
    ensures
        ascending(shared_upto(keys, index, a, b, q)),
        forall|h: i64|
            shared_upto(keys, index, a, b, q).contains(h) <==> (exists|i: int|
                0 <= i < q && keys[i] == h) && both_hold(index, h, a, b),
        forall|i: int|
            0 <= i < shared_upto(keys, index, a, b, q).len() ==> exists|j: int|
                0 <= j < q && keys[j] == #[trigger] shared_upto(keys, index, a, b, q)[i],
    decreases q,
{
    if q > 0 {
        lemma_shared_upto(keys, index, a, b, q - 1);
        let before = shared_upto(keys, index, a, b, q - 1);
        let now = shared_upto(keys, index, a, b, q);
        let key = keys[q - 1];
        assert forall|h: i64| now.contains(h) <==> (exists|i: int| 0 <= i < q && keys[i] == h)
            && both_hold(index, h, a, b) by {
            if now.contains(h) {
                let p = choose|p: int| 0 <= p < now.len() && now[p] == h;
                if p < before.len() {
                    assert(before[p] == h);
                    assert(before.contains(h));
                    let i = choose|i: int| 0 <= i < q - 1 && keys[i] == h;
                    assert(0 <= i < q && keys[i] == h);
                } else {
                    assert(keys[q - 1] == h);
                }
            }
            if (exists|i: int| 0 <= i < q && keys[i] == h) && both_hold(index, h, a, b) {
                let i = choose|i: int| 0 <= i < q && keys[i] == h;
                if i == q - 1 {
                    assert(now[now.len() - 1] == h);
                } else {
                    assert(0 <= i < q - 1 && keys[i] == h);
                    assert(before.contains(h));
                    let p = choose|p: int| 0 <= p < before.len() && before[p] == h;
                    assert(now[p] == h);
                }
            }
        }
        assert forall|i: int| 0 <= i < now.len() implies exists|j: int|
            0 <= j < q && keys[j] == #[trigger] now[i] by {
            if i < before.len() {
                assert(now[i] == before[i]);
                let j = choose|j: int| 0 <= j < q - 1 && keys[j] == before[i];
                assert(0 <= j < q && keys[j] == now[i]);
            } else {
                assert(keys[q - 1] == now[i]);
            }
        }
        assert forall|i: int, j: int| 0 <= i < j < now.len() implies now[i] < now[j] by {
            if j == before.len() {
                let p = choose|p: int| 0 <= p < q - 1 && keys[p] == before[i];
                assert(keys[p] < keys[q - 1]);
            }
        }
    }
}

/// Whether no row lists a submission twice.
pub open spec fn rows_distinct(by_first: Seq<Vec<Shared>>) -> bool {
    forall|a: int, p: int, q: int|
        0 <= a < by_first.len() && 0 <= p < by_first[a]@.len() && 0 <= q < by_first[a]@.len() && p
            != q ==> (#[trigger] by_first[a]@[p]).b != (#[trigger] by_first[a]@[q]).b
}

/// Whether row `a` lists `b` at place `p`.
pub open spec fn lists_at(by_first: Seq<Vec<Shared>>, a: usize, b: usize, p: int) -> bool {
    a < by_first.len() && 0 <= p < by_first[a as int]@.len() && by_first[a as int]@[p].b == b
}

/// The hashes that are gathered for `a` and `b`: none while row `a` does not list `b`.
pub open spec fn recorded(by_first: Seq<Vec<Shared>>, a: usize, b: usize) -> Seq<i64> {
    if exists|p: int| lists_at(by_first, a, b, p) {
        let p = choose|p: int| lists_at(by_first, a, b, p);
        by_first[a as int]@[p].hashes@
    } else {
        Seq::empty()
    }
}

/// Whether every entry of every row holds a hash.
pub open spec fn rows_nonempty(by_first: Seq<Vec<Shared>>) -> bool {
    forall|a: int, p: int|
        0 <= a < by_first.len() && 0 <= p < by_first[a]@.len() ==> (
        #[trigger] by_first[a]@[p]).hashes@.len() > 0
}

/// Gathers one more hash for `a` and `b`.
#[verifier::rlimit(40)]
fn record(by_first: &mut Vec<Vec<Shared>>, a: usize, b: usize, h: i64)
    requires
        a < old(by_first)@.len(),
        rows_distinct(old(by_first)@),
        rows_nonempty(old(by_first)@),
    ensures
        final(by_first)@.len() == old(by_first)@.len(),
        rows_distinct(final(by_first)@),
        rows_nonempty(final(by_first)@),
        recorded(final(by_first)@, a, b) == recorded(old(by_first)@, a, b).push(h),
        forall|x: usize, y: usize|
            x != a || y != b ==> #[trigger] recorded(final(by_first)@, x, y) == recorded(
                old(by_first)@,
                x,
                y,
            ),
{
    let ghost before = by_first@;
    let row_len: usize = by_first[a].len();
    let mut p: usize = 0;
    while p < row_len && by_first[a][p].b != b
        invariant
            by_first@ == before,
            a < before.len(),
            row_len == before[a as int]@.len(),
            p <= row_len,
            forall|q: int| 0 <= q < p ==> before[a as int]@[q].b != b,
        decreases row_len - p,
    {
        p += 1;
    }
    if p < row_len {
        by_first[a][p].hashes.push(h);
        proof {
            let after = by_first@;
            assert(lists_at(before, a, b, p as int));
            assert(lists_at(after, a, b, p as int));
            assert forall|x: usize, y: usize, q: int|
                lists_at(after, x, y, q) <==> lists_at(before, x, y, q) by {}
            assert forall|x: usize, y: usize| x != a || y != b implies #[trigger] recorded(after, x, y)
                == recorded(before, x, y) by {
                if exists|q: int| lists_at(before, x, y, q) {
                    let q = choose|q: int| lists_at(before, x, y, q);
                    assert(lists_at(after, x, y, q));
                    let q2 = choose|q: int| lists_at(after, x, y, q);
                    assert(lists_at(before, x, y, q2));
                    assert(q == q2);
                } else {
                    assert(!(exists|q: int| lists_at(after, x, y, q)));
                }
            }
            let q1 = choose|q: int| lists_at(before, a, b, q);
            let q2 = choose|q: int| lists_at(after, a, b, q);
            assert(q1 == p && q2 == p);
        }
    } else {
        let mut hashes: Vec<i64> = Vec::new();
        hashes.push(h);
        by_first[a].push(Shared { b: b, hashes: hashes });
        proof {
            let after = by_first@;
            assert(!(exists|q: int| lists_at(before, a, b, q)));
            assert(lists_at(after, a, b, row_len as int));
            assert forall|x: usize, y: usize, q: int| lists_at(before, x, y, q) implies lists_at(
                after,
                x,
                y,
                q,
            ) by {}
            assert forall|x: usize, y: usize, q: int|
                (x != a || y != b) && lists_at(after, x, y, q) implies lists_at(before, x, y, q) by {}
            assert forall|x: usize, y: usize| x != a || y != b implies #[trigger] recorded(after, x, y)
                == recorded(before, x, y) by {
                if exists|q: int| lists_at(before, x, y, q) {
                    let q = choose|q: int| lists_at(before, x, y, q);
                    assert(lists_at(after, x, y, q));
                    let q2 = choose|q: int| lists_at(after, x, y, q);
                    assert(lists_at(before, x, y, q2));
                    assert(q == q2);
                } else {
                    if exists|q: int| lists_at(after, x, y, q) {
                        let q = choose|q: int| lists_at(after, x, y, q);
                        assert(lists_at(before, x, y, q));
                    }
                }
            }
            let q2 = choose|q: int| lists_at(after, a, b, q);
            assert(q2 == row_len);
            assert(recorded(after, a, b) =~= recorded(before, a, b).push(h));
        }
    }
}

/// Hashes stand in increasing order.
impl Ranked for i64 {
    open spec fn before(&self, other: &Self) -> bool {
        *self <= *other
    }

    fn goes_before(&self, other: &Self) -> (b: bool) {
        *self <= *other
    }

    proof fn lemma_total(a: &Self, b: &Self) {
    }

    proof fn lemma_transitive(a: &Self, b: &Self, c: &Self) {
    }
}

/// Whether `a` and `b` stand in `list`, `a` before `b`, at places that come before `i` and
/// `j`: `a` before place `i`, or at it and `b` before place `j`.
pub open spec fn covered(list: Seq<usize>, i: int, j: int, a: usize, b: usize) -> bool {
    exists|x: int, y: int|
        0 <= x < y < list.len() && #[trigger] list[x] == a && #[trigger] list[y] == b && (x < i || (x
            == i && y < j))
}

/// What is gathered for `a` and `b` after the first `q` keys, and the pairs of the list of
/// key `q` that come before places `i` and `j`.
pub open spec fn gathered(
    keys: Seq<i64>,
    index: Map<i64, Vec<usize>>,
    a: usize,
    b: usize,
    q: int,
    list: Seq<usize>,
    i: int,
    j: int,
) -> Seq<i64> {
    if a >= b {
        Seq::empty()
    } else if covered(list, i, j, a, b) {
        shared_upto(keys, index, a, b, q).push(keys[q])
    } else {
        shared_upto(keys, index, a, b, q)
    }
}

/// One place further in the list, the pair of the two places is covered too, and none else;
/// it was not covered before.
proof fn lemma_covered_step(list: Seq<usize>, i: int, j: int, a: usize, b: usize)
    requires
        increasing(list),
        0 <= i < j < list.len(),
    ensures
        covered(list, i, j + 1, a, b) <==> covered(list, i, j, a, b) || (a == list[i] && b
            == list[j]),
        !covered(list, i, j, list[i], list[j]),
{
    if covered(list, i, j + 1, a, b) {
        let (x, y) = choose|x: int, y: int|
            0 <= x < y < list.len() && #[trigger] list[x] == a && #[trigger] list[y] == b && (x < i
                || (x == i && y < j + 1));
        if !(x == i && y == j) {
            assert(list[x] == a && list[y] == b && (x < i || (x == i && y < j)));
        }
    }
    if a == list[i] && b == list[j] {
        assert(list[i] == a && list[j] == b && (i < i || (i == i && j < j + 1)));
    }
    if covered(list, i, j, a, b) {
        let (x, y) = choose|x: int, y: int|
            0 <= x < y < list.len() && #[trigger] list[x] == a && #[trigger] list[y] == b && (x < i
                || (x == i && y < j));
        assert(list[x] == a && list[y] == b && (x < i || (x == i && y < j + 1)));
    }
    if covered(list, i, j, list[i], list[j]) {
        let (x, y) = choose|x: int, y: int|
            0 <= x < y < list.len() && #[trigger] list[x] == list[i] && #[trigger] list[y]
                == list[j] && (x < i || (x == i && y < j));
        if x < i {
            assert(list[x] < list[i]);
        } else {
            assert(list[y] < list[j]);
        }
    }
}

/// At the end of the places behind `i`, what is covered is what is covered at the start of
/// the places behind `i + 1`.
proof fn lemma_covered_row(list: Seq<usize>, i: int, a: usize, b: usize)
    requires
        0 <= i < list.len(),
    ensures
        covered(list, i, list.len() as int, a, b) <==> covered(list, i + 1, i + 2, a, b),
{
    if covered(list, i, list.len() as int, a, b) {
        let (x, y) = choose|x: int, y: int|
            0 <= x < y < list.len() && #[trigger] list[x] == a && #[trigger] list[y] == b && (x < i
                || (x == i && y < list.len()));
        assert(list[x] == a && list[y] == b && (x < i + 1 || (x == i + 1 && y < i + 2)));
    }
    if covered(list, i + 1, i + 2, a, b) {
        let (x, y) = choose|x: int, y: int|
            0 <= x < y < list.len() && #[trigger] list[x] == a && #[trigger] list[y] == b && (x < i
                + 1 || (x == i + 1 && y < i + 2));
        assert(list[x] == a && list[y] == b && (x < i || (x == i && y < list.len())));
    }
}

/// At the end of the list every two of its values are covered, the lesser before the
/// greater; at its start none is.
proof fn lemma_covered_all(list: Seq<usize>, a: usize, b: usize)
    requires
        increasing(list),
        a < b,
    ensures
        covered(list, list.len() as int, (list.len() + 1) as int, a, b) <==> list.contains(a)
            && list.contains(b),
        !covered(list, 0, 1, a, b),
{
    if covered(list, list.len() as int, (list.len() + 1) as int, a, b) {
        let (x, y) = choose|x: int, y: int|
            0 <= x < y < list.len() && #[trigger] list[x] == a && #[trigger] list[y] == b && (x
                < list.len() || (x == list.len() && y < list.len() + 1));
        assert(list.contains(a));
        assert(list.contains(b));
    }
    if list.contains(a) && list.contains(b) {
        let x = choose|x: int| 0 <= x < list.len() && list[x] == a;
        let y = choose|y: int| 0 <= y < list.len() && list[y] == b;
        if x >= y {
            if x > y {
                assert(list[y] < list[x]);
            }
        }
        assert(list[x] == a && list[y] == b && (x < list.len() || (x == list.len() && y
            < list.len() + 1)));
    }
}

/// For every submission, the later submissions that it shares hashes with, and the hashes
/// that they share, in increasing order.
#[verifier::rlimit(40)]
fn gather(index: &FnvHashMap<i64, Vec<usize>>, n: usize) -> (by_first: Vec<Vec<Shared>>)
    requires
        lists_in_order(index@),
        forall|h: i64, s: usize| #[trigger] holds(index@, h, s) ==> s < n,
    ensures
        by_first@.len() == n,
        rows_distinct(by_first@),
        rows_nonempty(by_first@),
        forall|a: usize, b: usize|
            a < b ==> is_shared_list(#[trigger] recorded(by_first@, a, b), index@, a, b),
        forall|a: usize, b: usize| a >= b ==> #[trigger] recorded(by_first@, a, b) == Seq::<i64>::empty(),
{
    broadcast use vstd::seq_lib::group_to_multiset_ensures;

    let unordered: Vec<i64> = index_keys(index);
    let keys: Vec<i64> = sort(unordered);
    proof {
        unordered@.lemma_multiset_has_no_duplicates();
        keys@.lemma_multiset_has_no_duplicates_conv();
        assert forall|x: int, y: int| 0 <= x < y < keys@.len() implies keys@[x] < keys@[y] by {
            assert(keys@[x].before(&keys@[y]));
        }
        assert forall|h: i64| keys@.contains(h) <==> index@.contains_key(h) by {
            assert(keys@.contains(h) <==> keys@.to_multiset().count(h) > 0);
            assert(unordered@.contains(h) <==> unordered@.to_multiset().count(h) > 0);
        }
    }
    let mut by_first: Vec<Vec<Shared>> = Vec::new();
    let mut r: usize = 0;
    while r < n
        invariant
            r <= n,
            by_first@.len() == r,
            forall|a: int| 0 <= a < r ==> (#[trigger] by_first@[a])@.len() == 0,
        decreases n - r,
    {
        by_first.push(Vec::new());
        r += 1;
    }
    proof {
        assert forall|a: usize, b: usize| #[trigger] recorded(by_first@, a, b) == Seq::<i64>::empty() by {
            assert(!(exists|p: int| lists_at(by_first@, a, b, p)));
        }
    }
    let mut q: usize = 0;
    while q < keys.len()
        invariant
            lists_in_order(index@),
            forall|h: i64, s: usize| #[trigger] holds(index@, h, s) ==> s < n,
            ascending(keys@),
            forall|h: i64| keys@.contains(h) <==> index@.contains_key(h),
            q <= keys@.len(),
            by_first@.len() == n,
            rows_distinct(by_first@),
            rows_nonempty(by_first@),
            forall|a: usize, b: usize|
                a < b ==> #[trigger] recorded(by_first@, a, b) == shared_upto(
                    keys@,
                    index@,
                    a,
                    b,
                    q as int,
                ),
            forall|a: usize, b: usize| a >= b ==> #[trigger] recorded(by_first@, a, b) == Seq::<i64>::empty(),
        decreases keys.len() - q,
    {
        let h: i64 = keys[q];
        assert(keys@.contains(h));
        if let Some(list) = index_get(index, h) {
            let mut i: usize = 0;
            proof {
                assert forall|a: usize, b: usize| #[trigger]
                    recorded(by_first@, a, b) == gathered(keys@, index@, a, b, q as int, list@, 0, 1) by {
                    if a < b {
                        lemma_covered_all(list@, a, b);
                    }
                }
            }
            while i < list.len()
                invariant
                    lists_in_order(index@),
                    forall|h: i64, s: usize| #[trigger] holds(index@, h, s) ==> s < n,
                    q < keys@.len(),
                    h == keys@[q as int],
                    index@.contains_key(h),
                    *list == index@[h],
                    increasing(list@),
                    i <= list@.len(),
                    by_first@.len() == n,
                    rows_distinct(by_first@),
                    rows_nonempty(by_first@),
                    forall|a: usize, b: usize| #[trigger]
                        recorded(by_first@, a, b) == gathered(
                            keys@,
                            index@,
                            a,
                            b,
                            q as int,
                            list@,
                            i as int,
                            i + 1,
                        ),
                decreases list.len() - i,
            {
                let a: usize = list[i];
                assert(list@.contains(a));
                assert(holds(index@, h, a));
                let mut j: usize = i + 1;
                while j < list.len()
                    invariant
                        q < keys@.len(),
                        h == keys@[q as int],
                        increasing(list@),
                        i < list@.len(),
                        a == list@[i as int],
                        a < n,
                        i < j <= list@.len(),
                        by_first@.len() == n,
                        rows_distinct(by_first@),
                        rows_nonempty(by_first@),
                        forall|x: usize, y: usize| #[trigger]
                            recorded(by_first@, x, y) == gathered(
                                keys@,
                                index@,
                                x,
                                y,
                                q as int,
                                list@,
                                i as int,
                                j as int,
                            ),
                    decreases list.len() - j,
                {
                    let b: usize = list[j];
                    let ghost before = by_first@;
                    record(&mut by_first, a, b, h);
                    proof {
                        assert(a < b);
                        assert forall|x: usize, y: usize| #[trigger]
                            recorded(by_first@, x, y) == gathered(
                                keys@,
                                index@,
                                x,
                                y,
                                q as int,
                                list@,
                                i as int,
                                j + 1,
                            ) by {
                            lemma_covered_step(list@, i as int, j as int, x, y);
                            assert(recorded(before, x, y) == gathered(
                                keys@,
                                index@,
                                x,
                                y,
                                q as int,
                                list@,
                                i as int,
                                j as int,
                            ));
                        }
                    }
                    j += 1;
                }
                proof {
                    assert forall|x: usize, y: usize| #[trigger]
                        recorded(by_first@, x, y) == gathered(
                            keys@,
                            index@,
                            x,
                            y,
                            q as int,
                            list@,
                            i + 1,
                            i + 2,
                        ) by {
                        lemma_covered_row(list@, i as int, x, y);
                    }
                }
                i += 1;
            }
            proof {
                assert forall|a: usize, b: usize| a < b implies #[trigger] recorded(by_first@, a, b)
                    == shared_upto(keys@, index@, a, b, q + 1) by {
                    lemma_covered_all(list@, a, b);
                    assert(recorded(by_first@, a, b) == gathered(
                        keys@,
                        index@,
                        a,
                        b,
                        q as int,
                        list@,
                        list@.len() as int,
                        (list@.len() + 1) as int,
                    ));
                }
                assert forall|a: usize, b: usize| a >= b implies #[trigger] recorded(by_first@, a, b)
                    == Seq::<i64>::empty() by {
                    assert(recorded(by_first@, a, b) == gathered(
                        keys@,
                        index@,
                        a,
                        b,
                        q as int,
                        list@,
                        list@.len() as int,
                        (list@.len() + 1) as int,
                    ));
                }
            }
        }
        q += 1;
    }
    proof {
        assert forall|a: usize, b: usize| a < b implies is_shared_list(
            #[trigger] recorded(by_first@, a, b),
            index@,
            a,
            b,
        ) by {
            lemma_shared_upto(keys@, index@, a, b, keys@.len() as int);
            assert forall|h: i64| recorded(by_first@, a, b).contains(h) <==> both_hold(
                index@,
                h,
                a,
                b,
            ) by {
                if both_hold(index@, h, a, b) {
                    assert(keys@.contains(h));
                    let i = choose|i: int| 0 <= i < keys@.len() && keys@[i] == h;
                    assert(0 <= i < keys@.len() && keys@[i] == h);
                }
            }
        }
    }
    by_first
}

// ---------------------------------------------------------------------------------------------
// The pairs

/// Two submissions and the hashes that they share, in specifications.
pub ghost struct PairView {
    pub a: usize,
    pub b: usize,
    pub matches: Seq<i64>,
}

/// Whether `all` holds every pair of submissions that share a hash, each once, the earlier
/// submission as `a`, with the hashes that the two share in increasing order.
pub open spec fn is_all_pairs(all: Seq<PairView>, index: Map<i64, Vec<usize>>, n: nat) -> bool {
    &&& forall|i: int|
        0 <= i < all.len() ==> (#[trigger] all[i]).a < all[i].b < n && all[i].matches.len() > 0
            && is_shared_list(all[i].matches, index, all[i].a, all[i].b)
    &&& forall|a: usize, b: usize, h: i64|
        a < b && #[trigger] both_hold(index, h, a, b) ==> exists|i: int|
            0 <= i < all.len() && (#[trigger] all[i]).a == a && all[i].b == b
    &&& forall|i: int, j: int|
        0 <= i < all.len() && 0 <= j < all.len() && i != j ==> !((#[trigger] all[i]).a == (
        #[trigger] all[j]).a && all[i].b == all[j].b)
}

/// The greatest number of hashes that a pair of `all` shares; 0 where there is no pair.
pub open spec fn most_shared(all: Seq<PairView>) -> nat
    decreases all.len(),
{
    if all.len() == 0 {
        0
    } else if all.last().matches.len() > most_shared(all.drop_last()) {
        all.last().matches.len()
    } else {
        most_shared(all.drop_last())
    }
}

/// Whether a pair that shares `count` hashes, where `most` is the most that any pair
/// shares, reaches the threshold: `count / most >= threshold`.
pub open spec fn passes(count: nat, most: nat, threshold: Ratio) -> bool {
    count * threshold.whole >= threshold.part * most
}

/// The number of different hashes that the fingerprints of `sub` have.
pub open spec fn distinct_hashes(sub: Sub) -> nat {
    docs_hashes(sub.documents@, sub.documents@.len() as int).len()
}

/// Whether `pair` reports `cand`: the same submissions and hashes; as percentile the number
/// of shared hashes against `most`; and for each submission the number of shared hashes
/// against the number of its different hashes.
pub open spec fn reports(pair: SubPair, cand: PairView, most: nat, subs: Seq<Sub>) -> bool {
    &&& pair.a == cand.a
    &&& pair.b == cand.b
    &&& pair.matches@ == cand.matches
    &&& pair.percentile.part == cand.matches.len()
    &&& pair.percentile.whole == most
    &&& pair.a_percent.part == cand.matches.len()
    &&& pair.a_percent.whole == distinct_hashes(subs[cand.a as int])
    &&& pair.b_percent.part == cand.matches.len()
    &&& pair.b_percent.whole == distinct_hashes(subs[cand.b as int])
}

/// Pairs stand in the order of the number of hashes that they share, the most first; with
/// as many, in the order of their first submission, and then of their second.
impl Ranked for SubPair {
    open spec fn before(&self, other: &Self) -> bool {
        self.matches@.len() > other.matches@.len() || (self.matches@.len() == other.matches@.len()
            && (self.a < other.a || (self.a == other.a && self.b <= other.b)))
    }

    fn goes_before(&self, other: &Self) -> (b: bool) {
        self.matches.len() > other.matches.len() || (self.matches.len() == other.matches.len() && (
        self.a < other.a || (self.a == other.a && self.b <= other.b)))
    }

    proof fn lemma_total(a: &Self, b: &Self) {
    }

    proof fn lemma_transitive(a: &Self, b: &Self, c: &Self) {
    }
}

/// Whether `pair` reports one of `all` that reaches the threshold.
pub open spec fn reported(
    pair: SubPair,
    all: Seq<PairView>,
    most: nat,
    subs: Seq<Sub>,
    threshold: Ratio,
) -> bool {
    exists|j: int|
        0 <= j < all.len() && reports(pair, #[trigger] all[j], most, subs) && passes(
            all[j].matches.len(),
            most,
            threshold,
        )
}

/// Whether `found` holds a pair of `a` and `b`.
pub open spec fn has_pair(found: Seq<SubPair>, a: int, b: usize) -> bool {
    exists|i: int| 0 <= i < found.len() && (#[trigger] found[i]).a == a && found[i].b == b
}

/// Whether no two of `pairs` are of the same two submissions.
pub open spec fn pairs_distinct(pairs: Seq<SubPair>) -> bool {
    forall|i: int, j: int|
        0 <= i < pairs.len() && 0 <= j < pairs.len() && i != j ==> !((#[trigger] pairs[i]).a == (
        #[trigger] pairs[j]).a && pairs[i].b == pairs[j].b)
}

/// Whether `pairs` is the report on `all`: the pairs of `all` that reach the threshold, each
/// once, in their order.
pub open spec fn is_report(
    pairs: Seq<SubPair>,
    all: Seq<PairView>,
    subs: Seq<Sub>,
    threshold: Ratio,
) -> bool {
    let most = most_shared(all);
    &&& forall|i: int| 0 <= i < pairs.len() ==> reported(#[trigger] pairs[i], all, most, subs, threshold)
    &&& forall|j: int|
        0 <= j < all.len() && passes((#[trigger] all[j]).matches.len(), most, threshold) ==> has_pair(
            pairs,
            all[j].a as int,
            all[j].b,
        )
    &&& pairs_distinct(pairs)
    &&& sorted(pairs)
}

/// The pair of a candidate.
pub open spec fn pair_view(pair: SubPair) -> PairView {
    PairView { a: pair.a, b: pair.b, matches: pair.matches@ }
}

/// The pairs of `found` as candidates.
pub open spec fn pair_views(found: Seq<SubPair>) -> Seq<PairView> {
    Seq::new(found.len(), |i: int| pair_view(found[i]))
}

/// A copy of `hashes`.
fn copy_hashes(hashes: &Vec<i64>) -> (copy: Vec<i64>)
    ensures
        copy@ == hashes@,
{
    let mut copy: Vec<i64> = Vec::new();
    let mut i: usize = 0;
    while i < hashes.len()
        invariant
            i <= hashes@.len(),
            copy@ == hashes@.take(i as int),
        decreases hashes.len() - i,
    {
        copy.push(hashes[i]);
        i += 1;
        assert(copy@ =~= hashes@.take(i as int));
    }
    assert(hashes@.take(hashes@.len() as int) =~= hashes@);
    copy
}

/// The number of different hashes that the fingerprints of `sub` have.
fn count_hashes(sub: &Sub) -> (count: usize)
    ensures
        count == distinct_hashes(*sub),
{
    broadcast use vstd::std_specs::hash::group_hash_axioms;

    let mut seen: HashSet<i64> = HashSet::new();
    let mut d: usize = 0;
    assert(seen@ =~= docs_hashes(sub.documents@, 0));
    while d < sub.documents.len()
        invariant
            d <= sub.documents@.len(),
            seen@ == docs_hashes(sub.documents@, d as int),
        decreases sub.documents.len() - d,
    {
        match &sub.documents[d] {
            Doc::Processed(_, fps) => {
                insert_hashes(&mut seen, fps);
            },
            Doc::Unprocessed(_) => {
                assert(hashes_of(sub.documents@[d as int].fingerprints()) =~= Set::<i64>::empty());
                assert(seen@ + hashes_of(sub.documents@[d as int].fingerprints()) =~= seen@);
            },
        }
        d += 1;
    }
    seen.len()
}

/// The hashes of fingerprints are finitely many.
pub proof fn lemma_hashes_finite(docs: Seq<Doc>, n: int)
    requires
        0 <= n <= docs.len(),
    ensures
        docs_hashes(docs, n).finite(),
    decreases n,
{
    if n > 0 {
        lemma_hashes_finite(docs, n - 1);
        let fps = docs[n - 1].fingerprints();
        let hashes = fps.map_values(|fp: crate::fingerprint::Fingerprint| fp.hash);
        assert(hashes_of(fps) =~= hashes.to_set()) by {
            assert forall|h: i64| hashes_of(fps).contains(h) <==> hashes.to_set().contains(h) by {
                if hashes_of(fps).contains(h) {
                    let i = choose|i: int| 0 <= i < fps.len() && (#[trigger] fps[i]).hash == h;
                    assert(hashes[i] == h);
                }
                if hashes.to_set().contains(h) {
                    let i = choose|i: int| 0 <= i < hashes.len() && hashes[i] == h;
                    assert(fps[i].hash == h);
                }
            }
        }
        vstd::seq_lib::seq_to_set_is_finite(hashes);
        vstd::set_lib::lemma_set_union_finite_iff(
            docs_hashes(docs, n - 1),
            hashes_of(docs[n - 1].fingerprints()),
        );
    }
}

/// A submission shares no more hashes than it has.
pub proof fn lemma_shared_is_part(
    list: Seq<i64>,
    index: Map<i64, Vec<usize>>,
    subs: Seq<Sub>,
    a: usize,
    b: usize,
)
    requires
        is_index_of(index, subs),
        is_shared_list(list, index, a, b),
    ensures
        list.len() <= distinct_hashes(subs[a as int]) || list.len() == 0,
        list.len() <= distinct_hashes(subs[b as int]) || list.len() == 0,
{
    if list.len() > 0 {
        assert(list.contains(list[0]));
        assert(holds(index, list[0], a) && holds(index, list[0], b));
        assert(list.no_duplicates()) by {
            assert forall|i: int, j: int| 0 <= i < list.len() && 0 <= j < list.len() && i != j implies list[i]
                != list[j] by {
                if i < j {
                    assert(list[i] < list[j]);
                } else {
                    assert(list[j] < list[i]);
                }
            }
        }
        list.unique_seq_to_set();
        let docs_a = subs[a as int].documents@;
        let docs_b = subs[b as int].documents@;
        lemma_hashes_finite(docs_a, docs_a.len() as int);
        lemma_hashes_finite(docs_b, docs_b.len() as int);
        assert(list.to_set().subset_of(docs_hashes(docs_a, docs_a.len() as int))) by {
            assert forall|h: i64| list.to_set().contains(h) implies docs_hashes(
                docs_a,
                docs_a.len() as int,
            ).contains(h) by {
                assert(list.contains(h));
                assert(holds(index, h, a));
                lemma_docs_hashes(docs_a, docs_a.len() as int, h);
            }
        }
        assert(list.to_set().subset_of(docs_hashes(docs_b, docs_b.len() as int))) by {
            assert forall|h: i64| list.to_set().contains(h) implies docs_hashes(
                docs_b,
                docs_b.len() as int,
            ).contains(h) by {
                assert(list.contains(h));
                assert(holds(index, h, b));
                lemma_docs_hashes(docs_b, docs_b.len() as int, h);
            }
        }
        vstd::set_lib::lemma_len_subset(list.to_set(), docs_hashes(docs_a, docs_a.len() as int));
        vstd::set_lib::lemma_len_subset(list.to_set(), docs_hashes(docs_b, docs_b.len() as int));
    }
}

/// The entry of row `a` at place `p` is what is gathered for `a` and the submission that
/// the entry names.
proof fn lemma_entry_recorded(by_first: Seq<Vec<Shared>>, a: usize, p: int)
    requires
        rows_distinct(by_first),
        a < by_first.len(),
        0 <= p < by_first[a as int]@.len(),
    ensures
        recorded(by_first, a, by_first[a as int]@[p].b) == by_first[a as int]@[p].hashes@,
{
    let b = by_first[a as int]@[p].b;
    assert(lists_at(by_first, a, b, p));
    let q = choose|q: int| lists_at(by_first, a, b, q);
    assert(q == p);
}

/// Whether one of the first `p` entries of `row` names `b`.
pub open spec fn names(row: Seq<Shared>, p: int, b: usize) -> bool {
    exists|q: int| 0 <= q < p && (#[trigger] row[q]).b == b
}

/// Every pair of submissions that share a hash, with what they share. The percentile is
/// left open: it is the share of the whole that the pair itself is.
#[verifier::rlimit(40)]
fn all_pairs(index: &FnvHashMap<i64, Vec<usize>>, subs: &Vec<Sub>) -> (found: Vec<SubPair>)
    requires
        is_index_of(index@, subs@),
    ensures
        is_all_pairs(pair_views(found@), index@, subs@.len()),
        forall|i: int|
            0 <= i < found@.len() ==> reports(
                #[trigger] found@[i],
                pair_view(found@[i]),
                found@[i].matches@.len(),
                subs@,
            ),
{
    let n: usize = subs.len();
    let by_first: Vec<Vec<Shared>> = gather(index, n);
    let mut wholes: Vec<usize> = Vec::new();
    let mut s: usize = 0;
    while s < n
        invariant
            n == subs@.len(),
            s <= n,
            wholes@.len() == s,
            forall|x: int| 0 <= x < s ==> #[trigger] wholes@[x] == distinct_hashes(subs@[x]),
        decreases n - s,
    {
        wholes.push(count_hashes(&subs[s]));
        s += 1;
    }
    let mut found: Vec<SubPair> = Vec::new();
    let mut a: usize = 0;
    while a < n
        invariant
            is_index_of(index@, subs@),
            n == subs@.len(),
            by_first@.len() == n,
            rows_distinct(by_first@),
            rows_nonempty(by_first@),
            forall|x: usize, y: usize|
                x < y ==> is_shared_list(#[trigger] recorded(by_first@, x, y), index@, x, y),
            forall|x: usize, y: usize| x >= y ==> #[trigger] recorded(by_first@, x, y) == Seq::<i64>::empty(),
            wholes@.len() == n,
            forall|x: int| 0 <= x < n ==> #[trigger] wholes@[x] == distinct_hashes(subs@[x]),
            a <= n,
            forall|i: int|
                0 <= i < found@.len() ==> (#[trigger] found@[i]).a < a && found@[i].a < found@[i].b
                    < n && found@[i].matches@.len() > 0 && is_shared_list(
                    found@[i].matches@,
                    index@,
                    found@[i].a,
                    found@[i].b,
                ) && reports(found@[i], pair_view(found@[i]), found@[i].matches@.len(), subs@),
            forall|x: int, p: int|
                0 <= x < a && 0 <= p < by_first@[x]@.len() ==> has_pair(
                    found@,
                    x,
                    (#[trigger] by_first@[x]@[p]).b,
                ),
            forall|i: int, j: int|
                0 <= i < found@.len() && 0 <= j < found@.len() && i != j ==> !((
                #[trigger] found@[i]).a == (#[trigger] found@[j]).a && found@[i].b
                    == found@[j].b),
        decreases n - a,
    {
        let row: &Vec<Shared> = &by_first[a];
        let mut p: usize = 0;
        while p < row.len()
            invariant
                is_index_of(index@, subs@),
                n == subs@.len(),
                by_first@.len() == n,
                rows_distinct(by_first@),
                rows_nonempty(by_first@),
                forall|x: usize, y: usize|
                    x < y ==> is_shared_list(#[trigger] recorded(by_first@, x, y), index@, x, y),
                forall|x: usize, y: usize|
                    x >= y ==> #[trigger] recorded(by_first@, x, y) == Seq::<i64>::empty(),
                wholes@.len() == n,
                forall|x: int| 0 <= x < n ==> #[trigger] wholes@[x] == distinct_hashes(subs@[x]),
                a < n,
                *row == by_first@[a as int],
                p <= row@.len(),
                forall|i: int|
                    0 <= i < found@.len() ==> (#[trigger] found@[i]).a <= a && found@[i].a
                        < found@[i].b < n && found@[i].matches@.len() > 0 && is_shared_list(
                        found@[i].matches@,
                        index@,
                        found@[i].a,
                        found@[i].b,
                    ) && reports(found@[i], pair_view(found@[i]), found@[i].matches@.len(), subs@),
                forall|i: int|
                    0 <= i < found@.len() && (#[trigger] found@[i]).a == a ==> names(
                        row@,
                        p as int,
                        found@[i].b,
                    ),
                forall|x: int, q: int|
                    (0 <= x < a && 0 <= q < by_first@[x]@.len()) || (x == a && 0 <= q < p)
                        ==> has_pair(found@, x, (#[trigger] by_first@[x]@[q]).b),
                forall|i: int, j: int|
                    0 <= i < found@.len() && 0 <= j < found@.len() && i != j ==> !((
                    #[trigger] found@[i]).a == (#[trigger] found@[j]).a && found@[i].b
                        == found@[j].b),
            decreases row.len() - p,
        {
            let b: usize = row[p].b;
            let matches: Vec<i64> = copy_hashes(&row[p].hashes);
            let count: usize = matches.len();
            proof {
                lemma_entry_recorded(by_first@, a, p as int);
                assert(row@[p as int].hashes@.len() > 0);
                assert(a < b);
                assert(is_shared_list(recorded(by_first@, a, b), index@, a, b));
                assert(matches@.contains(matches@[0]));
                assert(holds(index@, matches@[0], b));
                lemma_shared_is_part(matches@, index@, subs@, a, b);
            }
            let ghost before = found@;
            let whole_b: usize = wholes[b];
            found.push(
                SubPair {
                    a: a,
                    a_percent: Ratio { part: count as u64, whole: wholes[a] as u64 },
                    b: b,
                    b_percent: Ratio { part: count as u64, whole: whole_b as u64 },
                    matches: matches,
                    percentile: Ratio { part: count as u64, whole: count as u64 },
                },
            );
            proof {
                let last = before.len() as int;
                assert forall|i: int, j: int|
                    0 <= i < found@.len() && 0 <= j < found@.len() && i != j implies !((
                #[trigger] found@[i]).a == (#[trigger] found@[j]).a && found@[i].b == found@[j].b) by {
                    if i == last && found@[j].a == a {
                        assert(found@[j] == before[j]);
                        assert(names(row@, p as int, before[j].b));
                        let q = choose|q: int| 0 <= q < p && (#[trigger] row@[q]).b == before[j].b;
                        assert(row@[q].b != row@[p as int].b);
                    }
                    if j == last && found@[i].a == a {
                        assert(found@[i] == before[i]);
                        assert(names(row@, p as int, before[i].b));
                        let q = choose|q: int| 0 <= q < p && (#[trigger] row@[q]).b == before[i].b;
                        assert(row@[q].b != row@[p as int].b);
                    }
                    if i != last && j != last {
                        assert(found@[i] == before[i] && found@[j] == before[j]);
                    }
                }
                assert forall|x: int, q: int|
                    (0 <= x < a && 0 <= q < by_first@[x]@.len()) || (x == a && 0 <= q < p
                        + 1) implies has_pair(found@, x, (#[trigger] by_first@[x]@[q]).b) by {
                    if x == a && q == p {
                        assert(found@[last].a == x && found@[last].b == by_first@[x]@[q].b);
                    } else {
                        assert(has_pair(before, x, by_first@[x]@[q].b));
                        let i = choose|i: int|
                            0 <= i < before.len() && (#[trigger] before[i]).a == x && before[i].b
                                == by_first@[x]@[q].b;
                        assert(found@[i] == before[i]);
                    }
                }
                assert forall|i: int|
                    0 <= i < found@.len() && (#[trigger] found@[i]).a == a implies names(
                    row@,
                    p + 1,
                    found@[i].b,
                ) by {
                    if i == last {
                        assert(row@[p as int].b == found@[i].b);
                    } else {
                        assert(found@[i] == before[i]);
                        assert(names(row@, p as int, before[i].b));
                        let q = choose|q: int| 0 <= q < p && (#[trigger] row@[q]).b == before[i].b;
                        assert(0 <= q < p + 1 && row@[q].b == found@[i].b);
                    }
                }
            }
            p += 1;
        }
        a += 1;
    }
    proof {
        let all = pair_views(found@);
        assert forall|x: usize, y: usize, h: i64| x < y && #[trigger] both_hold(index@, h, x, y) implies exists|
            i: int,
        | 0 <= i < all.len() && (#[trigger] all[i]).a == x && all[i].b == y by {
            assert(holds(index@, h, x));
            assert(is_shared_list(recorded(by_first@, x, y), index@, x, y));
            assert(recorded(by_first@, x, y).contains(h));
            assert(exists|p: int| lists_at(by_first@, x, y, p));
            let p = choose|p: int| lists_at(by_first@, x, y, p);
            assert(has_pair(found@, x as int, by_first@[x as int]@[p].b));
            let i = choose|i: int|
                0 <= i < found@.len() && (#[trigger] found@[i]).a == x && found@[i].b == y;
            assert(all[i].a == x && all[i].b == y);
        }
        assert forall|i: int|
            0 <= i < all.len() implies (#[trigger] all[i]).a < all[i].b < subs@.len()
            && all[i].matches.len() > 0 && is_shared_list(
            all[i].matches,
            index@,
            all[i].a,
            all[i].b,
        ) by {
            assert(found@[i].a < n);
        }
        assert forall|i: int, j: int|
            0 <= i < all.len() && 0 <= j < all.len() && i != j implies !((#[trigger] all[i]).a == (
        #[trigger] all[j]).a && all[i].b == all[j].b) by {
            assert(!(found@[i].a == found@[j].a && found@[i].b == found@[j].b));
        }
    }
    found
}

/// The greatest number of shared hashes is the number of some pair, and no pair shares more.
pub proof fn lemma_most_shared(all: Seq<PairView>)
    ensures
        forall|i: int| 0 <= i < all.len() ==> (#[trigger] all[i]).matches.len() <= most_shared(all),
        all.len() > 0 ==> exists|i: int|
            0 <= i < all.len() && (#[trigger] all[i]).matches.len() == most_shared(all),
    decreases all.len(),
{
    if all.len() > 0 {
        let front = all.drop_last();
        lemma_most_shared(front);
        assert forall|i: int| 0 <= i < all.len() implies (#[trigger] all[i]).matches.len()
            <= most_shared(all) by {
            if i < front.len() {
                assert(front[i] == all[i]);
            }
        }
        if all.last().matches.len() > most_shared(front) || front.len() == 0 {
            assert(all[all.len() - 1].matches.len() == most_shared(all));
        } else {
            let i = choose|i: int|
                0 <= i < front.len() && (#[trigger] front[i]).matches.len() == most_shared(front);
            assert(all[i] == front[i]);
        }
    }
}

/// What holds the same pairs as a report, each as often, and in order, is the report.
proof fn lemma_same_pairs(
    kept: Seq<SubPair>,
    out: Seq<SubPair>,
    all: Seq<PairView>,
    subs: Seq<Sub>,
    threshold: Ratio,
)
    requires
        out.to_multiset() == kept.to_multiset(),
        sorted(out),
        forall|i: int|
            0 <= i < kept.len() ==> reported(#[trigger] kept[i], all, most_shared(all), subs, threshold),
        forall|j: int|
            0 <= j < all.len() && passes((#[trigger] all[j]).matches.len(), most_shared(all), threshold)
                ==> has_pair(kept, all[j].a as int, all[j].b),
        pairs_distinct(kept),
    ensures
        is_report(out, all, subs, threshold),
        forall|i: int| 0 <= i < out.len() ==> kept.contains(#[trigger] out[i]),
{
    broadcast use vstd::seq_lib::group_to_multiset_ensures;

    let most = most_shared(all);
    assert forall|i: int| 0 <= i < out.len() implies kept.contains(#[trigger] out[i]) by {
        assert(out.contains(out[i]));
        assert(kept.to_multiset().count(out[i]) > 0);
    }
    assert forall|i: int| 0 <= i < out.len() implies reported(
        #[trigger] out[i],
        all,
        most,
        subs,
        threshold,
    ) by {
        assert(kept.contains(out[i]));
        let k = choose|k: int| 0 <= k < kept.len() && kept[k] == out[i];
        assert(reported(kept[k], all, most, subs, threshold));
    }
    assert forall|j: int|
        0 <= j < all.len() && passes((#[trigger] all[j]).matches.len(), most, threshold) implies has_pair(
        out,
        all[j].a as int,
        all[j].b,
    ) by {
        assert(has_pair(kept, all[j].a as int, all[j].b));
        let k = choose|k: int|
            0 <= k < kept.len() && (#[trigger] kept[k]).a == all[j].a && kept[k].b == all[j].b;
        assert(kept.contains(kept[k]));
        assert(out.to_multiset().count(kept[k]) > 0);
        assert(out.contains(kept[k]));
        let i = choose|i: int| 0 <= i < out.len() && out[i] == kept[k];
        assert(out[i].a == all[j].a && out[i].b == all[j].b);
    }
    assert(kept.no_duplicates()) by {
        assert forall|i: int, j: int| 0 <= i < kept.len() && 0 <= j < kept.len() && i != j implies kept[i]
            != kept[j] by {
            assert(!(kept[i].a == kept[j].a && kept[i].b == kept[j].b));
        }
    }
    kept.lemma_multiset_has_no_duplicates();
    out.lemma_multiset_has_no_duplicates_conv();
    assert forall|i: int, j: int| 0 <= i < out.len() && 0 <= j < out.len() && i != j implies !((
    #[trigger] out[i]).a == (#[trigger] out[j]).a && out[i].b == out[j].b) by {
        assert(out[i] != out[j]);
        assert(kept.contains(out[i]));
        assert(kept.contains(out[j]));
        let k1 = choose|k: int| 0 <= k < kept.len() && kept[k] == out[i];
        let k2 = choose|k: int| 0 <= k < kept.len() && kept[k] == out[j];
        assert(k1 != k2);
        assert(!(kept[k1].a == kept[k2].a && kept[k1].b == kept[k2].b));
    }
}

/// Whether a pair with `count` shared hashes reaches the threshold.
fn reaches(count: usize, most: usize, threshold: &Ratio) -> (b: bool)
    ensures
        b == passes(count as nat, most as nat, *threshold),
{
    proof {
        vstd::arithmetic::mul::lemma_mul_upper_bound(
            count as int,
            u64::MAX as int,
            threshold.whole as int,
            u64::MAX as int,
        );
        vstd::arithmetic::mul::lemma_mul_upper_bound(
            threshold.part as int,
            u64::MAX as int,
            most as int,
            u64::MAX as int,
        );
        vstd::arithmetic::mul::lemma_mul_nonnegative(count as int, threshold.whole as int);
        vstd::arithmetic::mul::lemma_mul_nonnegative(threshold.part as int, most as int);
        assert(u64::MAX * u64::MAX <= u128::MAX) by (nonlinear_arith);
    }
    (count as u128) * (threshold.whole as u128) >= (threshold.part as u128) * (most as u128)
}

/// The pairs of submissions that share fingerprints, and how many such pairs there are.
///
/// Two submissions share the hashes that the index lists both of them for. The percentile
/// of a pair is the number of its shared hashes against the greatest such number of any
/// pair. The pairs whose percentile is at least `threshold` are given, those that share
/// most first; pairs that share as much stand in the order of their first submission, then
/// of their second. With them comes the number of all pairs, whatever their percentile.
/// A threshold that is not between 0 and 1 is refused.
#[verifier::rlimit(40)]
pub fn find_overlaps(
    hash_to_subs: &FnvHashMap<i64, Vec<usize>>,
    subs: &Vec<Sub>,
    threshold: Ratio,
) -> (result: Result<(Vec<SubPair>, usize), Error>)
    requires
        is_index_of(hash_to_subs@, subs@),
    ensures
        !threshold.is_share() ==> result == Err::<(Vec<SubPair>, usize), Error>(
            Error::ThresholdOutOfRange,
        ),
        threshold.is_share() ==> result is Ok && exists|all: Seq<PairView>|
            is_all_pairs(all, hash_to_subs@, subs@.len()) && result->Ok_0.1 == all.len()
                && #[trigger] is_report(result->Ok_0.0@, all, subs@, threshold),
        result is Ok ==> forall|i: int|
            0 <= i < result->Ok_0.0@.len() ==> (#[trigger] result->Ok_0.0@[i]).a_percent.is_share()
                && result->Ok_0.0@[i].b_percent.is_share()
                && result->Ok_0.0@[i].percentile.is_share(),
{
    if threshold.whole == 0 || threshold.part > threshold.whole {
        return Err(Error::ThresholdOutOfRange);
    }
    let mut found: Vec<SubPair> = all_pairs(hash_to_subs, subs);
    let total: usize = found.len();
    let ghost gathered_pairs = found@;
    let ghost all = pair_views(gathered_pairs);
    assert(is_all_pairs(all, hash_to_subs@, subs@.len()));
    let mut most: usize = 0;
    let mut i: usize = 0;
    assert(all.take(0) =~= Seq::<PairView>::empty());
    while i < found.len()
        invariant
            found@ == gathered_pairs,
            all == pair_views(gathered_pairs),
            i <= found@.len(),
            most == most_shared(all.take(i as int)),
        decreases found.len() - i,
    {
        if found[i].matches.len() > most {
            most = found[i].matches.len();
        }
        i += 1;
        proof {
            assert(all.take(i as int).drop_last() =~= all.take(i - 1));
            assert(all.take(i as int).last() == all[i - 1]);
        }
    }
    assert(all.take(all.len() as int) =~= all);
    proof {
        lemma_most_shared(all);
    }
    let mut kept: Vec<SubPair> = Vec::new();
    while found.len() > 0
        invariant
            is_index_of(hash_to_subs@, subs@),
            is_all_pairs(all, hash_to_subs@, subs@.len()),
            threshold.is_share(),
            all == pair_views(gathered_pairs),
            found@ == gathered_pairs.take(found@.len() as int),
            found@.len() <= gathered_pairs.len(),
            most == most_shared(all),
            forall|j: int| 0 <= j < all.len() ==> (#[trigger] all[j]).matches.len() <= most,
            forall|j: int|
                0 <= j < gathered_pairs.len() ==> reports(
                    #[trigger] gathered_pairs[j],
                    pair_view(gathered_pairs[j]),
                    gathered_pairs[j].matches@.len(),
                    subs@,
                ),
            forall|x: int|
                0 <= x < kept@.len() ==> reported(
                    #[trigger] kept@[x],
                    all,
                    most as nat,
                    subs@,
                    threshold,
                ) && kept@[x].a_percent.is_share() && kept@[x].b_percent.is_share()
                    && kept@[x].percentile.is_share(),
            forall|x: int|
                0 <= x < kept@.len() ==> exists|j: int|
                    found@.len() <= j < all.len() && (#[trigger] all[j]).a == (#[trigger] kept@[x]).a
                        && all[j].b == kept@[x].b,
            forall|j: int|
                found@.len() <= j < all.len() && passes(
                    (#[trigger] all[j]).matches.len(),
                    most as nat,
                    threshold,
                ) ==> has_pair(kept@, all[j].a as int, all[j].b),
            pairs_distinct(kept@),
        decreases found.len(),
    {
        let pair: SubPair = found.pop().unwrap();
        let ghost j = found@.len() as int;
        let ghost before = kept@;
        assert(pair == gathered_pairs[j]);
        assert(all[j] == pair_view(pair));
        assert(found@ =~= gathered_pairs.take(j));
        let count: usize = pair.matches.len();
        let pass: bool = reaches(count, most, &threshold);
        if pass {
            proof {
                lemma_shared_is_part(pair.matches@, hash_to_subs@, subs@, pair.a, pair.b);
                assert(all[j].matches.len() > 0);
                assert(all[j].matches.len() <= most);
            }
            kept.push(
                SubPair {
                    a: pair.a,
                    a_percent: pair.a_percent,
                    b: pair.b,
                    b_percent: pair.b_percent,
                    matches: pair.matches,
                    percentile: Ratio { part: count as u64, whole: most as u64 },
                },
            );
            proof {
                let last = before.len() as int;
                assert(reports(kept@[last], all[j], most as nat, subs@));
                assert(reported(kept@[last], all, most as nat, subs@, threshold));
                assert forall|x: int| 0 <= x < kept@.len() implies exists|y: int|
                    j <= y < all.len() && (#[trigger] all[y]).a == (#[trigger] kept@[x]).a && all[y].b
                        == kept@[x].b by {
                    if x < last {
                        assert(kept@[x] == before[x]);
                        let y = choose|y: int|
                            j + 1 <= y < all.len() && (#[trigger] all[y]).a == before[x].a && all[y].b
                                == before[x].b;
                        assert(j <= y < all.len() && all[y].a == kept@[x].a && all[y].b == kept@[x].b);
                    } else {
                        assert(all[j].a == kept@[x].a && all[j].b == kept@[x].b);
                    }
                }
                assert forall|x: int, y: int|
                    0 <= x < kept@.len() && 0 <= y < kept@.len() && x != y implies !((
                #[trigger] kept@[x]).a == (#[trigger] kept@[y]).a && kept@[x].b == kept@[y].b) by {
                    if x == last {
                        assert(kept@[y] == before[y]);
                        let z = choose|z: int|
                            j + 1 <= z < all.len() && (#[trigger] all[z]).a == before[y].a && all[z].b
                                == before[y].b;
                        assert(!(all[z].a == all[j].a && all[z].b == all[j].b));
                    } else if y == last {
                        assert(kept@[x] == before[x]);
                        let z = choose|z: int|
                            j + 1 <= z < all.len() && (#[trigger] all[z]).a == before[x].a && all[z].b
                                == before[x].b;
                        assert(!(all[z].a == all[j].a && all[z].b == all[j].b));
                    } else {
                        assert(kept@[x] == before[x] && kept@[y] == before[y]);
                    }
                }
                assert forall|y: int|
                    j <= y < all.len() && passes(
                        (#[trigger] all[y]).matches.len(),
                        most as nat,
                        threshold,
                    ) implies has_pair(kept@, all[y].a as int, all[y].b) by {
                    if y == j {
                        assert(kept@[last].a == all[y].a && kept@[last].b == all[y].b);
                    } else {
                        assert(has_pair(before, all[y].a as int, all[y].b));
                        let x = choose|x: int|
                            0 <= x < before.len() && (#[trigger] before[x]).a == all[y].a
                                && before[x].b == all[y].b;
                        assert(kept@[x] == before[x]);
                    }
                }
                assert forall|x: int| 0 <= x < kept@.len() implies reported(
                    #[trigger] kept@[x],
                    all,
                    most as nat,
                    subs@,
                    threshold,
                ) && kept@[x].a_percent.is_share() && kept@[x].b_percent.is_share()
                    && kept@[x].percentile.is_share() by {
                    if x < last {
                        assert(kept@[x] == before[x]);
                    }
                }
            }
        } else {
            proof {
                assert forall|x: int| 0 <= x < kept@.len() implies exists|y: int|
                    j <= y < all.len() && (#[trigger] all[y]).a == (#[trigger] kept@[x]).a && all[y].b
                        == kept@[x].b by {
                    let y = choose|y: int|
                        j + 1 <= y < all.len() && (#[trigger] all[y]).a == kept@[x].a && all[y].b
                            == kept@[x].b;
                    assert(j <= y < all.len() && all[y].a == kept@[x].a && all[y].b == kept@[x].b);
                }
            }
        }
    }
    let pairs: Vec<SubPair> = sort(kept);
    proof {
        lemma_same_pairs(kept@, pairs@, all, subs@, threshold);
        assert forall|x: int| 0 <= x < pairs@.len() implies (#[trigger] pairs@[x]).a_percent.is_share()
            && pairs@[x].b_percent.is_share() && pairs@[x].percentile.is_share() by {
            assert(kept@.contains(pairs@[x]));
            let y = choose|y: int| 0 <= y < kept@.len() && kept@[y] == pairs@[x];
            assert(kept@[y].a_percent.is_share());
        }
        assert(is_report(pairs@, all, subs@, threshold));
        assert(total == all.len());
        assert(is_all_pairs(all, hash_to_subs@, subs@.len()));
        assert(exists|every: Seq<PairView>|
            is_all_pairs(every, hash_to_subs@, subs@.len()) && total == every.len()
                && #[trigger] is_report(pairs@, every, subs@, threshold));
    }
    let result: Result<(Vec<SubPair>, usize), Error> = Ok((pairs, total));
    assert(result->Ok_0.0@ == pairs@ && result->Ok_0.1 == total);
    result
}

/// Every hash that a pair shares is the hash of a fingerprint of each of its two
/// submissions.
pub proof fn lemma_matches_are_held(
    index: Map<i64, Vec<usize>>,
    subs: Seq<Sub>,
    matches: Seq<i64>,
    a: usize,
    b: usize,
    h: i64,
)
    requires
        is_index_of(index, subs),
        is_shared_list(matches, index, a, b),
        matches.contains(h),
    ensures
        a < subs.len(),
        b < subs.len(),
        sub_has_hash(subs[a as int], h),
        sub_has_hash(subs[b as int], h),
{
    assert(holds(index, h, a) && holds(index, h, b));
}

} // verus!
