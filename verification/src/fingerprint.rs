//! Document fingerprints: hashes of k-grams, selected by robust winnowing.

use crate::normalize::{is_line_of, line_of, NormText};
use crate::text::chars_of;
use vstd::arithmetic::div_mod::*;
use vstd::arithmetic::mul::*;
use vstd::arithmetic::power::*;
use vstd::prelude::*;

verus! {

/// The hash of a k-gram of a document, and the lines of the document, first and last, that
/// the k-gram lies on.
#[derive(Debug, Clone, Copy, PartialEq, Eq, PartialOrd, Ord, Hash)]
pub struct Fingerprint {
    pub hash: i64,
    pub lines: (i32, i32),
}

/// The base of the polynomial hash: the size of the byte alphabet.
pub const BASE: i64 = 256;

/// The prime modulus of every hash computation.
pub const PRIME_MODULUS: i64 = 2147483647;

/// The exponent that `mod_exp` works with: a negative one counts as zero.
pub open spec fn exponent_of(exponent: i64) -> nat {
    if exponent > 0 {
        exponent as nat
    } else {
        0
    }
}

/// `b^e` for an odd `e` is `b` times `(b*b)^(e/2)`, and for an even `e` it is `(b*b)^(e/2)`.
pub proof fn lemma_pow_halves(b: int, e: nat)
    requires
        e > 0,
    ensures
        e % 2 == 1 ==> pow(b, e) == b * pow(b * b, e / 2),
        e % 2 == 0 ==> pow(b, e) == pow(b * b, e / 2),
{
    let h: nat = e / 2;
    lemma_square_is_pow2(b);
    lemma_pow_multiplies(b, 2, h);
    assert(pow(b * b, h) == pow(b, 2 * h));
    if e % 2 == 1 {
        assert(e == 2 * h + 1);
        lemma_pow_adds(b, 1, 2 * h);
        lemma_pow1(b);
    } else {
        assert(e == 2 * h);
    }
}

/// The remainder of `base` raised to `exponent`, divided by `modulus`.
pub fn mod_exp(base: i64, exponent: i64, modulus: i64) -> (result: i64)
    requires
        base >= 0,
        modulus >= 1,
    ensures
        result == pow(base as int, exponent_of(exponent)) % (modulus as int),
        0 <= result < modulus,
{
    let m: i128 = modulus as i128;
    if modulus == 1 {
        return 0;
    }
    let mut output: i128 = 1;
    let mut b: i128 = (base % modulus) as i128;
    let mut e: i64 = if exponent > 0 { exponent } else { 0 };
    proof {
        lemma_pow_mod_noop(base as int, exponent_of(exponent), m as int);
        lemma_small_mod(1, m as nat);
    }
    while e > 0
        invariant
            m == modulus,
            m > 1,
            0 <= e,
            0 <= output < m,
            0 <= b < m,
            (output * pow(b as int, e as nat)) % (m as int) == pow(
                base as int,
                exponent_of(exponent),
            ) % (m as int),
        decreases e,
    {
        proof {
            lemma_pow_halves(b as int, e as nat);
            lemma_mul_upper_bound(output as int, (m - 1) as int, b as int, (m - 1) as int);
            lemma_mul_upper_bound(b as int, (m - 1) as int, b as int, (m - 1) as int);
            lemma_mul_upper_bound(
                (m - 1) as int,
                0x7fff_ffff_ffff_ffff,
                (m - 1) as int,
                0x7fff_ffff_ffff_ffff,
            );
            lemma_mul_nonnegative(output as int, b as int);
            lemma_mul_nonnegative(b as int, b as int);
        }
        let ghost half: nat = (e / 2) as nat;
        let ghost rest: int = pow((b * b) as int, half);
        if e % 2 == 1 {
            let next: i128 = (output * b) % m;
            proof {
                // output * (b * rest) == (output * b) * rest, then reduce the first factor
                lemma_mul_is_associative(output as int, b as int, rest);
                lemma_mul_mod_noop_left((output * b) as int, rest, m as int);
            }
            output = next;
        }
        let squared: i128 = (b * b) % m;
        proof {
            lemma_pow_mod_noop((b * b) as int, half, m as int);
            lemma_pow_mod_noop(squared as int, half, m as int);
            lemma_mul_mod_noop_right(output as int, rest, m as int);
            lemma_mul_mod_noop_right(output as int, pow(squared as int, half), m as int);
        }
        e = e / 2;
        b = squared;
    }
    proof {
        lemma_pow0(b as int);
        lemma_small_mod(output as nat, m as nat);
    }
    output as i64
}

// ---------------------------------------------------------------------------------------------
// The hash of a k-gram

/// The first character of what `char::to_lowercase` of std gives for `c`.
pub uninterp spec fn lowercase_of(c: char) -> char;

/// `char::to_lowercase` of std: the lowercase mapping of `c`, which holds one character or
/// more. This takes the first of them, and claims no more than that it is the same for the
/// same `c`.
#[verifier::external_body]
fn to_lower(c: char) -> (lowered: char)
    ensures
        lowered == lowercase_of(c),
{
    c.to_lowercase().next().unwrap()
}

/// What a character counts for in a hash: the code point of its lowercase form.
pub open spec fn code(c: char) -> int {
    lowercase_of(c) as int
}

/// The value of `s` as a polynomial in `BASE`: the character at index `i` counts
/// `BASE^(len - 1 - i)` times its code.
pub open spec fn poly(s: Seq<char>) -> int
    decreases s.len(),
{
    if s.len() == 0 {
        0
    } else {
        code(s[0]) * pow(BASE as int, (s.len() - 1) as nat) + poly(s.drop_first())
    }
}

/// The hash of `s`: its polynomial value modulo `PRIME_MODULUS`.
pub open spec fn hash_of(s: Seq<char>) -> int {
    poly(s) % (PRIME_MODULUS as int)
}

/// One character more at the end multiplies the value by the base and adds the character's
/// code.
pub proof fn lemma_poly_push(s: Seq<char>, c: char)
    ensures
        poly(s.push(c)) == poly(s) * BASE + code(c),
    decreases s.len(),
{
    let t = s.push(c);
    assert(poly(t) == code(t[0]) * pow(BASE as int, (t.len() - 1) as nat) + poly(t.drop_first()));
    if s.len() == 0 {
        assert(t.drop_first() =~= Seq::<char>::empty());
        assert(poly(t.drop_first()) == 0);
        assert(poly(s) == 0);
        lemma_pow0(BASE as int);
    } else {
        assert(t.drop_first() =~= s.drop_first().push(c));
        lemma_poly_push(s.drop_first(), c);
        let high = pow(BASE as int, (s.len() - 1) as nat);
        assert(pow(BASE as int, s.len()) == BASE * high) by {
            reveal(pow);
        }
        assert(poly(s) == code(s[0]) * high + poly(s.drop_first()));
        assert(code(s[0]) * (BASE * high) == (code(s[0]) * high) * BASE) by (nonlinear_arith);
        assert((code(s[0]) * high + poly(s.drop_first())) * BASE == (code(s[0]) * high) * BASE
            + poly(s.drop_first()) * BASE) by (nonlinear_arith);
    }
}

/// The hash of a text: characters are folded to lowercase, and the text is read as a number
/// in base `BASE`, modulo `PRIME_MODULUS`.
pub fn hash(str: &str) -> (hash_val: i64)
    ensures
        hash_val == hash_of(str@),
        0 <= hash_val < PRIME_MODULUS,
{
    let chars: Vec<char> = chars_of(str);
    assert(chars@.subrange(0, chars@.len() as int) =~= str@);
    hash_chars(&chars, 0, chars.len())
}

/// The hash of `chars[from..to]`.
pub fn hash_chars(chars: &Vec<char>, from: usize, to: usize) -> (hash_val: i64)
    requires
        from <= to <= chars.len(),
    ensures
        hash_val == hash_of(chars@.subrange(from as int, to as int)),
        0 <= hash_val < PRIME_MODULUS,
{
    let mut hash_val: i64 = 0;
    let mut i: usize = from;
    assert(chars@.subrange(from as int, from as int) =~= Seq::<char>::empty());
    while i < to
        invariant
            from <= i <= to <= chars.len(),
            0 <= hash_val < PRIME_MODULUS,
            hash_val == hash_of(chars@.subrange(from as int, i as int)),
        decreases to - i,
    {
        let lowered: i64 = to_lower(chars[i]) as i64;
        proof {
            let before = chars@.subrange(from as int, i as int);
            assert(chars@.subrange(from as int, i + 1) =~= before.push(chars@[i as int]));
            lemma_poly_push(before, chars@[i as int]);
            lemma_mul_mod_noop_left(poly(before), BASE as int, PRIME_MODULUS as int);
            lemma_add_mod_noop(poly(before) * BASE, lowered as int, PRIME_MODULUS as int);
            lemma_add_mod_noop(hash_val * BASE, lowered as int, PRIME_MODULUS as int);
        }
        hash_val = (hash_val * BASE + lowered) % PRIME_MODULUS;
        i += 1;
    }
    hash_val
}

/// The hash that follows `prev_hash` in a rolling hash: the part of the character that left
/// is taken away, what stays is moved up by one place, and the character that came is added.
/// `weight` is what the first place of a k-gram counts.
pub open spec fn rolled(prev_hash: int, prev_first: char, weight: int, last: char) -> int {
    ((prev_hash + PRIME_MODULUS - (code(prev_first) * weight) % (PRIME_MODULUS as int)) * BASE
        + code(last)) % (PRIME_MODULUS as int)
}

/// The rolling hash of the k-gram at `i`: the hash of the first k-gram for `i == 0`, and
/// after that a step from the hash before it.
pub open spec fn rolling_at(kgrams: Seq<Seq<char>>, i: int) -> int
    decreases i,
{
    if i <= 0 {
        hash_of(kgrams[0])
    } else {
        rolled(
            rolling_at(kgrams, i - 1),
            kgrams[i - 1][0],
            pow(BASE as int, (kgrams[i].len() - 1) as nat),
            kgrams[i].last(),
        )
    }
}

/// The k-grams of `text`: its windows of `k` characters, from left to right.
pub open spec fn kgrams_of(text: Seq<char>, k: int) -> Seq<Seq<char>> {
    Seq::new((text.len() - k + 1) as nat, |i: int| text.subrange(i, i + k))
}

/// A step of the rolling hash, from the hash of a k-gram to the hash of the one that follows
/// it in a text, gives the hash of that k-gram.
pub proof fn lemma_rolled(gram: Seq<char>, next: char)
    requires
        gram.len() >= 1,
    ensures
        rolled(hash_of(gram), gram[0], pow(BASE as int, (gram.len() - 1) as nat), next)
            == hash_of(gram.drop_first().push(next)),
{
    let p = PRIME_MODULUS as int;
    let x = poly(gram);
    let c = code(gram[0]) * pow(BASE as int, (gram.len() - 1) as nat);
    let rest = poly(gram.drop_first());
    let a = x % p + p - c % p;
    assert(x - c == rest);
    lemma_poly_push(gram.drop_first(), next);
    lemma_sub_mod_noop(x, c, p);
    lemma_mod_add_multiples_vanish(x % p - c % p, p);
    assert(a % p == rest % p);
    lemma_mul_mod_noop_left(a, BASE as int, p);
    lemma_mul_mod_noop_left(rest, BASE as int, p);
    lemma_add_mod_noop(a * BASE, code(next), p);
    lemma_add_mod_noop(rest * BASE, code(next), p);
}

/// The naive hash of any k-gram of a text equals the rolling hash at the same position.
pub proof fn lemma_rolling_is_naive(text: Seq<char>, k: int, i: int)
    requires
        1 <= k,
        0 <= i,
        i + k <= text.len(),
    ensures
        rolling_at(kgrams_of(text, k), i) == hash_of(kgrams_of(text, k)[i]),
    decreases i,
{
    if i > 0 {
        let grams = kgrams_of(text, k);
        lemma_rolling_is_naive(text, k, i - 1);
        lemma_rolled(grams[i - 1], grams[i].last());
        assert(grams[i - 1].drop_first().push(grams[i].last()) =~= grams[i]);
    }
}

/// One step of the rolling hash.
fn roll(prev_hash: i64, prev_first: char, weight: i64, ghost_weight: Ghost<int>, last: char) -> (next: i64)
    requires
        0 <= prev_hash < PRIME_MODULUS,
        weight == ghost_weight@ % (PRIME_MODULUS as int),
    ensures
        next == rolled(prev_hash as int, prev_first, ghost_weight@, last),
        0 <= next < PRIME_MODULUS,
{
    let first_code: i64 = to_lower(prev_first) as i64;
    let last_code: i64 = to_lower(last) as i64;
    proof {
        lemma_mul_mod_noop_right(first_code as int, ghost_weight@, PRIME_MODULUS as int);
        lemma_mod_bound(ghost_weight@, PRIME_MODULUS as int);
        lemma_mul_upper_bound(first_code as int, 0x10ffff, weight as int, 0x7fff_ffff);
        lemma_mul_nonnegative(first_code as int, weight as int);
    }
    let component: i64 = (first_code * weight) % PRIME_MODULUS;
    ((prev_hash + PRIME_MODULUS - component) * BASE + last_code) % PRIME_MODULUS
}

/// The rolling hashes of `kgrams`: the first is hashed as it is, and each later one is
/// computed from the hash before it. Where the k-grams are those of a text, each hash is the
/// hash of its k-gram.
pub fn rolling_hash(kgrams: Vec<&str>) -> (output: Vec<i64>)
    requires
        forall|i: int| 0 <= i < kgrams@.len() ==> 1 <= (#[trigger] kgrams@[i])@.len() <= i64::MAX,
    ensures
        output@.len() == kgrams@.len(),
        forall|i: int|
            0 <= i < output@.len() ==> #[trigger] output@[i] == rolling_at(
                Seq::new(kgrams@.len(), |j: int| kgrams@[j]@),
                i,
            ),
        forall|i: int| 0 <= i < output@.len() ==> 0 <= #[trigger] output@[i] < PRIME_MODULUS,
{
    let ghost grams = Seq::new(kgrams@.len(), |j: int| kgrams@[j]@);
    let mut output: Vec<i64> = Vec::new();
    let mut prev_first: char = ' ';
    let mut i: usize = 0;
    while i < kgrams.len()
        invariant
            i <= kgrams.len(),
            output@.len() == i,
            grams == Seq::new(kgrams@.len(), |j: int| kgrams@[j]@),
            forall|j: int| 0 <= j < kgrams@.len() ==> 1 <= (#[trigger] kgrams@[j])@.len() <= i64::MAX,
            forall|j: int| 0 <= j < i ==> #[trigger] output@[j] == rolling_at(grams, j),
            forall|j: int| 0 <= j < i ==> 0 <= #[trigger] output@[j] < PRIME_MODULUS,
            i > 0 ==> prev_first == grams[i - 1][0],
        decreases kgrams.len() - i,
    {
        let cur: Vec<char> = chars_of(kgrams[i]);
        assert(cur@ == grams[i as int]);
        let next: i64 = if i == 0 {
            hash_chars(&cur, 0, cur.len())
        } else {
            let weight: i64 = mod_exp(BASE, (cur.len() - 1) as i64, PRIME_MODULUS);
            roll(
                output[i - 1],
                prev_first,
                weight,
                Ghost(pow(BASE as int, (cur@.len() - 1) as nat)),
                cur[cur.len() - 1],
            )
        };
        proof {
            assert(cur@.subrange(0, cur@.len() as int) =~= cur@);
        }
        output.push(next);
        prev_first = cur[0];
        i += 1;
    }
    output
}

// ---------------------------------------------------------------------------------------------
// Robust winnowing

/// The index of the rightmost least element of `h[lo..hi]`.
pub open spec fn rightmost_min(h: Seq<i64>, lo: int, hi: int) -> int
    decreases hi - lo,
{
    if hi - lo <= 1 {
        lo
    } else {
        let m = rightmost_min(h, lo, hi - 1);
        if h[hi - 1] <= h[m] {
            hi - 1
        } else {
            m
        }
    }
}

/// The position that robust winnowing holds for window `j`, which is `h[j..j + w]`: the
/// position of the window before, where that is still inside and its hash is the least of
/// this window too; else the rightmost least of this window.
pub open spec fn pick(h: Seq<i64>, w: int, j: int) -> int
    decreases j,
{
    if j <= 0 {
        rightmost_min(h, 0, w)
    } else {
        let prev = pick(h, w, j - 1);
        let m = rightmost_min(h, j, j + w);
        if prev >= j && h[prev] == h[m] {
            prev
        } else {
            m
        }
    }
}

/// What the first `n` windows select: the position of a window is recorded, with its hash,
/// where it is not that of the window before.
pub open spec fn selected(h: Seq<i64>, w: int, n: int) -> Seq<(i64, int)>
    decreases n,
{
    if n <= 0 {
        Seq::empty()
    } else {
        let before = selected(h, w, n - 1);
        let p = pick(h, w, n - 1);
        if n == 1 || p != pick(h, w, n - 2) {
            before.push((h[p], p))
        } else {
            before
        }
    }
}

/// The width of the windows: `window_size`, or the whole of `h` where that is shorter.
pub open spec fn width(h: Seq<i64>, window_size: int) -> int {
    if window_size > h.len() {
        h.len() as int
    } else {
        window_size
    }
}

/// What robust winnowing selects of `h` with windows of `window_size` hashes: the selections
/// of all windows, from left to right. Where `h` is shorter than a window, it is the one
/// window.
pub open spec fn winnowed(h: Seq<i64>, window_size: int) -> Seq<(i64, int)> {
    selected(h, width(h, window_size), h.len() - width(h, window_size) + 1)
}

/// The rightmost least element of a range lies in it, is no greater than any element of the
/// range, and is less than every one to its right.
pub proof fn lemma_rightmost_min(h: Seq<i64>, lo: int, hi: int)
    requires
        0 <= lo < hi <= h.len(),
    ensures
        lo <= rightmost_min(h, lo, hi) < hi,
        forall|j: int| lo <= j < hi ==> h[rightmost_min(h, lo, hi)] <= #[trigger] h[j],
        forall|j: int| rightmost_min(h, lo, hi) < j < hi ==> h[rightmost_min(h, lo, hi)] < #[trigger] h[j],
    decreases hi - lo,
{
    if hi - lo > 1 {
        lemma_rightmost_min(h, lo, hi - 1);
    }
}

/// The position held for a window lies in the window, and its hash is the least of the
/// window.
pub proof fn lemma_pick(h: Seq<i64>, w: int, j: int)
    requires
        1 <= w <= h.len(),
        0 <= j <= h.len() - w,
    ensures
        j <= pick(h, w, j) < j + w,
        forall|i: int| j <= i < j + w ==> h[pick(h, w, j)] <= #[trigger] h[i],
    decreases j,
{
    lemma_rightmost_min(h, j, j + w);
    if j > 0 {
        lemma_pick(h, w, j - 1);
    }
}

/// What is selected is a position of `h` with the hash that stands there.
pub proof fn lemma_selected_in_range(h: Seq<i64>, w: int, n: int, k: int)
    requires
        1 <= w <= h.len(),
        0 <= n <= h.len() - w + 1,
        0 <= k < selected(h, w, n).len(),
    ensures
        0 <= selected(h, w, n)[k].1 < h.len(),
        selected(h, w, n)[k].0 == h[selected(h, w, n)[k].1],
    decreases n,
{
    if n > 0 {
        lemma_pick(h, w, n - 1);
        if k < selected(h, w, n - 1).len() {
            lemma_selected_in_range(h, w, n - 1, k);
        }
    }
}

/// The position held for each of the first `n` windows is among what they select.
pub proof fn lemma_selected_holds_pick(h: Seq<i64>, w: int, n: int, j: int)
    requires
        1 <= w <= h.len(),
        0 <= j < n <= h.len() - w + 1,
    ensures
        exists|k: int|
            0 <= k < selected(h, w, n).len() && (#[trigger] selected(h, w, n)[k]).1 == pick(
                h,
                w,
                j,
            ),
    decreases n,
{
    let now = selected(h, w, n);
    let before = selected(h, w, n - 1);
    lemma_pick(h, w, n - 1);
    if j == n - 1 {
        if n == 1 || pick(h, w, n - 1) != pick(h, w, n - 2) {
            assert(now[now.len() - 1].1 == pick(h, w, j));
        } else {
            lemma_selected_holds_pick(h, w, n - 1, j - 1);
            let k = choose|k: int| 0 <= k < before.len() && (#[trigger] before[k]).1 == pick(h, w, j - 1);
            assert(now[k].1 == pick(h, w, j));
        }
    } else {
        lemma_selected_holds_pick(h, w, n - 1, j);
        let k = choose|k: int| 0 <= k < before.len() && (#[trigger] before[k]).1 == pick(h, w, j);
        assert(now[k] == before[k]);
    }
}

/// Density of robust winnowing: every `w` hashes in a row hold a selected position.
pub proof fn lemma_winnow_density(h: Seq<i64>, window_size: int, j: int)
    requires
        1 <= window_size <= h.len(),
        0 <= j <= h.len() - window_size,
    ensures
        exists|k: int|
            0 <= k < winnowed(h, window_size).len() && j <= (#[trigger] winnowed(
                h,
                window_size,
            )[k]).1 < j + window_size,
{
    let n = h.len() - window_size + 1;
    lemma_selected_holds_pick(h, window_size, n, j);
    lemma_pick(h, window_size, j);
    let k = choose|k: int|
        0 <= k < selected(h, window_size, n).len() && (#[trigger] selected(h, window_size, n)[k]).1
            == pick(h, window_size, j);
    assert(winnowed(h, window_size) == selected(h, window_size, n));
    assert(j <= winnowed(h, window_size)[k].1 < j + window_size);
}

/// Selections with their indices as mathematical integers.
pub open spec fn selections(tuples: Seq<(i64, usize)>) -> Seq<(i64, int)> {
    tuples.map_values(|tuple: (i64, usize)| (tuple.0, tuple.1 as int))
}

/// The index of the rightmost least element of `h[lo..hi]`.
fn find_rightmost_min(h: &Vec<i64>, lo: usize, hi: usize) -> (m: usize)
    requires
        lo < hi <= h.len(),
    ensures
        m == rightmost_min(h@, lo as int, hi as int),
        lo <= m < hi,
{
    let mut m: usize = lo;
    let mut i: usize = lo + 1;
    while i < hi
        invariant
            lo < i <= hi <= h.len(),
            lo <= m < i,
            m == rightmost_min(h@, lo as int, i as int),
        decreases hi - i,
    {
        if h[i] <= h[m] {
            m = i;
        }
        i += 1;
    }
    m
}

/// Robust winnowing: of each window of `window_size` hashes in a row the least is selected,
/// the one selected for the window before where it is still among the least, else the
/// rightmost. Each selection is recorded once, as a hash and its index, from left to right.
pub fn robust_winnow(hashed_kgrams: Vec<i64>, window_size: usize) -> (fingerprint_tuples: Vec<
    (i64, usize),
>)
    requires
        hashed_kgrams@.len() >= 1,
        window_size >= 1,
    ensures
        selections(fingerprint_tuples@) == winnowed(hashed_kgrams@, window_size as int),
{
    let len: usize = hashed_kgrams.len();
    let w: usize = if window_size > len {
        len
    } else {
        window_size
    };
    let ghost h = hashed_kgrams@;
    let mut fingerprint_tuples: Vec<(i64, usize)> = Vec::new();
    assert(selections(fingerprint_tuples@) =~= Seq::<(i64, int)>::empty());
    let mut prev: usize = 0;
    let mut j: usize = 0;
    while j <= len - w
        invariant
            h == hashed_kgrams@,
            len == h.len(),
            1 <= w <= len,
            w == width(h, window_size as int),
            j <= len - w + 1,
            selections(fingerprint_tuples@) == selected(h, w as int, j as int),
            j > 0 ==> prev == pick(h, w as int, j - 1),
        decreases len - w + 1 - j,
    {
        let m: usize = find_rightmost_min(&hashed_kgrams, j, j + w);
        proof {
            lemma_pick(h, w as int, j as int);
            if j > 0 {
                lemma_pick(h, w as int, j - 1);
            }
        }
        if j == 0 || !(prev >= j && hashed_kgrams[prev] == hashed_kgrams[m]) {
            let ghost before = fingerprint_tuples@;
            fingerprint_tuples.push((hashed_kgrams[m], m));
            prev = m;
            assert(selections(fingerprint_tuples@) =~= selections(before).push((h[m as int], m as int)));
        }
        j += 1;
    }
    fingerprint_tuples
}

// ---------------------------------------------------------------------------------------------
// The fingerprints of a document

/// The hashes of the k-grams of `text`, from left to right.
pub open spec fn window_hashes(text: Seq<char>, k: int) -> Seq<i64> {
    Seq::new((text.len() - k + 1) as nat, |i: int| hash_of(text.subrange(i, i + k)) as i64)
}

/// The fingerprint of a selection: its hash, and the lines of the first and of the last
/// character of its k-gram.
pub open spec fn fingerprint_at(ends: Seq<i32>, k: int, selection: (i64, int)) -> Fingerprint {
    Fingerprint {
        hash: selection.0,
        lines: (line_of(ends, selection.1) as i32, line_of(ends, selection.1 + k - 1) as i32),
    }
}

/// The fingerprints of a normalised text with noise threshold `k` and guarantee threshold
/// `t`: none where the text has no more than `k` characters; else what robust winnowing with
/// windows of `t - k + 1` hashes selects of the hashes of the k-grams, in that order.
pub open spec fn fingerprints_of(text: Seq<char>, ends: Seq<i32>, k: int, t: int) -> Seq<
    Fingerprint,
> {
    if text.len() <= k {
        Seq::empty()
    } else {
        winnowed(window_hashes(text, k), t - k + 1).map_values(
            |selection: (i64, int)| fingerprint_at(ends, k, selection),
        )
    }
}

/// What holds of every fingerprint: its hash is a remainder of the modulus, and its lines
/// are counted from 1, the first no later than the last.
pub open spec fn valid_fingerprint(fp: Fingerprint) -> bool {
    &&& 0 <= fp.hash < PRIME_MODULUS
    &&& 1 <= fp.lines.0 <= fp.lines.1
}

/// The hashes of the k-grams of `chars`.
pub fn kgram_hashes(chars: &Vec<char>, k: usize) -> (hashes: Vec<i64>)
    requires
        1 <= k <= chars.len(),
        k <= i64::MAX,
    ensures
        hashes@ == window_hashes(chars@, k as int),
{
    let ghost text = chars@;
    let ghost high = pow(BASE as int, (k - 1) as nat);
    let weight: i64 = mod_exp(BASE, (k - 1) as i64, PRIME_MODULUS);
    let mut hashes: Vec<i64> = Vec::new();
    hashes.push(hash_chars(chars, 0, k));
    let mut i: usize = 1;
    while i <= chars.len() - k
        invariant
            text == chars@,
            1 <= k <= chars.len(),
            1 <= i <= chars.len() - k + 1,
            high == pow(BASE as int, (k - 1) as nat),
            weight == high % (PRIME_MODULUS as int),
            hashes@.len() == i,
            forall|j: int|
                0 <= j < i ==> #[trigger] hashes@[j] == hash_of(text.subrange(j, j + k)) && 0
                    <= hashes@[j] < PRIME_MODULUS,
        decreases chars.len() - k + 1 - i,
    {
        let next: i64 = roll(hashes[i - 1], chars[i - 1], weight, Ghost(high), chars[i + k - 1]);
        proof {
            let gram = text.subrange(i - 1, i - 1 + k);
            lemma_rolled(gram, text[i + k - 1]);
            assert(gram.drop_first().push(text[i + k - 1]) =~= text.subrange(i as int, i + k));
        }
        hashes.push(next);
        i += 1;
    }
    assert(hashes@ =~= window_hashes(text, k as int));
    hashes
}

/// The fingerprints of a normalised document: see `fingerprints_of`. `k` is the noise
/// threshold, below which no match is looked at, and `t` the guarantee threshold, from which
/// on every match is caught.
pub fn fingerprint(nt: NormText, k: i32, t: i32) -> (fingerprints: Vec<Fingerprint>)
    requires
        nt.wf(),
        0 < k <= t,
    ensures
        fingerprints@ == fingerprints_of(nt.value@, nt.line_ends@, k as int, t as int),
        forall|i: int| 0 <= i < fingerprints@.len() ==> valid_fingerprint(#[trigger] fingerprints@[i]),
{
    let chars: Vec<char> = chars_of(nt.value.as_str());
    let mut fingerprints: Vec<Fingerprint> = Vec::new();
    if chars.len() <= k as usize {
        return fingerprints;
    }
    let hashes: Vec<i64> = kgram_hashes(&chars, k as usize);
    let w: usize = (t - k + 1) as usize;
    let tuples: Vec<(i64, usize)> = robust_winnow(hashes, w);
    let ghost h = window_hashes(chars@, k as int);
    let ghost ends = nt.line_ends@;
    let ghost sel = winnowed(h, w as int);
    let mut i: usize = 0;
    while i < tuples.len()
        invariant
            nt.wf(),
            0 < k <= t,
            chars@ == nt.value@,
            chars@.len() > k,
            h == window_hashes(chars@, k as int),
            ends == nt.line_ends@,
            w == t - k + 1,
            sel == winnowed(h, w as int),
            selections(tuples@) == sel,
            i <= tuples.len(),
            fingerprints@.len() == i,
            forall|j: int|
                0 <= j < i ==> #[trigger] fingerprints@[j] == fingerprint_at(ends, k as int, sel[j])
                    && valid_fingerprint(fingerprints@[j]),
        decreases tuples.len() - i,
    {
        let hash: i64 = tuples[i].0;
        let at: usize = tuples[i].1;
        proof {
            lemma_selected_in_range(
                h,
                width(h, w as int),
                h.len() - width(h, w as int) + 1,
                i as int,
            );
            assert(sel[i as int] == (hash, at as int));
            assert(h[at as int] == hash_of(chars@.subrange(at as int, at + k)) as i64);
            lemma_mod_bound(poly(chars@.subrange(at as int, at + k)), PRIME_MODULUS as int);
        }
        let start_line: i32 = nt.line_number(at as i32);
        let end_line: i32 = nt.line_number(at as i32 + k - 1);
        proof {
            assert(is_line_of(ends, at as int, start_line as int));
            assert(is_line_of(ends, at + k - 1, end_line as int));
        }
        fingerprints.push(Fingerprint { hash: hash, lines: (start_line, end_line) });
        i += 1;
    }
    assert(fingerprints@ =~= fingerprints_of(nt.value@, nt.line_ends@, k as int, t as int));
    fingerprints
}

// ---------------------------------------------------------------------------------------------
// What holds of the fingerprints of every document

/// Density: every stretch of `t` characters or more of a text holds, whole, the k-gram of a
/// selected position.
pub proof fn lemma_fingerprint_density(text: Seq<char>, k: int, t: int, start: int, len: int)
    requires
        0 < k <= t,
        t <= len,
        0 <= start,
        start + len <= text.len(),
    ensures
        exists|i: int|
            0 <= i < winnowed(window_hashes(text, k), t - k + 1).len() && start <= (
            #[trigger] winnowed(window_hashes(text, k), t - k + 1)[i]).1 && winnowed(
                window_hashes(text, k),
                t - k + 1,
            )[i].1 + k <= start + len,
{
    let h = window_hashes(text, k);
    let w = t - k + 1;
    lemma_winnow_density(h, w, start);
    let i = choose|i: int| 0 <= i < winnowed(h, w).len() && start <= (#[trigger] winnowed(h, w)[i]).1 < start + w;
    assert(winnowed(h, w)[i].1 + k <= start + len);
}

/// The fingerprints are a function of the normalised text, its line ends and the two
/// thresholds: what is extracted twice from the same is the same.
pub proof fn lemma_fingerprints_repeat(first: NormText, second: NormText, k: int, t: int)
    requires
        first.value@ == second.value@,
        first.line_ends@ == second.line_ends@,
    ensures
        fingerprints_of(first.value@, first.line_ends@, k, t) == fingerprints_of(
            second.value@,
            second.line_ends@,
            k,
            t,
        ),
{
}

} // verus!
