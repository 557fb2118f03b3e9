//! The command line: what its arguments ask for.

use crate::ratio::Ratio;
use crate::text::{chars_of, string_of};
use vstd::prelude::*;

verus! {

/// How submissions are found in the directory that is given: `Single` takes every `.arr`
/// file of it for a submission, `Multi` every directory of it, with the `.arr` files in it.
#[derive(Debug, PartialEq, Eq, Clone, Copy)]
pub enum SubFileMode {
    Single,
    Multi,
}

/// The parameters that have a default and that the command line can set.
#[derive(Debug, PartialEq, Eq, Clone)]
pub struct OptArgs {
    /// Whether submissions are files or directories.
    pub sub_mode: SubFileMode,
    /// The noise threshold.
    pub k: i32,
    /// The guarantee threshold.
    pub t: i32,
    /// Pairs are reported whose percentile is this at least.
    pub match_threshold: Ratio,
    /// The directory of files whose content is expected in every submission.
    pub ignore_content_dir: Option<String>,
    /// The names of files that are not looked at.
    pub ignore_files: Option<Vec<String>>,
    /// Where the report is written; the standard output if nowhere else.
    pub out_file: Option<String>,
    /// Whether more is logged.
    pub verbose: bool,
    /// Whether the report goes on without asking.
    pub no_pauses: bool,
}

/// The parameters in specifications.
pub ghost struct OptView {
    pub sub_mode: SubFileMode,
    pub k: i32,
    pub t: i32,
    pub match_threshold: Ratio,
    pub ignore_content_dir: Option<Seq<char>>,
    pub ignore_files: Option<Seq<Seq<char>>>,
    pub out_file: Option<Seq<char>>,
    pub verbose: bool,
    pub no_pauses: bool,
}

/// The text of `path`, if there is one.
pub open spec fn text_of(path: Option<String>) -> Option<Seq<char>> {
    match path {
        Some(text) => Some(text@),
        None => None,
    }
}

/// The texts of `names`.
pub open spec fn texts(names: Seq<String>) -> Seq<Seq<char>> {
    Seq::new(names.len(), |i: int| names[i]@)
}

impl View for OptArgs {
    type V = OptView;

    open spec fn view(&self) -> OptView {
        OptView {
            sub_mode: self.sub_mode,
            k: self.k,
            t: self.t,
            match_threshold: self.match_threshold,
            ignore_content_dir: text_of(self.ignore_content_dir),
            ignore_files: match self.ignore_files {
                Some(names) => Some(texts(names@)),
                None => None,
            },
            out_file: text_of(self.out_file),
            verbose: self.verbose,
            no_pauses: self.no_pauses,
        }
    }
}

/// The parameters where the command line sets none.
pub open spec fn default_options() -> OptView {
    OptView {
        sub_mode: SubFileMode::Multi,
        k: 15,
        t: 20,
        match_threshold: Ratio { part: 0, whole: 1 },
        ignore_content_dir: None,
        ignore_files: None,
        out_file: None,
        verbose: false,
        no_pauses: false,
    }
}

impl Default for OptArgs {
    fn default() -> (options: Self)
        ensures
            options@ == default_options(),
    {
        OptArgs {
            sub_mode: SubFileMode::Multi,
            k: 15,
            t: 20,
            match_threshold: Ratio { part: 0, whole: 1 },
            ignore_content_dir: None,
            ignore_files: None,
            out_file: None,
            verbose: false,
            no_pauses: false,
        }
    }
}

/// Why a command line is refused. A number says which argument is at fault, counted from 0.
#[derive(Debug, PartialEq, Eq, Clone, Copy)]
pub enum CliError {
    /// Nothing but the name of the program is given.
    Usage,
    /// The flag at this place is the last argument, and needs one behind it.
    MissingValue(usize),
    /// The noise threshold at this place is no whole number above 0.
    InvalidNoise(usize),
    /// The guarantee threshold at this place is no whole number above 0.
    InvalidGuarantee(usize),
    /// The names at this place are not names with one space between them.
    InvalidIgnoreFiles(usize),
    /// The match threshold at this place is no number.
    InvalidThreshold(usize),
    /// The argument at this place starts like a flag and is none.
    UnrecognizedFlag(usize),
    /// The argument at this place is a second directory of submissions.
    UnexpectedArgument(usize),
    /// The noise threshold is greater than the guarantee threshold.
    NoiseOutOfRange,
    /// The match threshold is no percentage: it is not between 0 and 100.
    ThresholdOutOfRange,
    /// No directory of submissions is given.
    NoSubDir,
}

/// What a command line asks for.
#[derive(Debug, PartialEq, Eq, Clone)]
pub enum Parsed {
    /// To explain the command line.
    Help,
    /// To look at the submissions in the directory, with the parameters.
    Run(String, OptArgs),
}

/// What becomes of a command line, in specifications.
pub ghost enum Outcome {
    Help,
    Run(Seq<char>, OptView),
    Refused(CliError),
}

/// The outcome that a result stands for.
pub open spec fn outcome_of(result: Result<Parsed, CliError>) -> Outcome {
    match result {
        Ok(Parsed::Help) => Outcome::Help,
        Ok(Parsed::Run(dir, options)) => Outcome::Run(dir@, options@),
        Err(e) => Outcome::Refused(e),
    }
}

// ---------------------------------------------------------------------------------------------
// Numbers

/// Whether `c` is a digit.
pub open spec fn is_digit(c: char) -> bool {
    '0' <= c && c <= '9'
}

/// Whether `s` is made of digits only.
pub open spec fn all_digits(s: Seq<char>) -> bool {
    forall|i: int| 0 <= i < s.len() ==> is_digit(#[trigger] s[i])
}

/// The number that the digits of `s` write in base ten.
pub open spec fn number_of(s: Seq<char>) -> nat
    decreases s.len(),
{
    if s.len() == 0 {
        0
    } else {
        (number_of(s.drop_last()) * 10 + (s.last() as int - '0' as int)) as nat
    }
}

/// Whether `s` starts with a sign.
pub open spec fn has_sign(s: Seq<char>) -> bool {
    s.len() > 0 && (s[0] == '+' || s[0] == '-')
}

/// `s` without its sign.
pub open spec fn unsigned(s: Seq<char>) -> Seq<char> {
    if has_sign(s) {
        s.subrange(1, s.len() as int)
    } else {
        s
    }
}

/// The whole number that `s` writes, if it writes one that fits 32 bits: a sign if any,
/// and then digits, one at least.
pub open spec fn int_of(s: Seq<char>) -> Option<int> {
    let body = unsigned(s);
    let value = if has_sign(s) && s[0] == '-' {
        -(number_of(body) as int)
    } else {
        number_of(body) as int
    };
    if body.len() > 0 && all_digits(body) && i32::MIN <= value <= i32::MAX {
        Some(value)
    } else {
        None
    }
}

/// Ten to the `n`.
pub open spec fn pow10(n: nat) -> nat
    decreases n,
{
    if n == 0 {
        1
    } else {
        10 * pow10((n - 1) as nat)
    }
}

/// A number with a decimal point, as it is written: `number / 10^places`, negative or not.
pub ghost struct Decimal {
    pub negative: bool,
    pub number: nat,
    pub places: nat,
}

/// Where the decimal point of `s` stands: the place of the first `.`, or the length of `s`
/// if it has none.
pub open spec fn point_of(s: Seq<char>, from: int) -> int
    decreases s.len() - from,
{
    if from < 0 || from >= s.len() {
        s.len() as int
    } else if s[from] == '.' {
        from
    } else {
        point_of(s, from + 1)
    }
}

/// The most digits that a decimal number may have.
pub const MAX_DIGITS: usize = 15;

/// The decimal number that `s` writes, if it writes one: a sign if any, then digits, and
/// then, if at all, a point and digits; one digit at least, and `MAX_DIGITS` at most.
pub open spec fn decimal_of(s: Seq<char>) -> Option<Decimal> {
    let body = unsigned(s);
    let point = point_of(body, 0);
    let whole = body.subrange(0, point);
    let fraction = if point < body.len() {
        body.subrange(point + 1, body.len() as int)
    } else {
        Seq::empty()
    };
    if 0 <= point <= body.len() && all_digits(whole) && all_digits(fraction) && 1 <= whole.len()
        + fraction.len() <= MAX_DIGITS {
        Some(
            Decimal {
                negative: has_sign(s) && s[0] == '-',
                number: number_of(whole + fraction),
                places: fraction.len(),
            },
        )
    } else {
        None
    }
}

/// Whether a percentage lies between 0 and 100.
pub open spec fn is_percentage(d: Decimal) -> bool {
    d.number == 0 || (!d.negative && d.number <= 100 * pow10(d.places))
}

/// The share of the whole that a percentage is.
pub open spec fn share_of(d: Decimal) -> Ratio {
    Ratio { part: d.number as u64, whole: (100 * pow10(d.places)) as u64 }
}

/// Digits write a number below ten to their count.
pub proof fn lemma_number_bound(s: Seq<char>)
    requires
        all_digits(s),
    ensures
        number_of(s) < pow10(s.len()),
    decreases s.len(),
{
    if s.len() > 0 {
        assert(is_digit(s[s.len() - 1]));
        assert(all_digits(s.drop_last())) by {
            assert forall|i: int| 0 <= i < s.drop_last().len() implies is_digit(
                #[trigger] s.drop_last()[i],
            ) by {
                assert(s.drop_last()[i] == s[i]);
            }
        }
        lemma_number_bound(s.drop_last());
    }
}

/// A higher power of ten is no less, and none is less than 1.
pub proof fn lemma_pow10_grows(a: nat, b: nat)
    requires
        a <= b,
    ensures
        1 <= pow10(a) <= pow10(b),
    decreases b,
{
    if b > 0 {
        if a == b {
            lemma_pow10_grows((a - 1) as nat, (b - 1) as nat);
        } else {
            lemma_pow10_grows(a, (b - 1) as nat);
        }
    }
}

/// Ten to the fifteen, written out.
pub proof fn lemma_pow10_15()
    ensures
        pow10(15) == 1_000_000_000_000_000,
{
    reveal_with_fuel(pow10, 16);
}

/// The number that `chars[from..to]` writes, if these are digits and write no more than
/// `limit`.
fn read_number(chars: &Vec<char>, from: usize, to: usize, limit: u64) -> (number: Option<u64>)
    requires
        from <= to <= chars@.len(),
        limit <= 1_000_000_000_000_000_000,
    ensures
        number matches Some(n) ==> all_digits(chars@.subrange(from as int, to as int)) && n
            == number_of(chars@.subrange(from as int, to as int)) && n <= limit,
        number is None ==> !all_digits(chars@.subrange(from as int, to as int)) || number_of(
            chars@.subrange(from as int, to as int),
        ) > limit,
{
    let ghost s = chars@.subrange(from as int, to as int);
    let mut n: u64 = 0;
    let mut i: usize = from;
    assert(chars@.subrange(from as int, from as int) =~= Seq::<char>::empty());
    while i < to
        invariant
            from <= i <= to <= chars@.len(),
            s == chars@.subrange(from as int, to as int),
            limit <= 1_000_000_000_000_000_000,
            all_digits(chars@.subrange(from as int, i as int)),
            n == number_of(chars@.subrange(from as int, i as int)),
            n <= limit,
        decreases to - i,
    {
        let c: char = chars[i];
        let ghost before = chars@.subrange(from as int, i as int);
        let ghost now = chars@.subrange(from as int, i + 1);
        proof {
            assert(now.drop_last() =~= before);
            assert(now.last() == c);
        }
        if !('0' <= c && c <= '9') {
            assert(s[i - from] == c);
            return None;
        }
        let d: u64 = (c as u32 - '0' as u32) as u64;
        let next: u64 = n * 10 + d;
        if next > limit {
            proof {
                if all_digits(s) {
                    lemma_number_grows(s, i + 1 - from);
                    assert(s.subrange(0, i + 1 - from) =~= now);
                }
            }
            return None;
        }
        n = next;
        i += 1;
        proof {
            assert forall|j: int| 0 <= j < now.len() implies is_digit(#[trigger] now[j]) by {
                if j < before.len() {
                    assert(before[j] == now[j]);
                }
            }
        }
    }
    Some(n)
}

/// More digits write no less.
pub proof fn lemma_number_grows(s: Seq<char>, n: int)
    requires
        0 <= n <= s.len(),
        all_digits(s),
    ensures
        number_of(s.subrange(0, n)) <= number_of(s),
    decreases s.len() - n,
{
    if n < s.len() {
        let front = s.drop_last();
        assert(all_digits(front)) by {
            assert forall|i: int| 0 <= i < front.len() implies is_digit(#[trigger] front[i]) by {
                assert(front[i] == s[i]);
            }
        }
        assert(is_digit(s[s.len() - 1]));
        lemma_number_grows(front, n);
        assert(front.subrange(0, n) =~= s.subrange(0, n));
    } else {
        assert(s.subrange(0, n) =~= s);
    }
}

/// The digits of two numbers in a row write the first, moved up by the places of the
/// second, plus the second.
pub proof fn lemma_number_of_both(a: Seq<char>, b: Seq<char>)
    ensures
        number_of(a + b) == number_of(a) * pow10(b.len()) + number_of(b) || !all_digits(b),
    decreases b.len(),
{
    if all_digits(b) {
        if b.len() == 0 {
            assert(a + b =~= a);
            assert(pow10(0) == 1);
            assert(number_of(b) == 0);
            assert(number_of(a) * 1 == number_of(a)) by (nonlinear_arith);
        } else {
            let front = b.drop_last();
            assert(all_digits(front)) by {
                assert forall|i: int| 0 <= i < front.len() implies is_digit(#[trigger] front[i]) by {
                    assert(front[i] == b[i]);
                }
            }
            assert(is_digit(b[b.len() - 1]));
            lemma_number_of_both(a, front);
            assert((a + b).drop_last() =~= a + front);
            assert((a + b).last() == b.last());
            let high = number_of(a) as int;
            let scale = pow10(front.len()) as int;
            let low = number_of(front) as int;
            let d = b.last() as int - '0' as int;
            assert(0 <= d <= 9);
            assert(number_of(a + front) == high * scale + low);
            assert(number_of(b) == low * 10 + d);
            assert(number_of(a + b) == (high * scale + low) * 10 + d);
            assert(pow10(b.len()) == 10 * scale);
            assert((high * scale + low) * 10 == high * (10 * scale) + low * 10)
                by (nonlinear_arith);
            assert(number_of(a + b) == number_of(a) * pow10(b.len()) + number_of(b));
        }
    }
}

/// The whole number that `s` writes, if it writes one that fits 32 bits.
pub fn parse_int(s: &str) -> (value: Option<i32>)
    ensures
        value matches Some(v) ==> int_of(s@) == Some(v as int),
        value is None ==> int_of(s@) is None,
{
    let chars: Vec<char> = chars_of(s);
    let negative: bool = chars.len() > 0 && chars[0] == '-';
    let from: usize = if chars.len() > 0 && (chars[0] == '+' || chars[0] == '-') {
        1
    } else {
        0
    };
    assert(chars@.subrange(from as int, chars@.len() as int) =~= unsigned(s@));
    if from == chars.len() {
        return None;
    }
    match read_number(&chars, from, chars.len(), 2147483648) {
        None => None,
        Some(n) => {
            if negative {
                Some((0 - (n as i64)) as i32)
            } else if n <= 2147483647 {
                Some(n as i32)
            } else {
                None
            }
        },
    }
}

/// Ten to the `places`.
fn scale_of(places: usize) -> (scale: u64)
    requires
        places <= MAX_DIGITS,
    ensures
        scale == pow10(places as nat),
        1 <= scale <= 1_000_000_000_000_000,
{
    let mut scale: u64 = 1;
    let mut p: usize = 0;
    proof {
        lemma_pow10_15();
    }
    while p < places
        invariant
            p <= places <= 15,
            scale == pow10(p as nat),
            1 <= scale <= pow10(15),
            pow10(15) == 1_000_000_000_000_000,
        decreases places - p,
    {
        proof {
            lemma_pow10_grows((p + 1) as nat, 15);
        }
        scale = scale * 10;
        p += 1;
    }
    scale
}

/// The place of the first `.` of `chars` from `from` on; the length of `chars` if there is
/// none.
fn find_point(chars: &Vec<char>, from: usize) -> (point: usize)
    requires
        from <= chars@.len(),
    ensures
        from <= point <= chars@.len(),
        point - from == point_of(chars@.subrange(from as int, chars@.len() as int), 0),
{
    let ghost body = chars@.subrange(from as int, chars@.len() as int);
    let mut point: usize = from;
    while point < chars.len() && chars[point] != '.'
        invariant
            from <= point <= chars@.len(),
            body == chars@.subrange(from as int, chars@.len() as int),
            point_of(body, point - from) == point_of(body, 0),
        decreases chars.len() - point,
    {
        point += 1;
    }
    point
}

/// The number that its digits before the point and its digits behind the point write in a
/// row.
fn join_digits(high: u64, low: u64, scale: u64, Ghost(whole): Ghost<Seq<char>>, Ghost(fraction): Ghost<Seq<char>>) -> (number: u64)
    requires
        all_digits(whole),
        all_digits(fraction),
        whole.len() + fraction.len() <= MAX_DIGITS,
        high == number_of(whole),
        low == number_of(fraction),
        scale == pow10(fraction.len()),
    ensures
        number == number_of(whole + fraction),
        number < 1_000_000_000_000_000,
{
    proof {
        lemma_pow10_15();
        lemma_number_of_both(whole, fraction);
        assert(all_digits(whole + fraction)) by {
            assert forall|i: int| 0 <= i < (whole + fraction).len() implies is_digit(
                #[trigger] (whole + fraction)[i],
            ) by {
                if i < whole.len() {
                    assert((whole + fraction)[i] == whole[i]);
                } else {
                    assert((whole + fraction)[i] == fraction[i - whole.len()]);
                }
            }
        }
        lemma_number_bound(whole + fraction);
        lemma_pow10_grows((whole + fraction).len(), 15);
        vstd::arithmetic::mul::lemma_mul_nonnegative(high as int, scale as int);
    }
    high * scale + low
}

/// A percentage as a share of the whole, and whether it lies between 0 and 100; nothing
/// where `s` writes no decimal number.
#[verifier::rlimit(40)]
pub fn parse_percent(s: &str) -> (percent: Option<(bool, Ratio)>)
    ensures
        match decimal_of(s@) {
            Some(d) => percent == Some((is_percentage(d), share_of(d))),
            None => percent is None,
        },
{
    let chars: Vec<char> = chars_of(s);
    let negative: bool = chars.len() > 0 && chars[0] == '-';
    let from: usize = if chars.len() > 0 && (chars[0] == '+' || chars[0] == '-') {
        1
    } else {
        0
    };
    let ghost body = unsigned(s@);
    assert(chars@.subrange(from as int, chars@.len() as int) =~= body);
    let point: usize = find_point(&chars, from);
    let after: usize = if point < chars.len() {
        point + 1
    } else {
        point
    };
    let places: usize = chars.len() - after;
    let ghost whole = body.subrange(0, point - from);
    let ghost fraction = if point - from < body.len() {
        body.subrange(point - from + 1, body.len() as int)
    } else {
        Seq::<char>::empty()
    };
    proof {
        assert(chars@.subrange(from as int, point as int) =~= whole);
        assert(chars@.subrange(after as int, chars@.len() as int) =~= fraction);
        lemma_pow10_15();
    }
    let digits: usize = (point - from) + places;
    if digits == 0 || digits > MAX_DIGITS {
        return None;
    }
    let high: u64 = match read_number(&chars, from, point, 1_000_000_000_000_000) {
        Some(n) => n,
        None => {
            proof {
                if all_digits(whole) {
                    lemma_number_bound(whole);
                    lemma_pow10_grows(whole.len(), 15);
                }
            }
            return None;
        },
    };
    let low: u64 = match read_number(&chars, after, chars.len(), 1_000_000_000_000_000) {
        Some(n) => n,
        None => {
            proof {
                if all_digits(fraction) {
                    lemma_number_bound(fraction);
                    lemma_pow10_grows(fraction.len(), 15);
                }
            }
            return None;
        },
    };
    let scale: u64 = scale_of(places);
    let number: u64 = join_digits(high, low, scale, Ghost(whole), Ghost(fraction));
    let whole_of: u64 = 100 * scale;
    let in_range: bool = number == 0 || (!negative && number <= whole_of);
    Some((in_range, Ratio { part: number, whole: whole_of }))
}

// ---------------------------------------------------------------------------------------------
// Names with spaces between them

/// The place of the first space of `s` from `from` on; the length of `s` if there is none.
pub open spec fn space_of(s: Seq<char>, from: int) -> int
    decreases s.len() - from,
{
    if from < 0 || from >= s.len() {
        s.len() as int
    } else if s[from] == ' ' {
        from
    } else {
        space_of(s, from + 1)
    }
}

/// The pieces of `s` from `from` on, between its spaces.
pub open spec fn pieces_from(s: Seq<char>, from: int) -> Seq<Seq<char>>
    decreases s.len() - from,
{
    let space = space_of(s, from);
    if from < 0 || space < from || space >= s.len() {
        seq![s.subrange(from, s.len() as int)]
    } else {
        seq![s.subrange(from, space)] + pieces_from(s, space + 1)
    }
}

/// Whether one of `pieces` is empty.
pub open spec fn any_empty(pieces: Seq<Seq<char>>) -> bool {
    exists|i: int| 0 <= i < pieces.len() && (#[trigger] pieces[i]).len() == 0
}

/// The names of `s`, which stand with one space between them; nothing where a name is
/// empty.
pub fn split_names(s: &str) -> (names: Option<Vec<String>>)
    ensures
        match names {
            Some(list) => !any_empty(pieces_from(s@, 0)) && texts(list@) == pieces_from(s@, 0),
            None => any_empty(pieces_from(s@, 0)),
        },
{
    let chars: Vec<char> = chars_of(s);
    let ghost text = chars@;
    let mut names: Vec<String> = Vec::new();
    let mut from: usize = 0;
    assert(texts(names@) + pieces_from(text, 0) =~= pieces_from(text, 0));
    loop
        invariant
            text == chars@,
            text == s@,
            from <= chars@.len(),
            texts(names@) + pieces_from(text, from as int) == pieces_from(text, 0),
            !any_empty(texts(names@)),
        decreases chars@.len() - from,
    {
        let mut space: usize = from;
        while space < chars.len() && chars[space] != ' '
            invariant
                from <= space <= chars@.len(),
                space_of(chars@, space as int) == space_of(chars@, from as int),
            decreases chars.len() - space,
        {
            space += 1;
        }
        let ghost rest = pieces_from(text, from as int);
        let ghost all = pieces_from(text, 0);
        let ghost done = texts(names@);
        assert(space_of(text, from as int) == space);
        if space == from {
            proof {
                assert(rest[0].len() == 0);
                assert(all[done.len() as int] == rest[0]);
            }
            return None;
        }
        names.push(string_of(&chars, from, space));
        proof {
            assert(texts(names@) =~= done.push(text.subrange(from as int, space as int)));
            assert(!any_empty(texts(names@))) by {
                if any_empty(texts(names@)) {
                    let i = choose|i: int|
                        0 <= i < texts(names@).len() && (#[trigger] texts(names@)[i]).len() == 0;
                    if i < done.len() {
                        assert(done[i] == texts(names@)[i]);
                    }
                }
            }
        }
        if space >= chars.len() {
            proof {
                assert(rest =~= seq![text.subrange(from as int, text.len() as int)]);
                assert(texts(names@) =~= all);
            }
            return Some(names);
        }
        proof {
            assert(rest =~= seq![text.subrange(from as int, space as int)] + pieces_from(
                text,
                space + 1,
            ));
            assert(texts(names@) + pieces_from(text, space + 1) =~= all);
        }
        from = space + 1;
    }
}

// ---------------------------------------------------------------------------------------------
// The arguments

/// What an argument can ask for.
#[derive(Debug, PartialEq, Eq, Clone, Copy)]
pub enum Flag {
    Help,
    SingleFile,
    Noise,
    Guarantee,
    Output,
    IgnoreContent,
    IgnoreFiles,
    MatchThreshold,
    Verbose,
    NoPauses,
}

/// The flag that `arg` is, if it is one.
pub open spec fn flag_of(arg: Seq<char>) -> Option<Flag> {
    if arg == "--help"@ || arg == "-h"@ {
        Some(Flag::Help)
    } else if arg == "--single-file-mode"@ || arg == "-s"@ {
        Some(Flag::SingleFile)
    } else if arg == "--noise"@ || arg == "-k"@ {
        Some(Flag::Noise)
    } else if arg == "--guarantee"@ || arg == "-t"@ {
        Some(Flag::Guarantee)
    } else if arg == "--output"@ || arg == "-o"@ {
        Some(Flag::Output)
    } else if arg == "--ignore-content"@ {
        Some(Flag::IgnoreContent)
    } else if arg == "--ignore-files"@ {
        Some(Flag::IgnoreFiles)
    } else if arg == "--match-threshold"@ {
        Some(Flag::MatchThreshold)
    } else if arg == "--verbose"@ || arg == "-v"@ {
        Some(Flag::Verbose)
    } else if arg == "--no-pauses"@ || arg == "-p"@ {
        Some(Flag::NoPauses)
    } else {
        None
    }
}

/// Whether a flag needs an argument behind it.
pub open spec fn takes_value(flag: Flag) -> bool {
    match flag {
        Flag::Noise | Flag::Guarantee | Flag::Output | Flag::IgnoreContent | Flag::IgnoreFiles
        | Flag::MatchThreshold => true,
        _ => false,
    }
}

/// Whether two texts are the same.
pub fn same_text(a: &Vec<char>, b: &str) -> (same: bool)
    ensures
        same == (a@ == b@),
{
    let other: Vec<char> = chars_of(b);
    if a.len() != other.len() {
        return false;
    }
    let mut i: usize = 0;
    while i < a.len()
        invariant
            other@ == b@,
            a@.len() == other@.len(),
            i <= a@.len(),
            forall|j: int| 0 <= j < i ==> a@[j] == other@[j],
        decreases a.len() - i,
    {
        if a[i] != other[i] {
            return false;
        }
        i += 1;
    }
    assert(a@ =~= other@);
    true
}

/// The flag that `arg` is, if it is one.
pub fn which_flag(arg: &str) -> (flag: Option<Flag>)
    ensures
        flag == flag_of(arg@),
{
    let chars: Vec<char> = chars_of(arg);
    if same_text(&chars, "--help") || same_text(&chars, "-h") {
        Some(Flag::Help)
    } else if same_text(&chars, "--single-file-mode") || same_text(&chars, "-s") {
        Some(Flag::SingleFile)
    } else if same_text(&chars, "--noise") || same_text(&chars, "-k") {
        Some(Flag::Noise)
    } else if same_text(&chars, "--guarantee") || same_text(&chars, "-t") {
        Some(Flag::Guarantee)
    } else if same_text(&chars, "--output") || same_text(&chars, "-o") {
        Some(Flag::Output)
    } else if same_text(&chars, "--ignore-content") {
        Some(Flag::IgnoreContent)
    } else if same_text(&chars, "--ignore-files") {
        Some(Flag::IgnoreFiles)
    } else if same_text(&chars, "--match-threshold") {
        Some(Flag::MatchThreshold)
    } else if same_text(&chars, "--verbose") || same_text(&chars, "-v") {
        Some(Flag::Verbose)
    } else if same_text(&chars, "--no-pauses") || same_text(&chars, "-p") {
        Some(Flag::NoPauses)
    } else {
        None
    }
}

/// What has been read of a command line.
pub ghost struct ParseState {
    pub sub_dir: Option<Seq<char>>,
    pub options: OptView,
    /// Whether the match threshold that was given last, if any, is a percentage.
    pub threshold_ok: bool,
}

/// What a flag that needs no argument does to the parameters.
pub open spec fn with_flag(flag: Flag, options: OptView) -> OptView {
    match flag {
        Flag::SingleFile => OptView { sub_mode: SubFileMode::Single, ..options },
        Flag::Verbose => OptView { verbose: true, ..options },
        Flag::NoPauses => OptView { no_pauses: true, ..options },
        _ => options,
    }
}

/// What a flag does with the argument behind it, which stands at place `at`: the state that
/// follows, or why the argument is refused.
pub open spec fn with_value(flag: Flag, value: Seq<char>, at: usize, state: ParseState) -> Result<
    ParseState,
    CliError,
> {
    let options = state.options;
    match flag {
        Flag::Noise => match int_of(value) {
            Some(k) if k > 0 => Ok(
                ParseState { options: OptView { k: k as i32, ..options }, ..state },
            ),
            _ => Err(CliError::InvalidNoise(at)),
        },
        Flag::Guarantee => match int_of(value) {
            Some(t) if t > 0 => Ok(
                ParseState { options: OptView { t: t as i32, ..options }, ..state },
            ),
            _ => Err(CliError::InvalidGuarantee(at)),
        },
        Flag::Output => Ok(
            ParseState { options: OptView { out_file: Some(value), ..options }, ..state },
        ),
        Flag::IgnoreContent => Ok(
            ParseState { options: OptView { ignore_content_dir: Some(value), ..options }, ..state },
        ),
        Flag::IgnoreFiles => if any_empty(pieces_from(value, 0)) {
            Err(CliError::InvalidIgnoreFiles(at))
        } else {
            Ok(
                ParseState {
                    options: OptView { ignore_files: Some(pieces_from(value, 0)), ..options },
                    ..state
                },
            )
        },
        Flag::MatchThreshold => match decimal_of(value) {
            Some(d) => Ok(
                ParseState {
                    options: OptView { match_threshold: share_of(d), ..options },
                    threshold_ok: is_percentage(d),
                    ..state
                },
            ),
            None => Err(CliError::InvalidThreshold(at)),
        },
        _ => Ok(state),
    }
}

/// What becomes of a command line whose arguments have all been read: the noise threshold
/// must not be above the guarantee threshold, the match threshold must be a percentage, and
/// the directory of submissions must be given.
pub open spec fn finish(state: ParseState) -> Outcome {
    if state.options.k > state.options.t {
        Outcome::Refused(CliError::NoiseOutOfRange)
    } else if !state.threshold_ok {
        Outcome::Refused(CliError::ThresholdOutOfRange)
    } else {
        match state.sub_dir {
            Some(dir) => Outcome::Run(dir, state.options),
            None => Outcome::Refused(CliError::NoSubDir),
        }
    }
}

/// What becomes of a command line of which the arguments before place `i` have been read.
/// The arguments are read from left to right. A flag for help ends the reading. An argument
/// that is no flag is the directory of submissions, of which there is one. Of a parameter
/// that is set twice the later value counts.
pub open spec fn parse_from(args: Seq<Seq<char>>, i: int, state: ParseState) -> Outcome
    decreases args.len() - i,
{
    if i < 0 || i >= args.len() {
        finish(state)
    } else {
        match flag_of(args[i]) {
            Some(Flag::Help) => Outcome::Help,
            Some(flag) => if takes_value(flag) {
                if i + 1 >= args.len() {
                    Outcome::Refused(CliError::MissingValue(i as usize))
                } else {
                    match with_value(flag, args[i + 1], (i + 1) as usize, state) {
                        Ok(next) => parse_from(args, i + 2, next),
                        Err(e) => Outcome::Refused(e),
                    }
                }
            } else {
                parse_from(
                    args,
                    i + 1,
                    ParseState { options: with_flag(flag, state.options), ..state },
                )
            },
            None => if args[i].len() > 0 && args[i][0] == '-' {
                Outcome::Refused(CliError::UnrecognizedFlag(i as usize))
            } else if state.sub_dir is None {
                parse_from(args, i + 1, ParseState { sub_dir: Some(args[i]), ..state })
            } else {
                Outcome::Refused(CliError::UnexpectedArgument(i as usize))
            },
        }
    }
}

/// What becomes of the command line `args`, whose first argument is the name of the
/// program.
pub open spec fn parse(args: Seq<Seq<char>>) -> Outcome {
    if args.len() <= 1 {
        Outcome::Refused(CliError::Usage)
    } else {
        parse_from(
            args,
            1,
            ParseState { sub_dir: None, options: default_options(), threshold_ok: true },
        )
    }
}

/// Reads the command line: the directory of submissions and the parameters, or that help is
/// asked for, or why the command line is refused. See `parse_from`.
#[verifier::rlimit(40)]
pub fn parse_args(args: &Vec<String>) -> (result: Result<Parsed, CliError>)
    requires
        args@.len() >= 1,
    ensures
        outcome_of(result) == parse(texts(args@)),
{
    let ghost all = texts(args@);
    if args.len() == 1 {
        return Err(CliError::Usage);
    }
    let mut options: OptArgs = OptArgs::default();
    let mut sub_dir: Option<String> = None;
    let mut threshold_ok: bool = true;
    let mut i: usize = 1;
    while i < args.len()
        invariant
            all == texts(args@),
            1 <= i <= args@.len(),
            args@.len() > 1,
            options.k > 0,
            parse_from(
                all,
                i as int,
                ParseState {
                    sub_dir: text_of(sub_dir),
                    options: options@,
                    threshold_ok: threshold_ok,
                },
            ) == parse(all),
        decreases args.len() - i,
    {
        let ghost state = ParseState {
            sub_dir: text_of(sub_dir),
            options: options@,
            threshold_ok: threshold_ok,
        };
        assert(all[i as int] == args@[i as int]@);
        let arg: &str = args[i].as_str();
        match which_flag(arg) {
            Some(Flag::Help) => {
                return Ok(Parsed::Help);
            },
            Some(Flag::SingleFile) => {
                options.sub_mode = SubFileMode::Single;
                i += 1;
            },
            Some(Flag::Verbose) => {
                options.verbose = true;
                i += 1;
            },
            Some(Flag::NoPauses) => {
                options.no_pauses = true;
                i += 1;
            },
            Some(flag) => {
                if i + 1 >= args.len() {
                    return Err(CliError::MissingValue(i));
                }
                assert(all[i + 1] == args@[i + 1]@);
                let value: &String = &args[i + 1];
                match flag {
                    Flag::Noise => {
                        match parse_int(value.as_str()) {
                            Some(k) => {
                                if k > 0 {
                                    options.k = k;
                                } else {
                                    return Err(CliError::InvalidNoise(i + 1));
                                }
                            },
                            None => {
                                return Err(CliError::InvalidNoise(i + 1));
                            },
                        }
                    },
                    Flag::Guarantee => {
                        match parse_int(value.as_str()) {
                            Some(t) => {
                                if t > 0 {
                                    options.t = t;
                                } else {
                                    return Err(CliError::InvalidGuarantee(i + 1));
                                }
                            },
                            None => {
                                return Err(CliError::InvalidGuarantee(i + 1));
                            },
                        }
                    },
                    Flag::Output => {
                        options.out_file = Some(value.clone());
                    },
                    Flag::IgnoreContent => {
                        options.ignore_content_dir = Some(value.clone());
                    },
                    Flag::IgnoreFiles => {
                        match split_names(value.as_str()) {
                            Some(names) => {
                                options.ignore_files = Some(names);
                            },
                            None => {
                                return Err(CliError::InvalidIgnoreFiles(i + 1));
                            },
                        }
                    },
                    Flag::MatchThreshold => {
                        match parse_percent(value.as_str()) {
                            Some((in_range, share)) => {
                                options.match_threshold = share;
                                threshold_ok = in_range;
                            },
                            None => {
                                return Err(CliError::InvalidThreshold(i + 1));
                            },
                        }
                    },
                    _ => {},
                }
                i += 2;
            },
            None => {
                let chars: Vec<char> = chars_of(arg);
                if chars.len() > 0 && chars[0] == '-' {
                    return Err(CliError::UnrecognizedFlag(i));
                } else if sub_dir.is_none() {
                    sub_dir = Some(args[i].clone());
                    i += 1;
                } else {
                    return Err(CliError::UnexpectedArgument(i));
                }
            },
        }
    }
    if options.k > options.t {
        return Err(CliError::NoiseOutOfRange);
    }
    if !threshold_ok {
        return Err(CliError::ThresholdOutOfRange);
    }
    match sub_dir {
        Some(dir) => Ok(Parsed::Run(dir, options)),
        None => Err(CliError::NoSubDir),
    }
}

} // verus!
