//! Normalisation of Pyret programs: what should not tell two programs apart is removed or
//! made uniform, and the lines of the source text stay known.

use crate::keywords::{keyword_table, keywords, lemma_keywords_long, words_of};
use crate::lexer::{
    keyword_len, lemma_token_at, next_token, token_at, Token, TokenKind, TokenSpec,
};
use crate::scan::{run_end, CharClass};
use crate::text::{chars_of, push_chars};
use vstd::prelude::*;

verus! {

/// What every identifier becomes.
pub const NORM_IDENTIFIER: char = 'v';

/// The normalised text of a program, with what is needed to find the line of the source
/// text that a character of the normalised text came from.
///
/// `line_ends[x] == y` says that `y` is the index, in the normalised text, of the first
/// character that comes after line `x + 1` of the source.
#[derive(Debug, PartialEq)]
pub struct NormText {
    pub value: String,
    pub line_ends: Vec<i32>,
}

/// The entries as mathematical integers.
pub open spec fn ints(v: Seq<i32>) -> Seq<int> {
    v.map_values(|x: i32| x as int)
}

/// The index of the first entry of `ends`, from `from` on, that is greater than `idx`; the
/// length of `ends` if there is none.
pub open spec fn first_above(ends: Seq<i32>, idx: int, from: int) -> int
    decreases ends.len() - from,
{
    if from < 0 || from >= ends.len() {
        ends.len() as int
    } else if ends[from] > idx {
        from
    } else {
        first_above(ends, idx, from + 1)
    }
}

/// The line, counted from 1, of the character at `idx` of the normalised text: the number of
/// the first line end that is greater than `idx`.
pub open spec fn line_of(ends: Seq<i32>, idx: int) -> int {
    first_above(ends, idx, 0) + 1
}

/// Whether `line` is the number of the first entry of `ends` that is greater than `idx`,
/// counted from 1.
pub open spec fn is_line_of(ends: Seq<i32>, idx: int, line: int) -> bool {
    &&& 1 <= line <= ends.len()
    &&& ends[line - 1] > idx
    &&& forall|j: int| 0 <= j < line - 1 ==> ends[j] <= idx
}

impl NormText {
    /// The line ends do not decrease, and the last one is the length of the text.
    pub open spec fn wf(&self) -> bool {
        &&& 0 < self.line_ends@.len() <= i32::MAX
        &&& forall|i: int, j: int|
            0 <= i <= j < self.line_ends@.len() ==> self.line_ends@[i] <= self.line_ends@[j]
        &&& self.line_ends@[0] >= 0
        &&& self.line_ends@.last() == self.value@.len()
    }

    /// The line of the source text, counted from 1, that the character at `norm_idx` of the
    /// normalised text came from.
    pub fn line_number(&self, norm_idx: i32) -> (line: i32)
        requires
            self.wf(),
            norm_idx < self.value@.len(),
        ensures
            line == line_of(self.line_ends@, norm_idx as int),
            is_line_of(self.line_ends@, norm_idx as int, line as int),
    {
        let mut i: usize = 0;
        while self.line_ends[i] <= norm_idx
            invariant
                self.wf(),
                norm_idx < self.value@.len(),
                0 <= i < self.line_ends@.len(),
                forall|j: int| 0 <= j < i ==> self.line_ends@[j] <= norm_idx,
                first_above(self.line_ends@, norm_idx as int, i as int) == first_above(
                    self.line_ends@,
                    norm_idx as int,
                    0,
                ),
            decreases self.line_ends@.len() - i,
        {
            i += 1;
        }
        (i + 1) as i32
    }
}

/// A character at a higher index came from the same line or a later one.
pub proof fn lemma_line_number_monotonic(ends: Seq<i32>, a: int, b: int, line_a: int, line_b: int)
    requires
        a <= b,
        is_line_of(ends, a, line_a),
        is_line_of(ends, b, line_b),
    ensures
        line_a <= line_b,
{
}

// ---------------------------------------------------------------------------------------------
// What normalisation gives

/// What a token adds to the normalised text.
pub open spec fn emitted(s: Seq<char>, i: int, token: TokenSpec) -> Seq<char> {
    match token.kind {
        TokenKind::Elided => Seq::empty(),
        TokenKind::Kept => s.subrange(i, token.end),
        TokenKind::Identifier => seq![NORM_IDENTIFIER],
    }
}

/// The line ends that the newlines of `piece` give, where the normalised text has `idx`
/// characters before the piece. A newline of a piece that is kept ends its line behind
/// itself; one of a piece that is left out ends its line at `idx`.
pub open spec fn newline_marks(piece: Seq<char>, idx: int, preserve: bool) -> Seq<int>
    decreases piece.len(),
{
    if piece.len() == 0 {
        Seq::empty()
    } else {
        let before = newline_marks(piece.drop_last(), idx, preserve);
        if piece.last() == '\n' {
            before.push(
                if preserve {
                    idx + piece.len()
                } else {
                    idx
                },
            )
        } else {
            before
        }
    }
}

/// The normalised form of the text from `i` on.
pub open spec fn norm_text(s: Seq<char>, i: int) -> Seq<char>
    decreases s.len() - i,
{
    if i < 0 || i >= s.len() {
        Seq::empty()
    } else {
        let token = token_at(s, i);
        if i < token.end <= s.len() {
            emitted(s, i, token) + norm_text(s, token.end)
        } else {
            Seq::empty()
        }
    }
}

/// The line ends that the text from `i` on gives, where the normalised text has `base`
/// characters before it: one for each newline, and at last the length of the whole
/// normalised text.
pub open spec fn norm_ends(s: Seq<char>, i: int, base: int) -> Seq<int>
    decreases s.len() - i,
{
    if i < 0 || i >= s.len() {
        seq![base]
    } else {
        let token = token_at(s, i);
        if i < token.end <= s.len() {
            newline_marks(s.subrange(i, token.end), base, token.kind is Kept) + norm_ends(
                s,
                token.end,
                base + emitted(s, i, token).len(),
            )
        } else {
            seq![base]
        }
    }
}

/// The marks of a piece are as many as the piece is long at most, do not decrease, and lie
/// between `idx` and, for a piece that is kept, the end of the piece.
pub proof fn lemma_newline_marks(piece: Seq<char>, idx: int, preserve: bool)
    ensures
        newline_marks(piece, idx, preserve).len() <= piece.len(),
        forall|k: int|
            0 <= k < newline_marks(piece, idx, preserve).len() ==> idx <= #[trigger] newline_marks(
                piece,
                idx,
                preserve,
            )[k] <= idx + (if preserve {
                piece.len()
            } else {
                0
            }),
        forall|j: int, k: int|
            0 <= j <= k < newline_marks(piece, idx, preserve).len() ==> newline_marks(
                piece,
                idx,
                preserve,
            )[j] <= newline_marks(piece, idx, preserve)[k],
    decreases piece.len(),
{
    if piece.len() > 0 {
        lemma_newline_marks(piece.drop_last(), idx, preserve);
    }
}

/// The normalised text is no longer than the text, and its line ends do not decrease, are at
/// most one more than the text is long, and finish with the length of the normalised text.
pub proof fn lemma_norm_ends(s: Seq<char>, i: int, base: int)
    requires
        0 <= i <= s.len(),
    ensures
        norm_text(s, i).len() <= s.len() - i,
        0 < norm_ends(s, i, base).len() <= s.len() - i + 1,
        norm_ends(s, i, base).last() == base + norm_text(s, i).len(),
        forall|k: int|
            0 <= k < norm_ends(s, i, base).len() ==> base <= #[trigger] norm_ends(s, i, base)[k]
                <= base + norm_text(s, i).len(),
        forall|j: int, k: int|
            0 <= j <= k < norm_ends(s, i, base).len() ==> norm_ends(s, i, base)[j] <= norm_ends(
                s,
                i,
                base,
            )[k],
    decreases s.len() - i,
{
    if i < s.len() {
        let token = token_at(s, i);
        lemma_token_at(s, i);
        let piece = s.subrange(i, token.end);
        let marks = newline_marks(piece, base, token.kind is Kept);
        let next = base + emitted(s, i, token).len();
        let rest = norm_ends(s, token.end, next);
        lemma_newline_marks(piece, base, token.kind is Kept);
        lemma_norm_ends(s, token.end, next);
        assert(norm_ends(s, i, base) == marks + rest);
        assert forall|k: int| 0 <= k < (marks + rest).len() implies base <= #[trigger] (marks
            + rest)[k] <= base + norm_text(s, i).len() by {
            if k >= marks.len() {
                assert((marks + rest)[k] == rest[k - marks.len()]);
            }
        }
        assert forall|j: int, k: int| 0 <= j <= k < (marks + rest).len() implies (marks + rest)[j]
            <= (marks + rest)[k] by {
            if k >= marks.len() {
                assert((marks + rest)[k] == rest[k - marks.len()]);
                if j >= marks.len() {
                    assert((marks + rest)[j] == rest[j - marks.len()]);
                }
            }
        }
    }
}

/// The number of newlines of `s`.
pub open spec fn newlines(s: Seq<char>) -> nat
    decreases s.len(),
{
    if s.len() == 0 {
        0
    } else {
        newlines(s.drop_last()) + if s.last() == '\n' {
            1nat
        } else {
            0nat
        }
    }
}

/// A piece gives one line end for each of its newlines.
pub proof fn lemma_mark_per_newline(piece: Seq<char>, idx: int, preserve: bool)
    ensures
        newline_marks(piece, idx, preserve).len() == newlines(piece),
    decreases piece.len(),
{
    if piece.len() > 0 {
        lemma_mark_per_newline(piece.drop_last(), idx, preserve);
    }
}

/// Two texts in a row have the newlines of both.
pub proof fn lemma_newlines_of_both(a: Seq<char>, b: Seq<char>)
    ensures
        newlines(a + b) == newlines(a) + newlines(b),
    decreases b.len(),
{
    if b.len() == 0 {
        assert(a + b =~= a);
    } else {
        lemma_newlines_of_both(a, b.drop_last());
        assert((a + b).drop_last() =~= a + b.drop_last());
        assert((a + b).last() == b.last());
    }
}

/// For every newline of the text a line end is recorded, and one more at the end.
pub proof fn lemma_line_end_per_newline(s: Seq<char>, i: int, base: int)
    requires
        0 <= i <= s.len(),
    ensures
        norm_ends(s, i, base).len() == newlines(s.subrange(i, s.len() as int)) + 1,
    decreases s.len() - i,
{
    if i < s.len() {
        let token = token_at(s, i);
        lemma_token_at(s, i);
        let piece = s.subrange(i, token.end);
        let rest = s.subrange(token.end, s.len() as int);
        lemma_mark_per_newline(piece, base, token.kind is Kept);
        lemma_line_end_per_newline(s, token.end, base + emitted(s, i, token).len());
        lemma_newlines_of_both(piece, rest);
        assert(s.subrange(i, s.len() as int) =~= piece + rest);
    } else {
        assert(s.subrange(i, s.len() as int) =~= Seq::<char>::empty());
    }
}

/// No keyword stands in a text that has fewer than two characters left.
pub proof fn lemma_no_keyword(s: Seq<char>, i: int, words: Seq<Seq<char>>)
    requires
        0 <= i,
        s.len() - i < 2,
        forall|k: int| 0 <= k < words.len() ==> (#[trigger] words[k]).len() >= 2,
    ensures
        keyword_len(s, i, words) == 0,
    decreases words.len(),
{
    if words.len() > 0 {
        assert forall|k: int| 0 <= k < words.drop_last().len() implies (
        #[trigger] words.drop_last()[k]).len() >= 2 by {
            assert(words.drop_last()[k] == words[k]);
        }
        lemma_no_keyword(s, i, words.drop_last());
        assert(words[words.len() - 1].len() >= 2);
    }
}

/// The placeholder of an identifier is an identifier: normalising it gives the placeholder
/// again.
pub proof fn lemma_placeholder_stays()
    ensures
        norm_text(seq![NORM_IDENTIFIER], 0) == seq![NORM_IDENTIFIER],
{
    let s = seq![NORM_IDENTIFIER];
    lemma_keywords_long();
    lemma_no_keyword(s, 0, keywords());
    assert(run_end(s, 1, CharClass::Word) == 1);
    assert(run_end(s, 1, CharClass::Dash) == 1);
    let token = token_at(s, 0);
    assert(token.kind is Identifier && token.end == 1);
    assert(norm_text(s, 1) =~= Seq::<char>::empty());
    assert(norm_text(s, 0) =~= seq![NORM_IDENTIFIER] + norm_text(s, 1));
}

// ---------------------------------------------------------------------------------------------
// Normalising

/// Adds to `le` the line ends that the newlines of `chars[from..to]` give: see
/// `newline_marks`.
pub fn account_for_newlines(
    chars: &Vec<char>,
    from: usize,
    to: usize,
    idx: i32,
    le: &mut Vec<i32>,
    preserve_newlines: bool,
)
    requires
        from <= to <= chars.len(),
        preserve_newlines ==> to - from <= i32::MAX && idx + (to - from) <= i32::MAX,
    ensures
        ints(final(le)@) == ints(old(le)@) + newline_marks(
            chars@.subrange(from as int, to as int),
            idx as int,
            preserve_newlines,
        ),
{
    let mut i: usize = from;
    assert(chars@.subrange(from as int, from as int) =~= Seq::<char>::empty());
    assert(ints(le@) =~= ints(old(le)@) + Seq::<int>::empty());
    while i < to
        invariant
            from <= i <= to <= chars.len(),
            preserve_newlines ==> to - from <= i32::MAX && idx + (to - from) <= i32::MAX,
            ints(le@) == ints(old(le)@) + newline_marks(
                chars@.subrange(from as int, i as int),
                idx as int,
                preserve_newlines,
            ),
        decreases to - i,
    {
        let ghost before = newline_marks(
            chars@.subrange(from as int, i as int),
            idx as int,
            preserve_newlines,
        );
        let ghost seen = le@;
        assert(chars@.subrange(from as int, i + 1).drop_last() =~= chars@.subrange(
            from as int,
            i as int,
        ));
        assert(chars@.subrange(from as int, i + 1).last() == chars@[i as int]);
        if chars[i] == '\n' {
            let end: i32 = if preserve_newlines {
                idx + ((i - from + 1) as i32)
            } else {
                idx
            };
            le.push(end);
            assert(ints(le@) =~= ints(seen).push(end as int));
            assert(ints(le@) =~= ints(old(le)@) + before.push(end as int));
        }
        i += 1;
    }
}

/// The normalised form of `program`: whitespace, comments, docstrings and type annotations are
/// left out, every identifier becomes one placeholder character, and string literals,
/// keywords and all else are kept. For every newline of the program a line end is recorded.
#[verifier::rlimit(40)]
pub fn normalize(program: &str) -> (norm: NormText)
    requires
        program@.len() < i32::MAX,
    ensures
        norm.value@ == norm_text(program@, 0),
        ints(norm.line_ends@) == norm_ends(program@, 0, 0),
        norm.wf(),
        norm.line_ends@.len() == newlines(program@) + 1,
{
    let chars: Vec<char> = chars_of(program);
    let table: Vec<Vec<char>> = keyword_table();
    let mut value: String = String::new();
    let mut written: usize = 0;
    let mut line_ends: Vec<i32> = Vec::new();
    let mut i: usize = 0;
    let ghost s = chars@;
    assert(value@ + norm_text(s, 0) =~= norm_text(s, 0));
    assert(ints(line_ends@) + norm_ends(s, 0, 0) =~= norm_ends(s, 0, 0));
    while i < chars.len()
        invariant
            s == chars@,
            s.len() < i32::MAX,
            words_of(table@) == keywords(),
            i <= chars.len(),
            written == value@.len(),
            written <= i,
            value@ + norm_text(s, i as int) == norm_text(s, 0),
            ints(line_ends@) + norm_ends(s, i as int, written as int) == norm_ends(s, 0, 0),
        decreases chars.len() - i,
    {
        let token: Token = next_token(&chars, i, &table);
        let ghost spec_token = token_at(s, i as int);
        let ghost piece = s.subrange(i as int, token.end as int);
        let ghost seen = ints(line_ends@);
        let ghost old_value = value@;
        let ghost tail_text = norm_text(s, token.end as int);
        proof {
            lemma_token_at(s, i as int);
        }
        match token.kind {
            TokenKind::Elided => {
                account_for_newlines(&chars, i, token.end, written as i32, &mut line_ends, false);
            },
            TokenKind::Kept => {
                account_for_newlines(&chars, i, token.end, written as i32, &mut line_ends, true);
                push_chars(&mut value, &chars, i, token.end);
                written = written + (token.end - i);
            },
            TokenKind::Identifier => {
                account_for_newlines(&chars, i, token.end, written as i32, &mut line_ends, false);
                push_chars_one(&mut value);
                written = written + 1;
            },
        }
        proof {
            let tail_ends = norm_ends(s, token.end as int, written as int);
            let marks = newline_marks(piece, old_value.len() as int, spec_token.kind is Kept);
            assert(value@ == old_value + emitted(s, i as int, spec_token));
            assert(value@ + tail_text =~= old_value + (emitted(s, i as int, spec_token)
                + tail_text));
            assert(ints(line_ends@) + tail_ends =~= seen + (marks + tail_ends));
        }
        i = token.end;
    }
    line_ends.push(written as i32);
    proof {
        lemma_norm_ends(s, 0, 0);
        lemma_line_end_per_newline(s, 0, 0);
        assert(s.subrange(0, s.len() as int) =~= s);
        assert(value@ =~= norm_text(s, 0)) by {
            assert(norm_text(s, s.len() as int) =~= Seq::<char>::empty());
        }
        assert(ints(line_ends@) =~= norm_ends(s, 0, 0)) by {
            assert(norm_ends(s, s.len() as int, written as int) =~= seq![written as int]);
        }
        let ends = norm_ends(s, 0, 0);
        assert forall|j: int| 0 <= j < line_ends@.len() implies line_ends@[j] as int == ends[j] by {
            assert(ints(line_ends@)[j] == line_ends@[j] as int);
        }
        assert(line_ends@.len() == ends.len());
        assert(0 < line_ends@.len() <= i32::MAX);
        assert(norm_ends(s, 0, 0)[0] >= 0);
        assert(line_ends@.last() == value@.len());
        assert forall|a: int, b: int| 0 <= a <= b < line_ends@.len() implies line_ends@[a]
            <= line_ends@[b] by {
            assert(ends[a] <= ends[b]);
        }
    }
    NormText { value, line_ends }
}

/// Adds the placeholder of an identifier to `value`.
fn push_chars_one(value: &mut String)
    ensures
        final(value)@ == old(value)@ + seq![NORM_IDENTIFIER],
{
    let placeholder: Vec<char> = vec![NORM_IDENTIFIER];
    push_chars(value, &placeholder, 0, 1);
    assert(placeholder@.subrange(0, 1) =~= seq![NORM_IDENTIFIER]);
}

} // verus!
