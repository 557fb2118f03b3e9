//! The lexical rules of normalisation: what stands at a position of a program's text, and
//! where it ends.
//!
//! Each rule is a spec function from the text and a position to the end of what it matches
//! there, and an executable function that computes that end.

use crate::keywords::{keywords, words_of};
use crate::scan::{
    char_at, is_at, is_name_start, is_space, is_word, lemma_run_end, name_start, run_end,
    skip_run, space, word, CharClass,
};
use vstd::prelude::*;

verus! {

/// What normalisation does with a piece of the text.
#[derive(Clone, Copy, Debug)]
pub enum TokenKind {
    /// Left out: whitespace, a comment, a docstring, a type annotation.
    Elided,
    /// Copied as it is: a string literal, a keyword, or one character that nothing else matches.
    Kept,
    /// An identifier: replaced by a placeholder.
    Identifier,
}

/// A piece of the text, from the position it was asked for up to `end`.
pub struct Token {
    pub kind: TokenKind,
    pub end: usize,
}

/// A token in specifications.
pub ghost struct TokenSpec {
    pub kind: TokenKind,
    pub end: int,
}

/// Whether an executable result is the end that a rule gives.
pub open spec fn same_end(found: Option<usize>, end: Option<int>) -> bool {
    match found {
        Some(e) => end == Some(e as int),
        None => end is None,
    }
}

/// Whether `pat` stands in `s` at `i`.
pub open spec fn has_at(s: Seq<char>, i: int, pat: Seq<char>) -> bool {
    0 <= i && i + pat.len() <= s.len() && s.subrange(i, i + pat.len()) == pat
}

// ---------------------------------------------------------------------------------------------
// Whitespace

/// The end of the whitespace that starts at `i`, if any does: the longest run of spaces,
/// tabs, newlines and carriage returns.
pub open spec fn whitespace_end(s: Seq<char>, i: int) -> Option<int> {
    if 0 <= i < s.len() && is_space(s[i]) {
        Some(run_end(s, i, CharClass::Space))
    } else {
        None
    }
}

/// The end of the whitespace at `i`, if there is any.
pub fn match_whitespace(chars: &Vec<char>, i: usize) -> (end: Option<usize>)
    requires
        i < chars.len(),
    ensures
        same_end(end, whitespace_end(chars@, i as int)),
        end matches Some(e) ==> i < e <= chars.len(),
{
    if space(chars[i]) {
        proof {
            lemma_run_end(chars@, i as int, CharClass::Space);
        }
        Some(skip_run(chars, i, CharClass::Space))
    } else {
        None
    }
}

// ---------------------------------------------------------------------------------------------
// Comments

/// The end of a block comment whose body is read from `j` on, `depth` comments being open:
/// behind the `|#` that closes the outermost one, or the end of the text if none does.
pub open spec fn block_end(s: Seq<char>, j: int, depth: nat) -> int
    decreases s.len() - j,
{
    if j < 0 || j >= s.len() {
        s.len() as int
    } else if char_at(s, j, '|') && char_at(s, j + 1, '#') {
        if depth <= 1 {
            j + 2
        } else {
            block_end(s, j + 2, (depth - 1) as nat)
        }
    } else if char_at(s, j, '#') && char_at(s, j + 1, '|') {
        block_end(s, j + 2, depth + 1)
    } else {
        block_end(s, j + 1, depth)
    }
}

/// The end of the comment that starts at `i`, where a `#` stands: a block comment `#| .. |#`,
/// in which block comments nest, or else the rest of the line.
pub open spec fn comment_end(s: Seq<char>, i: int) -> int {
    if char_at(s, i + 1, '|') {
        block_end(s, i + 2, 1)
    } else {
        run_end(s, i, CharClass::NotNewline)
    }
}

/// A block comment ends within the text, behind where its body starts.
pub proof fn lemma_block_end(s: Seq<char>, j: int, depth: nat)
    requires
        0 <= j <= s.len(),
    ensures
        j <= block_end(s, j, depth) <= s.len(),
    decreases s.len() - j,
{
    if j < s.len() {
        if char_at(s, j, '|') && char_at(s, j + 1, '#') {
            if depth > 1 {
                lemma_block_end(s, j + 2, (depth - 1) as nat);
            }
        } else if char_at(s, j, '#') && char_at(s, j + 1, '|') {
            lemma_block_end(s, j + 2, depth + 1);
        } else {
            lemma_block_end(s, j + 1, depth);
        }
    }
}

/// The end of the comment at `i`.
pub fn match_comment(chars: &Vec<char>, i: usize) -> (end: usize)
    requires
        i < chars.len(),
        chars[i as int] == '#',
    ensures
        end == comment_end(chars@, i as int),
        i < end <= chars.len(),
{
    if !is_at(chars, i, 1, '|') {
        proof {
            lemma_run_end(chars@, i as int, CharClass::NotNewline);
        }
        return skip_run(chars, i, CharClass::NotNewline);
    }
    let mut j: usize = i + 2;
    let mut depth: usize = 1;
    while j < chars.len()
        invariant
            i + 2 <= j <= chars.len(),
            1 <= depth <= j,
            block_end(chars@, j as int, depth as nat) == comment_end(chars@, i as int),
        decreases chars.len() - j,
    {
        if chars[j] == '|' && is_at(chars, j, 1, '#') {
            if depth == 1 {
                return j + 2;
            }
            depth -= 1;
            j += 2;
        } else if chars[j] == '#' && is_at(chars, j, 1, '|') {
            depth += 1;
            j += 2;
        } else {
            j += 1;
        }
    }
    j
}

// ---------------------------------------------------------------------------------------------
// String literals

/// The end of a string in triple backticks whose body is read from `j` on: behind the next
/// three backticks, or the end of the text if there are none.
pub open spec fn fence_end(s: Seq<char>, j: int) -> int
    decreases s.len() - j,
{
    if j < 0 || j >= s.len() {
        s.len() as int
    } else if char_at(s, j, '`') && char_at(s, j + 1, '`') && char_at(s, j + 2, '`') {
        j + 3
    } else {
        fence_end(s, j + 1)
    }
}

/// The end of the string literal that starts at `i`, if one does.
///
/// A string in double or single quotes ends behind the next such quote on the same line; where
/// the text ends before the line does, the literal runs to the end of the text. A string in
/// triple backticks may span lines, and runs to the end of the text where it is not closed.
pub open spec fn string_end(s: Seq<char>, i: int) -> Option<int> {
    if char_at(s, i, '"') || char_at(s, i, '\'') {
        let close = run_end(s, i + 1, CharClass::Inside(s[i]));
        if close >= s.len() {
            Some(s.len() as int)
        } else if s[close] == s[i] {
            Some(close + 1)
        } else {
            None
        }
    } else if char_at(s, i, '`') && char_at(s, i + 1, '`') && char_at(s, i + 2, '`') {
        Some(fence_end(s, i + 3))
    } else {
        None
    }
}

/// A string in triple backticks ends within the text, behind where its body starts.
pub proof fn lemma_fence_end(s: Seq<char>, j: int)
    requires
        0 <= j <= s.len(),
    ensures
        j <= fence_end(s, j) <= s.len(),
    decreases s.len() - j,
{
    if j < s.len() && !(char_at(s, j, '`') && char_at(s, j + 1, '`') && char_at(s, j + 2, '`')) {
        lemma_fence_end(s, j + 1);
    }
}

/// A string literal is not empty and ends within the text.
pub proof fn lemma_string_end(s: Seq<char>, i: int)
    requires
        0 <= i < s.len(),
    ensures
        string_end(s, i) matches Some(e) ==> i < e <= s.len(),
{
    lemma_run_end(s, i + 1, CharClass::Inside(s[i]));
    if i + 3 <= s.len() {
        lemma_fence_end(s, i + 3);
    }
}

/// The end of the string literal at `i`, if there is one.
pub fn match_string_literal(chars: &Vec<char>, i: usize) -> (end: Option<usize>)
    requires
        i < chars.len(),
    ensures
        same_end(end, string_end(chars@, i as int)),
        end matches Some(e) ==> i < e <= chars.len(),
{
    proof {
        lemma_string_end(chars@, i as int);
    }
    let quote: char = chars[i];
    if quote == '"' || quote == '\'' {
        let close: usize = skip_run(chars, i + 1, CharClass::Inside(quote));
        if close >= chars.len() {
            Some(chars.len())
        } else if chars[close] == quote {
            Some(close + 1)
        } else {
            None
        }
    } else if quote == '`' && is_at(chars, i, 1, '`') && is_at(chars, i, 2, '`') {
        let mut j: usize = i + 3;
        while j < chars.len()
            invariant
                i + 3 <= j <= chars.len(),
                string_end(chars@, i as int) == Some(fence_end(chars@, j as int)),
            decreases chars.len() - j,
        {
            if chars[j] == '`' && is_at(chars, j, 1, '`') && is_at(chars, j, 2, '`') {
                return Some(j + 3);
            }
            j += 1;
        }
        Some(j)
    } else {
        None
    }
}

// ---------------------------------------------------------------------------------------------
// Docstrings

/// The end of the docstring that starts at `i`, if one does: `doc:`, whitespace if any, and a
/// string literal.
pub open spec fn docstring_end(s: Seq<char>, i: int) -> Option<int> {
    if char_at(s, i, 'd') && char_at(s, i + 1, 'o') && char_at(s, i + 2, 'c') && char_at(
        s,
        i + 3,
        ':',
    ) {
        string_end(s, run_end(s, i + 4, CharClass::Space))
    } else {
        None
    }
}

/// The end of the docstring at `i`, if there is one.
pub fn match_docstring(chars: &Vec<char>, i: usize) -> (end: Option<usize>)
    requires
        i < chars.len(),
    ensures
        same_end(end, docstring_end(chars@, i as int)),
        end matches Some(e) ==> i < e <= chars.len(),
{
    if chars[i] == 'd' && is_at(chars, i, 1, 'o') && is_at(chars, i, 2, 'c') && is_at(
        chars,
        i,
        3,
        ':',
    ) {
        let lit: usize = skip_run(chars, i + 4, CharClass::Space);
        if lit < chars.len() {
            match_string_literal(chars, lit)
        } else {
            None
        }
    } else {
        None
    }
}

// ---------------------------------------------------------------------------------------------
// Type annotations

/// The end of a type in parentheses whose inside is read from `j` on, `depth` parentheses
/// being open: behind the one that closes the outermost, if the text holds it.
pub open spec fn parens_end(s: Seq<char>, j: int, depth: nat) -> Option<int>
    decreases s.len() - j,
{
    if j < 0 || j >= s.len() {
        None
    } else if s[j] == ')' {
        if depth <= 1 {
            Some(j + 1)
        } else {
            parens_end(s, j + 1, (depth - 1) as nat)
        }
    } else if s[j] == '(' {
        parens_end(s, j + 1, depth + 1)
    } else {
        parens_end(s, j + 1, depth)
    }
}

/// The end of the type that starts at `p`, if one does: a type in balanced parentheses, or a
/// name that may hold hyphens and angle brackets.
pub open spec fn type_body_end(s: Seq<char>, p: int) -> Option<int> {
    if char_at(s, p, '(') {
        parens_end(s, p + 1, 1)
    } else if 0 <= p < s.len() && is_name_start(s[p]) {
        Some(run_end(s, p + 1, CharClass::TypeAtom))
    } else {
        None
    }
}

/// The end of a list of type parameters whose names are read from `j` on, if it is one: names,
/// each followed by a comma and whitespace if at all, and then `>`. (Whitespace ends behind
/// where it starts, as `lemma_run_end` shows; the test on `next` makes the recursion plain.)
pub open spec fn params_end(s: Seq<char>, j: int) -> Option<int>
    decreases s.len() - j,
{
    if j < 0 || j >= s.len() {
        None
    } else if s[j] == '>' {
        Some(j + 1)
    } else if is_name_start(s[j]) {
        let k = run_end(s, j + 1, CharClass::TypeName);
        let next = run_end(s, k + 1, CharClass::Space);
        if char_at(s, k, ',') && j < next <= s.len() {
            params_end(s, next)
        } else if char_at(s, k, '>') {
            Some(k + 1)
        } else {
            None
        }
    } else {
        None
    }
}

/// The end of the type annotation that starts at `i`, if one does: `::` and whitespace, or
/// `->` and whitespace if any, and then a type; or a list of type parameters `<A, B>`.
pub open spec fn type_end(s: Seq<char>, i: int) -> Option<int> {
    if char_at(s, i, ':') && char_at(s, i + 1, ':') {
        let p = run_end(s, i + 2, CharClass::Space);
        if p > i + 2 {
            type_body_end(s, p)
        } else {
            None
        }
    } else if char_at(s, i, '-') && char_at(s, i + 1, '>') {
        type_body_end(s, run_end(s, i + 2, CharClass::Space))
    } else if char_at(s, i, '<') {
        params_end(s, i + 1)
    } else {
        None
    }
}

/// A type in parentheses ends within the text, behind where its inside starts.
pub proof fn lemma_parens_end(s: Seq<char>, j: int, depth: nat)
    requires
        0 <= j <= s.len(),
    ensures
        parens_end(s, j, depth) matches Some(e) ==> j < e <= s.len(),
    decreases s.len() - j,
{
    if j < s.len() {
        if s[j] == ')' {
            if depth > 1 {
                lemma_parens_end(s, j + 1, (depth - 1) as nat);
            }
        } else if s[j] == '(' {
            lemma_parens_end(s, j + 1, depth + 1);
        } else {
            lemma_parens_end(s, j + 1, depth);
        }
    }
}

/// A list of type parameters ends within the text, behind where its names start.
pub proof fn lemma_params_end(s: Seq<char>, j: int)
    requires
        0 <= j <= s.len(),
    ensures
        params_end(s, j) matches Some(e) ==> j < e <= s.len(),
    decreases s.len() - j,
{
    if j < s.len() && s[j] != '>' && is_name_start(s[j]) {
        let k = run_end(s, j + 1, CharClass::TypeName);
        lemma_run_end(s, j + 1, CharClass::TypeName);
        if char_at(s, k, ',') {
            lemma_run_end(s, k + 1, CharClass::Space);
            lemma_params_end(s, run_end(s, k + 1, CharClass::Space));
        }
    }
}

/// A type annotation is not empty and ends within the text.
pub proof fn lemma_type_end(s: Seq<char>, i: int)
    requires
        0 <= i < s.len(),
    ensures
        type_end(s, i) matches Some(e) ==> i < e <= s.len(),
{
    if i + 2 <= s.len() {
        let p = run_end(s, i + 2, CharClass::Space);
        lemma_run_end(s, i + 2, CharClass::Space);
        if p < s.len() {
            lemma_parens_end(s, p + 1, 1);
            lemma_run_end(s, p + 1, CharClass::TypeAtom);
        }
    }
    lemma_params_end(s, i + 1);
}

/// The end of the type at `p`, if there is one.
fn match_type_body(chars: &Vec<char>, p: usize) -> (end: Option<usize>)
    requires
        p <= chars.len(),
    ensures
        same_end(end, type_body_end(chars@, p as int)),
{
    if p >= chars.len() {
        return None;
    }
    if chars[p] == '(' {
        let mut j: usize = p + 1;
        let mut depth: usize = 1;
        while j < chars.len()
            invariant
                p + 1 <= j <= chars.len(),
                1 <= depth <= j,
                parens_end(chars@, j as int, depth as nat) == type_body_end(chars@, p as int),
            decreases chars.len() - j,
        {
            if chars[j] == ')' {
                if depth == 1 {
                    return Some(j + 1);
                }
                depth -= 1;
            } else if chars[j] == '(' {
                depth += 1;
            }
            j += 1;
        }
        None
    } else if name_start(chars[p]) {
        Some(skip_run(chars, p + 1, CharClass::TypeAtom))
    } else {
        None
    }
}

/// The end of the list of type parameters whose names start at `from`, if it is one.
fn match_type_params(chars: &Vec<char>, from: usize) -> (end: Option<usize>)
    requires
        from <= chars.len(),
    ensures
        same_end(end, params_end(chars@, from as int)),
{
    let mut j: usize = from;
    while j < chars.len()
        invariant
            from <= j <= chars.len(),
            params_end(chars@, j as int) == params_end(chars@, from as int),
        decreases chars.len() - j,
    {
        if chars[j] == '>' {
            return Some(j + 1);
        }
        if !name_start(chars[j]) {
            return None;
        }
        let k: usize = skip_run(chars, j + 1, CharClass::TypeName);
        if is_at(chars, k, 0, ',') {
            j = skip_run(chars, k + 1, CharClass::Space);
        } else if is_at(chars, k, 0, '>') {
            return Some(k + 1);
        } else {
            return None;
        }
    }
    None
}

/// The end of the type annotation at `i`, if there is one.
pub fn match_type(chars: &Vec<char>, i: usize) -> (end: Option<usize>)
    requires
        i < chars.len(),
    ensures
        same_end(end, type_end(chars@, i as int)),
        end matches Some(e) ==> i < e <= chars.len(),
{
    proof {
        lemma_type_end(chars@, i as int);
    }
    if chars[i] == ':' && is_at(chars, i, 1, ':') {
        let p: usize = skip_run(chars, i + 2, CharClass::Space);
        if p > i + 2 {
            match_type_body(chars, p)
        } else {
            None
        }
    } else if chars[i] == '-' && is_at(chars, i, 1, '>') {
        let p: usize = skip_run(chars, i + 2, CharClass::Space);
        match_type_body(chars, p)
    } else if chars[i] == '<' {
        match_type_params(chars, i + 1)
    } else {
        None
    }
}

// ---------------------------------------------------------------------------------------------
// Keywords and identifiers

/// The length of the longest of `words` that stands at `i`; 0 if none does.
pub open spec fn keyword_len(s: Seq<char>, i: int, words: Seq<Seq<char>>) -> nat
    decreases words.len(),
{
    if words.len() == 0 {
        0
    } else {
        let rest = keyword_len(s, i, words.drop_last());
        if has_at(s, i, words.last()) && words.last().len() > rest {
            words.last().len()
        } else {
            rest
        }
    }
}

/// The end of an identifier whose first part ends at `j`: behind the last group of hyphens
/// and word characters that follows. (A group ends behind where it starts, as
/// `lemma_run_end` shows; the test on `next` makes the recursion plain.)
pub open spec fn ident_tail(s: Seq<char>, j: int) -> int
    decreases s.len() - j,
{
    let k = run_end(s, j, CharClass::Dash);
    let next = run_end(s, k + 1, CharClass::Word);
    if j < k < s.len() && is_word(s[k]) && j < next <= s.len() {
        ident_tail(s, next)
    } else {
        j
    }
}

/// The length of the identifier that starts at `i`; 0 if none does. An identifier starts with
/// a letter or an underscore, goes on with word characters, and then with groups made of
/// hyphens and, after them, word characters.
pub open spec fn ident_len(s: Seq<char>, i: int) -> nat {
    if 0 <= i < s.len() && is_name_start(s[i]) {
        (ident_tail(s, run_end(s, i + 1, CharClass::Word)) - i) as nat
    } else {
        0
    }
}

/// A keyword that stands at a place ends within the text.
pub proof fn lemma_keyword_len(s: Seq<char>, i: int, words: Seq<Seq<char>>)
    requires
        0 <= i <= s.len(),
    ensures
        i + keyword_len(s, i, words) <= s.len(),
    decreases words.len(),
{
    if words.len() > 0 {
        lemma_keyword_len(s, i, words.drop_last());
    }
}

/// An identifier ends within the text, no earlier than its first part.
pub proof fn lemma_ident_tail(s: Seq<char>, j: int)
    requires
        0 <= j <= s.len(),
    ensures
        j <= ident_tail(s, j) <= s.len(),
    decreases s.len() - j,
{
    let k = run_end(s, j, CharClass::Dash);
    lemma_run_end(s, j, CharClass::Dash);
    if j < k < s.len() && is_word(s[k]) {
        lemma_run_end(s, k + 1, CharClass::Word);
        lemma_ident_tail(s, run_end(s, k + 1, CharClass::Word));
    }
}

/// An identifier ends within the text, and has a character where it starts with one.
pub proof fn lemma_ident_len(s: Seq<char>, i: int)
    requires
        0 <= i < s.len(),
    ensures
        i + ident_len(s, i) <= s.len(),
        is_name_start(s[i]) ==> ident_len(s, i) >= 1,
{
    lemma_run_end(s, i + 1, CharClass::Word);
    lemma_ident_tail(s, run_end(s, i + 1, CharClass::Word));
}

/// Whether `word` stands in `chars` at `i`.
pub fn starts_with(chars: &Vec<char>, i: usize, word: &Vec<char>) -> (b: bool)
    requires
        i <= chars.len(),
    ensures
        b == has_at(chars@, i as int, word@),
{
    if word.len() > chars.len() - i {
        return false;
    }
    let mut j: usize = 0;
    while j < word.len()
        invariant
            i + word.len() <= chars.len(),
            j <= word.len(),
            forall|k: int| 0 <= k < j ==> chars@[i + k] == word@[k],
        decreases word.len() - j,
    {
        if chars[i + j] != word[j] {
            assert(chars@.subrange(i as int, i + word.len())[j as int] != word@[j as int]);
            return false;
        }
        j += 1;
    }
    assert(chars@.subrange(i as int, i + word.len()) =~= word@);
    true
}

/// The length of the longest keyword at `i`; 0 if there is none.
pub fn match_keyword(chars: &Vec<char>, i: usize, table: &Vec<Vec<char>>) -> (len: usize)
    requires
        i <= chars.len(),
    ensures
        len == keyword_len(chars@, i as int, words_of(table@)),
        i + len <= chars.len(),
{
    let ghost words = words_of(table@);
    let mut best: usize = 0;
    let mut k: usize = 0;
    assert(words.take(0) =~= Seq::<Seq<char>>::empty());
    while k < table.len()
        invariant
            i <= chars.len(),
            k <= table.len(),
            words == words_of(table@),
            best == keyword_len(chars@, i as int, words.take(k as int)),
            i + best <= chars.len(),
        decreases table.len() - k,
    {
        proof {
            assert(words.take(k + 1).drop_last() =~= words.take(k as int));
            assert(words.take(k + 1).last() == table@[k as int]@);
        }
        if table[k].len() > best && starts_with(chars, i, &table[k]) {
            best = table[k].len();
        }
        k += 1;
    }
    assert(words.take(table.len() as int) =~= words);
    best
}

/// The length of the identifier at `i`; 0 if there is none.
pub fn match_identifier(chars: &Vec<char>, i: usize) -> (len: usize)
    requires
        i < chars.len(),
    ensures
        len == ident_len(chars@, i as int),
        i + len <= chars.len(),
{
    proof {
        lemma_ident_len(chars@, i as int);
    }
    if !name_start(chars[i]) {
        return 0;
    }
    let mut j: usize = skip_run(chars, i + 1, CharClass::Word);
    loop
        invariant
            i < j <= chars.len(),
            ident_tail(chars@, j as int) == ident_tail(
                chars@,
                run_end(chars@, i + 1, CharClass::Word),
            ),
        ensures
            j == ident_tail(chars@, run_end(chars@, i + 1, CharClass::Word)),
        decreases chars.len() - j,
    {
        let k: usize = skip_run(chars, j, CharClass::Dash);
        if j < k && k < chars.len() && word(chars[k]) {
            j = skip_run(chars, k + 1, CharClass::Word);
        } else {
            break;
        }
    }
    j - i
}

/// The keyword or identifier that starts at `i`, if one does: whether it is a keyword, and
/// where it ends. Of a keyword and an identifier that both start there, the identifier
/// counts only where it is strictly longer.
pub open spec fn keyword_or_ident(s: Seq<char>, i: int) -> Option<(bool, int)> {
    let key = keyword_len(s, i, keywords());
    let id = ident_len(s, i);
    if id > key {
        Some((false, i + id))
    } else if key > 0 {
        Some((true, i + key))
    } else {
        None
    }
}

/// The keyword or identifier at `i`, if there is one: whether it is a keyword, and where it
/// ends.
pub fn match_keyword_or_ident(chars: &Vec<char>, i: usize, table: &Vec<Vec<char>>) -> (found: Option<
    (bool, usize),
>)
    requires
        i < chars.len(),
        words_of(table@) == keywords(),
    ensures
        match found {
            Some((is_keyword, end)) => keyword_or_ident(chars@, i as int) == Some(
                (is_keyword, end as int),
            ) && i < end <= chars.len(),
            None => keyword_or_ident(chars@, i as int) is None,
        },
{
    let key: usize = match_keyword(chars, i, table);
    let id: usize = match_identifier(chars, i);
    if id > key {
        Some((false, i + id))
    } else if key > 0 {
        Some((true, i + key))
    } else {
        None
    }
}

// ---------------------------------------------------------------------------------------------
// The token at a position

/// The token that starts at `i`. The rules are tried in this order, and the first that
/// matches decides: whitespace, comment, docstring, type annotation, string literal, keyword
/// or identifier, and at last a single character, which is kept.
///
/// Of a keyword and an identifier that both match, the identifier wins only where it is
/// strictly longer.
pub open spec fn token_at(s: Seq<char>, i: int) -> TokenSpec
    recommends
        0 <= i < s.len(),
{
    if whitespace_end(s, i) is Some {
        TokenSpec { kind: TokenKind::Elided, end: whitespace_end(s, i)->0 }
    } else if s[i] == '#' {
        TokenSpec { kind: TokenKind::Elided, end: comment_end(s, i) }
    } else if docstring_end(s, i) is Some {
        TokenSpec { kind: TokenKind::Elided, end: docstring_end(s, i)->0 }
    } else if type_end(s, i) is Some {
        TokenSpec { kind: TokenKind::Elided, end: type_end(s, i)->0 }
    } else if string_end(s, i) is Some {
        TokenSpec { kind: TokenKind::Kept, end: string_end(s, i)->0 }
    } else {
        match keyword_or_ident(s, i) {
            Some((true, end)) => TokenSpec { kind: TokenKind::Kept, end },
            Some((false, end)) => TokenSpec { kind: TokenKind::Identifier, end },
            None => TokenSpec { kind: TokenKind::Kept, end: i + 1 },
        }
    }
}

/// Every token is non-empty and ends within the text.
pub proof fn lemma_token_at(s: Seq<char>, i: int)
    requires
        0 <= i < s.len(),
    ensures
        i < token_at(s, i).end <= s.len(),
{
    lemma_run_end(s, i, CharClass::Space);
    lemma_run_end(s, i, CharClass::NotNewline);
    if i + 2 <= s.len() {
        lemma_block_end(s, i + 2, 1);
    }
    if i + 4 <= s.len() {
        lemma_run_end(s, i + 4, CharClass::Space);
        let p = run_end(s, i + 4, CharClass::Space);
        if p < s.len() {
            lemma_string_end(s, p);
        }
    }
    lemma_type_end(s, i);
    lemma_string_end(s, i);
    lemma_ident_len(s, i);
    lemma_keyword_len(s, i, keywords());
}

/// The token at `i`.
pub fn next_token(chars: &Vec<char>, i: usize, table: &Vec<Vec<char>>) -> (token: Token)
    requires
        i < chars.len(),
        words_of(table@) == keywords(),
    ensures
        token.kind == token_at(chars@, i as int).kind,
        token.end == token_at(chars@, i as int).end,
        i < token.end <= chars.len(),
{
    proof {
        lemma_token_at(chars@, i as int);
    }
    let c: char = chars[i];
    if let Some(end) = match_whitespace(chars, i) {
        return Token { kind: TokenKind::Elided, end };
    }
    if c == '#' {
        return Token { kind: TokenKind::Elided, end: match_comment(chars, i) };
    }
    if let Some(end) = match_docstring(chars, i) {
        return Token { kind: TokenKind::Elided, end };
    }
    if let Some(end) = match_type(chars, i) {
        return Token { kind: TokenKind::Elided, end };
    }
    if let Some(end) = match_string_literal(chars, i) {
        return Token { kind: TokenKind::Kept, end };
    }
    match match_keyword_or_ident(chars, i, table) {
        Some((true, end)) => Token { kind: TokenKind::Kept, end },
        Some((false, end)) => Token { kind: TokenKind::Identifier, end },
        None => Token { kind: TokenKind::Kept, end: i + 1 },
    }
}

} // verus!
