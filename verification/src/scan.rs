//! Character classes, and runs of characters of one class.

use vstd::prelude::*;

verus! {

/// A class of characters that a run can be made of.
#[derive(Clone, Copy, Debug)]
pub enum CharClass {
    /// Space, tab, newline, carriage return.
    Space,
    /// A letter, a digit or an underscore.
    Word,
    /// A hyphen.
    Dash,
    /// A word character or a hyphen: what the name of a type parameter holds after its start.
    TypeName,
    /// A word character, a hyphen or an angle bracket: what a simple type holds after its start.
    TypeAtom,
    /// Anything but a newline.
    NotNewline,
    /// Anything but a newline and the given closing quote.
    Inside(char),
}

/// Whether `c` is a space, a tab, a newline or a carriage return.
pub open spec fn is_space(c: char) -> bool {
    c == ' ' || c == '\t' || c == '\n' || c == '\r'
}

/// A letter or an underscore: what an identifier starts with.
pub open spec fn is_name_start(c: char) -> bool {
    c == '_' || ('a' <= c && c <= 'z') || ('A' <= c && c <= 'Z')
}

/// Whether `c` is a letter, a digit or an underscore.
pub open spec fn is_word(c: char) -> bool {
    is_name_start(c) || ('0' <= c && c <= '9')
}

/// Whether `c` belongs to `class`.
pub open spec fn in_class(class: CharClass, c: char) -> bool {
    match class {
        CharClass::Space => is_space(c),
        CharClass::Word => is_word(c),
        CharClass::Dash => c == '-',
        CharClass::TypeName => is_word(c) || c == '-',
        CharClass::TypeAtom => is_word(c) || c == '-' || c == '<' || c == '>',
        CharClass::NotNewline => c != '\n',
        CharClass::Inside(quote) => c != '\n' && c != quote,
    }
}

/// Whether `s` holds the character `c` at index `i`.
pub open spec fn char_at(s: Seq<char>, i: int, c: char) -> bool {
    0 <= i < s.len() && s[i] == c
}

/// The end of the longest run of characters of `class` that starts at `i`:
/// the first index from `i` on that holds no character of the class.
pub open spec fn run_end(s: Seq<char>, i: int, class: CharClass) -> int
    decreases s.len() - i,
{
    if 0 <= i < s.len() && in_class(class, s[i]) {
        run_end(s, i + 1, class)
    } else {
        i
    }
}

/// A run ends within the text, at the first character outside the class, and holds none but
/// characters of the class.
pub proof fn lemma_run_end(s: Seq<char>, i: int, class: CharClass)
    requires
        0 <= i <= s.len(),
    ensures
        i <= run_end(s, i, class) <= s.len(),
        run_end(s, i, class) < s.len() ==> !in_class(class, s[run_end(s, i, class)]),
        forall|j: int| i <= j < run_end(s, i, class) ==> in_class(class, #[trigger] s[j]),
    decreases s.len() - i,
{
    if i < s.len() && in_class(class, s[i]) {
        lemma_run_end(s, i + 1, class);
    }
}

/// Whether `c` is a space, a tab, a newline or a carriage return.
pub fn space(c: char) -> (b: bool)
    ensures
        b == is_space(c),
{
    c == ' ' || c == '\t' || c == '\n' || c == '\r'
}

/// Whether `c` is a letter or an underscore.
pub fn name_start(c: char) -> (b: bool)
    ensures
        b == is_name_start(c),
{
    c == '_' || ('a' <= c && c <= 'z') || ('A' <= c && c <= 'Z')
}

/// Whether `c` is a letter, a digit or an underscore.
pub fn word(c: char) -> (b: bool)
    ensures
        b == is_word(c),
{
    name_start(c) || ('0' <= c && c <= '9')
}

/// Whether `c` belongs to `class`.
pub fn class_has(class: CharClass, c: char) -> (b: bool)
    ensures
        b == in_class(class, c),
{
    match class {
        CharClass::Space => space(c),
        CharClass::Word => word(c),
        CharClass::Dash => c == '-',
        CharClass::TypeName => word(c) || c == '-',
        CharClass::TypeAtom => word(c) || c == '-' || c == '<' || c == '>',
        CharClass::NotNewline => c != '\n',
        CharClass::Inside(quote) => c != '\n' && c != quote,
    }
}

/// Whether `chars` holds `c` at `off` places after `i`.
pub fn is_at(chars: &Vec<char>, i: usize, off: usize, c: char) -> (b: bool)
    requires
        i <= chars.len(),
    ensures
        b == char_at(chars@, i + off, c),
{
    off < chars.len() - i && chars[i + off] == c
}

/// Skips the run of `class` that starts at `i`.
pub fn skip_run(chars: &Vec<char>, i: usize, class: CharClass) -> (end: usize)
    requires
        i <= chars.len(),
    ensures
        end == run_end(chars@, i as int, class),
        i <= end <= chars.len(),
{
    let mut j: usize = i;
    while j < chars.len() && class_has(class, chars[j])
        invariant
            i <= j <= chars.len(),
            run_end(chars@, j as int, class) == run_end(chars@, i as int, class),
        decreases chars.len() - j,
    {
        j += 1;
    }
    j
}

} // verus!
