//! The closed set of Pyret keywords that normalisation keeps as they are.

use crate::text::chars_of;
use vstd::prelude::*;

verus! {

/// Keywords of nine characters and more.
pub open spec fn long_keywords() -> Seq<Seq<char>> {
    seq![
        "raises-other-than"@,
        "raises-satisfies"@,
        "raises-violates"@,
        "does-not-raise"@,
        "provide-types"@,
        "otherwise:"@,
        "load-table"@,
        "is-roughly"@,
        "descending"@,
        "transform"@,
        "satisfies"@,
        "is-not<=>"@,
        "examples:"@,
        "ascending"@,
    ]
}

/// Keywords of eight characters.
pub open spec fn eight_keywords() -> Seq<Seq<char>> {
    seq![
        "violates"@,
        "type-let"@,
        "sharing:"@,
        "sanitize"@,
        "provide:"@,
        "is-not=~"@,
        "is-not=="@,
        "examples"@,
    ]
}

/// Keywords of seven characters.
pub open spec fn seven_keywords() -> Seq<Seq<char>> {
    seq![
        "source:"@,
        "reactor"@,
        "provide"@,
        "newtype"@,
        "include"@,
        "extract"@,
        "else if"@,
        "because"@,
    ]
}

/// Keywords of six characters.
pub open spec fn six_keywords() -> Seq<Seq<char>> {
    seq![
        "where:"@,
        "table:"@,
        "shadow"@,
        "select"@,
        "raises"@,
        "module"@,
        "method"@,
        "letrec"@,
        "is-not"@,
        "import"@,
        "hiding"@,
        "extend"@,
        "check:"@,
        "block:"@,
    ]
}

/// Keywords of five characters.
pub open spec fn five_keywords() -> Seq<Seq<char>> {
    seq![
        "with:"@,
        "using"@,
        "then:"@,
        "sieve"@,
        "order"@,
        "is<=>"@,
        "false"@,
        "else:"@,
        "check"@,
        "cases"@,
    ]
}

/// Keywords of four characters.
pub open spec fn four_keywords() -> Seq<Seq<char>> {
    seq![
        "when"@,
        "type"@,
        "true"@,
        "row:"@,
        "lazy"@,
        "is=~"@,
        "is=="@,
        "from"@,
        "else"@,
        "doc:"@,
        "data"@,
    ]
}

/// Keywords of three characters.
pub open spec fn three_keywords() -> Seq<Seq<char>> {
    seq![
        "var"@,
        "spy"@,
        "ref"@,
        "rec"@,
        "let"@,
        "lam"@,
        "fun"@,
        "for"@,
        "end"@,
        "ask"@,
        "and"@,
    ]
}

/// Keywords of two characters.
pub open spec fn two_keywords() -> Seq<Seq<char>> {
    seq!["or"@, "of"@, "is"@, "if"@, "do"@, "by"@, "as"@]
}

/// Every keyword, the longest first.
pub open spec fn keywords() -> Seq<Seq<char>> {
    long_keywords() + eight_keywords() + seven_keywords() + six_keywords() + five_keywords()
        + four_keywords() + three_keywords() + two_keywords()
}

/// The keywords of nine characters and more have two characters at least.
proof fn lemma_long_keywords()
    ensures
        forall|i: int| 0 <= i < long_keywords().len() ==> (#[trigger] long_keywords()[i]).len() >= 2,
{
    reveal_strlit("raises-other-than");
    reveal_strlit("raises-satisfies");
    reveal_strlit("raises-violates");
    reveal_strlit("does-not-raise");
    reveal_strlit("provide-types");
    reveal_strlit("otherwise:");
    reveal_strlit("load-table");
    reveal_strlit("is-roughly");
    reveal_strlit("descending");
    reveal_strlit("transform");
    reveal_strlit("satisfies");
    reveal_strlit("is-not<=>");
    reveal_strlit("examples:");
    reveal_strlit("ascending");
}

/// The keywords of eight characters have two characters at least.
proof fn lemma_eight_keywords()
    ensures
        forall|i: int| 0 <= i < eight_keywords().len() ==> (#[trigger] eight_keywords()[i]).len() >= 2,
{
    reveal_strlit("violates");
    reveal_strlit("type-let");
    reveal_strlit("sharing:");
    reveal_strlit("sanitize");
    reveal_strlit("provide:");
    reveal_strlit("is-not=~");
    reveal_strlit("is-not==");
    reveal_strlit("examples");
}

/// The keywords of seven characters have two characters at least.
proof fn lemma_seven_keywords()
    ensures
        forall|i: int| 0 <= i < seven_keywords().len() ==> (#[trigger] seven_keywords()[i]).len() >= 2,
{
    reveal_strlit("source:");
    reveal_strlit("reactor");
    reveal_strlit("provide");
    reveal_strlit("newtype");
    reveal_strlit("include");
    reveal_strlit("extract");
    reveal_strlit("else if");
    reveal_strlit("because");
}

/// The keywords of six characters have two characters at least.
proof fn lemma_six_keywords()
    ensures
        forall|i: int| 0 <= i < six_keywords().len() ==> (#[trigger] six_keywords()[i]).len() >= 2,
{
    reveal_strlit("where:");
    reveal_strlit("table:");
    reveal_strlit("shadow");
    reveal_strlit("select");
    reveal_strlit("raises");
    reveal_strlit("module");
    reveal_strlit("method");
    reveal_strlit("letrec");
    reveal_strlit("is-not");
    reveal_strlit("import");
    reveal_strlit("hiding");
    reveal_strlit("extend");
    reveal_strlit("check:");
    reveal_strlit("block:");
}

/// The keywords of five characters have two characters at least.
proof fn lemma_five_keywords()
    ensures
        forall|i: int| 0 <= i < five_keywords().len() ==> (#[trigger] five_keywords()[i]).len() >= 2,
{
    reveal_strlit("with:");
    reveal_strlit("using");
    reveal_strlit("then:");
    reveal_strlit("sieve");
    reveal_strlit("order");
    reveal_strlit("is<=>");
    reveal_strlit("false");
    reveal_strlit("else:");
    reveal_strlit("check");
    reveal_strlit("cases");
}

/// The keywords of four characters have two characters at least.
proof fn lemma_four_keywords()
    ensures
        forall|i: int| 0 <= i < four_keywords().len() ==> (#[trigger] four_keywords()[i]).len() >= 2,
{
    reveal_strlit("when");
    reveal_strlit("type");
    reveal_strlit("true");
    reveal_strlit("row:");
    reveal_strlit("lazy");
    reveal_strlit("is=~");
    reveal_strlit("is==");
    reveal_strlit("from");
    reveal_strlit("else");
    reveal_strlit("doc:");
    reveal_strlit("data");
}

/// The keywords of three characters have two characters at least.
proof fn lemma_three_keywords()
    ensures
        forall|i: int| 0 <= i < three_keywords().len() ==> (#[trigger] three_keywords()[i]).len() >= 2,
{
    reveal_strlit("var");
    reveal_strlit("spy");
    reveal_strlit("ref");
    reveal_strlit("rec");
    reveal_strlit("let");
    reveal_strlit("lam");
    reveal_strlit("fun");
    reveal_strlit("for");
    reveal_strlit("end");
    reveal_strlit("ask");
    reveal_strlit("and");
}

/// The keywords of two characters have two characters.
proof fn lemma_two_keywords()
    ensures
        forall|i: int| 0 <= i < two_keywords().len() ==> (#[trigger] two_keywords()[i]).len() >= 2,
{
    reveal_strlit("or");
    reveal_strlit("of");
    reveal_strlit("is");
    reveal_strlit("if");
    reveal_strlit("do");
    reveal_strlit("by");
    reveal_strlit("as");
}

/// Every keyword has two characters at least.
pub proof fn lemma_keywords_long()
    ensures
        forall|i: int| 0 <= i < keywords().len() ==> (#[trigger] keywords()[i]).len() >= 2,
{
    lemma_long_keywords();
    lemma_eight_keywords();
    lemma_seven_keywords();
    lemma_six_keywords();
    lemma_five_keywords();
    lemma_four_keywords();
    lemma_three_keywords();
    lemma_two_keywords();
    let a = long_keywords();
    let b = a + eight_keywords();
    let c = b + seven_keywords();
    let d = c + six_keywords();
    let e = d + five_keywords();
    let f = e + four_keywords();
    let g = f + three_keywords();
    let all = g + two_keywords();
    assert(all == keywords());
    assert forall|i: int| 0 <= i < b.len() implies (#[trigger] b[i]).len() >= 2 by {
        if i >= a.len() {
            assert(b[i] == eight_keywords()[i - a.len()]);
        }
    }
    assert forall|i: int| 0 <= i < c.len() implies (#[trigger] c[i]).len() >= 2 by {
        if i >= b.len() {
            assert(c[i] == seven_keywords()[i - b.len()]);
        } else {
            assert(c[i] == b[i]);
        }
    }
    assert forall|i: int| 0 <= i < d.len() implies (#[trigger] d[i]).len() >= 2 by {
        if i >= c.len() {
            assert(d[i] == six_keywords()[i - c.len()]);
        } else {
            assert(d[i] == c[i]);
        }
    }
    assert forall|i: int| 0 <= i < e.len() implies (#[trigger] e[i]).len() >= 2 by {
        if i >= d.len() {
            assert(e[i] == five_keywords()[i - d.len()]);
        } else {
            assert(e[i] == d[i]);
        }
    }
    assert forall|i: int| 0 <= i < f.len() implies (#[trigger] f[i]).len() >= 2 by {
        if i >= e.len() {
            assert(f[i] == four_keywords()[i - e.len()]);
        } else {
            assert(f[i] == e[i]);
        }
    }
    assert forall|i: int| 0 <= i < g.len() implies (#[trigger] g[i]).len() >= 2 by {
        if i >= f.len() {
            assert(g[i] == three_keywords()[i - f.len()]);
        } else {
            assert(g[i] == f[i]);
        }
    }
    assert forall|i: int| 0 <= i < all.len() implies (#[trigger] all[i]).len() >= 2 by {
        if i >= g.len() {
            assert(all[i] == two_keywords()[i - g.len()]);
        } else {
            assert(all[i] == g[i]);
        }
    }
}

/// The views of the words of a table.
pub open spec fn words_of(table: Seq<Vec<char>>) -> Seq<Seq<char>> {
    Seq::new(table.len(), |k: int| table[k]@)
}

/// Adds `word` to the table.
fn push_word(table: &mut Vec<Vec<char>>, word: &str)
    ensures
        words_of(final(table)@) == words_of(old(table)@).push(word@),
{
    table.push(chars_of(word));
    assert(words_of(table@) =~= words_of(old(table)@).push(word@));
}

/// Adds the keywords of nine characters and more.
fn push_long(table: &mut Vec<Vec<char>>)
    ensures
        words_of(final(table)@) == words_of(old(table)@) + long_keywords(),
{
    push_word(table, "raises-other-than");
    push_word(table, "raises-satisfies");
    push_word(table, "raises-violates");
    push_word(table, "does-not-raise");
    push_word(table, "provide-types");
    push_word(table, "otherwise:");
    push_word(table, "load-table");
    push_word(table, "is-roughly");
    push_word(table, "descending");
    push_word(table, "transform");
    push_word(table, "satisfies");
    push_word(table, "is-not<=>");
    push_word(table, "examples:");
    push_word(table, "ascending");
    assert(words_of(table@) =~= words_of(old(table)@) + long_keywords());
}

/// Adds the keywords of eight characters.
fn push_eight(table: &mut Vec<Vec<char>>)
    ensures
        words_of(final(table)@) == words_of(old(table)@) + eight_keywords(),
{
    push_word(table, "violates");
    push_word(table, "type-let");
    push_word(table, "sharing:");
    push_word(table, "sanitize");
    push_word(table, "provide:");
    push_word(table, "is-not=~");
    push_word(table, "is-not==");
    push_word(table, "examples");
    assert(words_of(table@) =~= words_of(old(table)@) + eight_keywords());
}

/// Adds the keywords of seven characters.
fn push_seven(table: &mut Vec<Vec<char>>)
    ensures
        words_of(final(table)@) == words_of(old(table)@) + seven_keywords(),
{
    push_word(table, "source:");
    push_word(table, "reactor");
    push_word(table, "provide");
    push_word(table, "newtype");
    push_word(table, "include");
    push_word(table, "extract");
    push_word(table, "else if");
    push_word(table, "because");
    assert(words_of(table@) =~= words_of(old(table)@) + seven_keywords());
}

/// Adds the keywords of six characters.
fn push_six(table: &mut Vec<Vec<char>>)
    ensures
        words_of(final(table)@) == words_of(old(table)@) + six_keywords(),
{
    push_word(table, "where:");
    push_word(table, "table:");
    push_word(table, "shadow");
    push_word(table, "select");
    push_word(table, "raises");
    push_word(table, "module");
    push_word(table, "method");
    push_word(table, "letrec");
    push_word(table, "is-not");
    push_word(table, "import");
    push_word(table, "hiding");
    push_word(table, "extend");
    push_word(table, "check:");
    push_word(table, "block:");
    assert(words_of(table@) =~= words_of(old(table)@) + six_keywords());
}

/// Adds the keywords of five characters.
fn push_five(table: &mut Vec<Vec<char>>)
    ensures
        words_of(final(table)@) == words_of(old(table)@) + five_keywords(),
{
    push_word(table, "with:");
    push_word(table, "using");
    push_word(table, "then:");
    push_word(table, "sieve");
    push_word(table, "order");
    push_word(table, "is<=>");
    push_word(table, "false");
    push_word(table, "else:");
    push_word(table, "check");
    push_word(table, "cases");
    assert(words_of(table@) =~= words_of(old(table)@) + five_keywords());
}

/// Adds the keywords of four characters.
fn push_four(table: &mut Vec<Vec<char>>)
    ensures
        words_of(final(table)@) == words_of(old(table)@) + four_keywords(),
{
    push_word(table, "when");
    push_word(table, "type");
    push_word(table, "true");
    push_word(table, "row:");
    push_word(table, "lazy");
    push_word(table, "is=~");
    push_word(table, "is==");
    push_word(table, "from");
    push_word(table, "else");
    push_word(table, "doc:");
    push_word(table, "data");
    assert(words_of(table@) =~= words_of(old(table)@) + four_keywords());
}

/// Adds the keywords of three characters.
fn push_three(table: &mut Vec<Vec<char>>)
    ensures
        words_of(final(table)@) == words_of(old(table)@) + three_keywords(),
{
    push_word(table, "var");
    push_word(table, "spy");
    push_word(table, "ref");
    push_word(table, "rec");
    push_word(table, "let");
    push_word(table, "lam");
    push_word(table, "fun");
    push_word(table, "for");
    push_word(table, "end");
    push_word(table, "ask");
    push_word(table, "and");
    assert(words_of(table@) =~= words_of(old(table)@) + three_keywords());
}

/// Adds the keywords of two characters.
fn push_two(table: &mut Vec<Vec<char>>)
    ensures
        words_of(final(table)@) == words_of(old(table)@) + two_keywords(),
{
    push_word(table, "or");
    push_word(table, "of");
    push_word(table, "is");
    push_word(table, "if");
    push_word(table, "do");
    push_word(table, "by");
    push_word(table, "as");
    assert(words_of(table@) =~= words_of(old(table)@) + two_keywords());
}

/// The keywords as characters, in the order of `keywords`.
pub fn keyword_table() -> (table: Vec<Vec<char>>)
    ensures
        words_of(table@) == keywords(),
{
    let mut table: Vec<Vec<char>> = Vec::new();
    assert(words_of(table@) =~= Seq::<Seq<char>>::empty());
    push_long(&mut table);
    push_eight(&mut table);
    push_seven(&mut table);
    push_six(&mut table);
    push_five(&mut table);
    push_four(&mut table);
    push_three(&mut table);
    push_two(&mut table);
    assert(words_of(table@) =~= keywords());
    table
}

} // verus!
