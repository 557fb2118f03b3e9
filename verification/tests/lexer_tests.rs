use pyret_moss::keywords::keyword_table;
use pyret_moss::lexer::{
    match_comment, match_docstring, match_identifier, match_keyword, match_string_literal,
    match_type, next_token, TokenKind,
};
use pyret_moss::scan::{skip_run, CharClass};
use regex::Regex;

const TEXTS: [&str; 8] = [
    "provide *\n\n#| sums the squares\n   of a list |#\nfun sum-squares(l :: List<Number>) -> Number:\n  doc: \"the sum of the squares\"\n  cases (List) l:\n    | empty => 0\n    | link(f, r) => (f * f) + sum-squares(r)\n  end\nend\n\ncheck:\n  sum-squares([list: 1, 2, 3]) is 14 # fourteen\n  msg = ```two\nlines``` + 'one' + \"\"\nend\n",
    "fun newlines-everywhere<X,Y,\n\nA, Z>(param\n::\nList<X>)\n\n ->\n Y\n:",
    "fun do-it<Type,XYZ,_>(x :: Number) -> String: x end\nfun f<A, B, C>(x, y) <>  <A,> <a b> <,a> <1a> <a-1,  b_2>",
    "x :: Number = 10\ny :: Boolean = true\nz ::Number ->String -> _ok-1<T>",
    "n = true #| commented code:\nx = 15\ny =\"string value\"\n|#\nm = false #||# # |#\n",
    "doc: 'one' doc:\"two\" doc:   ```three\nlines``` doc: four doc : 'five'\n",
    "raises-other-than is-not<=> is-not is-nothing else if elseif is== is=~ if- a--b- _x-9 examples: otherwise:x spy9 x.y do-not true-false\n",
    "import tables as T\nif (5 * 2) < 10:\ntrue\nelse:\nfalse\nend\n\t\r\n  lam(n): 5 * n end\n",
];

const KEYWORDS: &str = "^(raises-other-than|raises-satisfies|raises-violates|does-not-raise\
    |provide-types|otherwise:|load-table|is-roughly|descending|transform\
    |satisfies|is-not<=>|examples:|ascending|violates|type-let|sharing:\
    |sanitize|provide:|is-not=~|is-not==|examples|source:|reactor|provide\
    |newtype|include|extract|else if|because|where:|table:|shadow|select\
    |raises|module|method|letrec|is-not|import|hiding|extend|check:|block:\
    |with:|using|then:|sieve|order|is<=>|false|else:|check|cases|when|type\
    |true|row:|lazy|is=~|is==|from|else|doc:|data|var|spy|ref|rec|let|lam\
    |fun|for|end|ask|and|or|of|is|if|do|by|as)";

// where the pattern matches at the start of `rest`, the end of the match
fn end_of(pattern: &Regex, rest: &str) -> Option<usize> {
    pattern.find(rest).map(|m| m.end())
}

// every text with every place in it
fn places() -> Vec<(&'static str, Vec<char>, usize)> {
    let mut all = Vec::new();
    for text in TEXTS {
        assert!(text.is_ascii());
        let chars: Vec<char> = text.chars().collect();
        for i in 0..chars.len() {
            all.push((text, chars.clone(), i));
        }
    }
    all
}

#[test]
fn whitespace_is_what_the_pattern_takes() {
    let pattern = Regex::new(r"^\s+").unwrap();
    for (text, chars, i) in places() {
        let end = skip_run(&chars, i, CharClass::Space);
        assert_eq!(end, i + end_of(&pattern, &text[i..]).unwrap_or(0), "at {} of {:?}", i, text);
    }
}

#[test]
fn comments_are_what_the_pattern_takes() {
    let pattern = Regex::new(r#"^((#\|(.|\n)*?\|#)|(#.*))"#).unwrap();
    let mut seen = 0;
    for (text, chars, i) in places() {
        if chars[i] == '#' {
            seen += 1;
            let end = match_comment(&chars, i);
            assert_eq!(Some(end - i), end_of(&pattern, &text[i..]), "at {} of {:?}", i, text);
        }
    }
    assert!(seen >= 6);
}

// the pattern takes what the rule takes; where the pattern takes nothing, the rule takes
// nothing either, or what is not closed up to the end of the text
fn agree(rule: Option<usize>, pattern: Option<usize>, i: usize, text: &str) {
    match pattern {
        Some(len) => assert_eq!(rule, Some(i + len), "at {} of {:?}", i, text),
        None => assert!(rule.is_none() || rule == Some(text.len()), "at {} of {:?}", i, text),
    }
}

#[test]
fn string_literals_are_what_the_pattern_takes() {
    let pattern = Regex::new(r#"^((".*?")|('.*?')|(```(.|\n)*?```))"#).unwrap();
    let mut seen = 0;
    for (text, chars, i) in places() {
        let found = end_of(&pattern, &text[i..]);
        seen += found.is_some() as usize;
        agree(match_string_literal(&chars, i), found, i, text);
    }
    assert!(seen >= 8);
}

#[test]
fn docstrings_are_what_the_pattern_takes() {
    let pattern = Regex::new(r#"^doc:\s*((".*?")|('.*?')|(```(.|\n)*?```))"#).unwrap();
    let mut seen = 0;
    for (text, chars, i) in places() {
        let found = end_of(&pattern, &text[i..]);
        seen += found.is_some() as usize;
        agree(match_docstring(&chars, i), found, i, text);
    }
    assert!(seen >= 4);
}

#[test]
fn type_annotations_are_what_the_patterns_take() {
    let params = Regex::new(r"^<([_a-zA-Z][-_a-zA-Z0-9]*(,\s*)?)*>").unwrap();
    let annotated = Regex::new(r"^::\s+[_a-zA-Z][-_a-zA-Z0-9<>]*").unwrap();
    let returned = Regex::new(r"^->\s*[_a-zA-Z][-_a-zA-Z0-9<>]*").unwrap();
    let mut seen = 0;
    for (text, chars, i) in places() {
        let rest = &text[i..];
        let found = end_of(&annotated, rest).or(end_of(&returned, rest)).or(end_of(&params, rest));
        seen += found.is_some() as usize;
        assert_eq!(match_type(&chars, i), found.map(|len| i + len), "at {} of {:?}", i, text);
    }
    assert!(seen >= 15);
}

#[test]
fn types_in_parentheses_are_taken_whole() {
    let chars: Vec<char> = "f :: ((A -> B) -> (List<C> -> D)) = 1".chars().collect();
    assert_eq!(match_type(&chars, 2), Some(33));
    // the arrow inside is an annotation of its own
    assert_eq!(match_type(&chars, 9), Some(13));
    let open: Vec<char> = "-> (A, (B)".chars().collect();
    assert_eq!(match_type(&open, 0), None);
    assert_eq!(match_type(&open, 4), None);
}

#[test]
fn keywords_and_identifiers_are_what_the_patterns_take() {
    let keyword = Regex::new(KEYWORDS).unwrap();
    let identifier = Regex::new(r"^([_a-zA-Z][_a-zA-Z0-9]*(?:-+[_a-zA-Z0-9]+)*)").unwrap();
    let table = keyword_table();
    assert_eq!(table.len(), 83);
    for (text, chars, i) in places() {
        let rest = &text[i..];
        assert_eq!(match_keyword(&chars, i, &table), end_of(&keyword, rest).unwrap_or(0), "at {} of {:?}", i, text);
        assert_eq!(match_identifier(&chars, i), end_of(&identifier, rest).unwrap_or(0), "at {} of {:?}", i, text);
    }
}

#[test]
fn the_first_rule_that_matches_decides() {
    let table = keyword_table();
    let kinds = |text: &str| -> Vec<(TokenKind, usize)> {
        let chars: Vec<char> = text.chars().collect();
        let mut i = 0;
        let mut tokens = Vec::new();
        while i < chars.len() {
            let token = next_token(&chars, i, &table);
            assert!(i < token.end && token.end <= chars.len());
            tokens.push((token.kind, token.end));
            i = token.end;
        }
        tokens
    };
    let names = |text: &str| -> String {
        kinds(text)
            .iter()
            .map(|(kind, _)| match kind {
                TokenKind::Elided => 'e',
                TokenKind::Kept => 'k',
                TokenKind::Identifier => 'i',
            })
            .collect()
    };
    // a docstring before the keyword that starts it, a comment before everything
    assert_eq!(names("doc: 'text'"), "e");
    assert_eq!(names("doc: text"), "kei");
    assert_eq!(names("# doc: 'text'"), "e");
    // an annotation before the string in it
    assert_eq!(names("x :: T"), "iee");
    assert_eq!(names("\"x :: T\""), "k");
    assert_eq!(names("<A>x"), "ei");
    assert_eq!(names("a<b"), "iki");
}
