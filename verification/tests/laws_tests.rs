use pyret_moss::fingerprint::{
    fingerprint, hash, robust_winnow, rolling_hash, Fingerprint, PRIME_MODULUS,
};
use pyret_moss::normalize::normalize;

const PROGRAM: &str = "provide *\n\n#| sums the squares\n   of a list |#\nfun sum-squares(l :: List<Number>) -> Number:\n  doc: \"the sum of the squares\"\n  cases (List) l:\n    | empty => 0\n    | link(f, r) => (f * f) + sum-squares(r)\n  end\nend\n\ncheck:\n  sum-squares([list: 1, 2, 3]) is 14 # fourteen\n  msg = ```two\nlines```\nend\n";

#[test]
fn line_ends_do_not_decrease_and_end_with_the_length() {
    for text in [PROGRAM, "", "\n\n\n", "x", "a = ```one\ntwo\nthree", "# only a comment", "#| open\n\n"] {
        let norm = normalize(text);
        let ends = &norm.line_ends;
        assert!(ends.windows(2).all(|pair| pair[0] <= pair[1]), "{:?}", ends);
        assert_eq!(*ends.last().unwrap() as usize, norm.value.chars().count());
        // one line end for every newline, and one for what is left
        assert_eq!(ends.len(), text.matches('\n').count() + 1);
    }
}

#[test]
fn the_program_is_normalised_as_its_rules_say() {
    let norm = normalize(PROGRAM);
    assert_eq!(
        norm.value,
        "provide*funv(v):cases(v)v:|v=>0|v(v,v)=>(v*v)+v(v)endendcheck:v([v:1,2,3])is14v=```two\nlines```end"
    );
    assert_eq!(norm.line_ends, vec![8, 8, 8, 8, 16, 16, 26, 31, 50, 53, 56, 56, 62, 78, 87, 95, 98, 98]);
}

#[test]
fn fingerprints_have_a_hash_below_the_modulus_and_lines_in_order() {
    for (k, t) in [(1, 1), (2, 5), (5, 5), (5, 12), (15, 20), (40, 200)] {
        let fps = fingerprint(normalize(PROGRAM), k, t);
        assert!(!fps.is_empty());
        for fp in fps.iter() {
            assert!(0 <= fp.hash && fp.hash < PRIME_MODULUS);
            assert!(1 <= fp.lines.0 && fp.lines.0 <= fp.lines.1 && fp.lines.1 <= 17);
        }
    }
}

#[test]
fn a_hash_can_be_nothing() {
    // a k-gram whose characters are all the character 0 has the hash 0
    assert_eq!(hash("\u{0}\u{0}\u{0}"), 0);
    let fps = fingerprint(normalize("\"\u{0}\u{0}\u{0}\u{0}\""), 2, 2);
    assert!(fps.contains(&Fingerprint { hash: 0, lines: (1, 1) }));
}

#[test]
fn the_rolling_hash_is_the_hash_of_every_window() {
    let text: Vec<char> = normalize(PROGRAM).value.chars().collect();
    for k in [1, 2, 3, 7, 16] {
        let kgrams: Vec<String> = text.windows(k).map(|w| w.iter().collect()).collect();
        let rolled = rolling_hash(kgrams.iter().map(|s| s.as_str()).collect());
        let naive: Vec<i64> = kgrams.iter().map(|s| hash(s)).collect();
        assert_eq!(rolled, naive);
    }
}

#[test]
fn every_window_of_hashes_holds_a_selection() {
    let text: Vec<char> = normalize(PROGRAM).value.chars().collect();
    let hashes: Vec<i64> = text.windows(5).map(|w| hash(&w.iter().collect::<String>())).collect();
    for w in [1, 2, 3, 4, 8, 13, 50, hashes.len()] {
        let picked: Vec<usize> = robust_winnow(hashes.clone(), w).iter().map(|s| s.1).collect();
        // from left to right
        assert!(picked.windows(2).all(|pair| pair[0] < pair[1]));
        for start in 0..=(hashes.len() - w) {
            assert!(picked.iter().any(|p| start <= *p && *p < start + w), "w {} at {}", w, start);
        }
    }
}

#[test]
fn every_stretch_of_the_guarantee_holds_a_fingerprint() {
    // a text of one line per character, so that the line of a fingerprint says where it is
    let text: String = "abcabdabcaebcabcdbcaebcdabc".chars().flat_map(|c| [c, '\n']).collect();
    let (k, t) = (3, 7);
    let starts: Vec<i32> = fingerprint(normalize(&text), k, t).iter().map(|fp| fp.lines.0 - 1).collect();
    let len = 27;
    for start in 0..=(len - t) {
        assert!(starts.iter().any(|p| start <= *p && *p + k <= start + t), "at {}", start);
    }
}

#[test]
fn extraction_gives_the_same_twice() {
    let first = fingerprint(normalize(PROGRAM), 5, 9);
    let second = fingerprint(normalize(PROGRAM), 5, 9);
    assert_eq!(first, second);
}

#[test]
fn what_is_normalised_stays_as_it_is() {
    // keywords, placeholders and strings, kept apart by what is neither
    for text in [
        "v",
        "fun",
        "v=\"This is a string value\"",
        "v='single-quoted string; fun f(): end'",
        "v=```here's a\ntriple-quote```",
        "if(5*2)>10:v(v)else:v(v)end",
    ] {
        let once = normalize(text);
        let twice = normalize(&once.value);
        assert_eq!(twice.value, once.value);
    }
    let once = normalize("name-1 = 7\nsecond_name = name-1 * name-1");
    assert_eq!(once.value, "v=7v=v*v");
    assert_eq!(normalize(&once.value).value, "v=7v=v*v");
}

#[test]
fn words_that_stood_apart_run_together() {
    // what is normalised a second time is read without the spaces that kept words apart
    let once = normalize("check: f(x) is 14 end");
    assert_eq!(once.value, "check:v(v)is14end");
    assert_eq!(normalize(&once.value).value, "check:v(v)v");
}

#[test]
fn what_is_not_closed_runs_to_the_end() {
    assert_eq!(normalize("x = 1 #| never closed\ny = 2").value, "v=1");
    assert_eq!(normalize("x = ```never closed\ny = 2").value, "v=```never closed\ny = 2");
    assert_eq!(normalize("x = \"never closed").value, "v=\"never closed");
    // a quote that the line ends before it is closed is a character like any other
    assert_eq!(normalize("x = \"not a string\ny = 2").value, "v=\"vvvv=2");
    // a block comment holds block comments
    assert_eq!(normalize("a #| one #| two |# still |# b").value, "vv");
}

#[test]
fn a_keyword_wins_against_an_identifier_of_its_length() {
    assert_eq!(normalize("is-not").value, "is-not");
    assert_eq!(normalize("is-nothing").value, "v");
    assert_eq!(normalize("check").value, "check");
    assert_eq!(normalize("check:").value, "check:");
    assert_eq!(normalize("checked").value, "v");
    assert_eq!(normalize("else if").value, "else if");
    assert_eq!(normalize("else  if").value, "elseif");
    assert_eq!(normalize("is==").value, "is==");
    assert_eq!(normalize("a--b- c").value, "v-v");
}

#[test]
fn characters_that_nothing_matches_are_kept() {
    assert_eq!(normalize("é + ü").value, "é+ü");
    assert_eq!(normalize("{a: 1}").value, "{v:1}");
    assert_eq!(normalize("x :: 5").value, "v::5");
    assert_eq!(normalize("f :: (A -> B").value, "v::(v");
    assert_eq!(normalize("a\u{a0}b").value, "v\u{a0}v");
}

#[test]
fn fewer_hashes_than_a_window_are_one_window() {
    assert_eq!(robust_winnow(vec![13, 4, 72, 3], 9), vec![(3, 3)]);
    assert_eq!(robust_winnow(vec![5, 2, 9, 2, 7], 6), vec![(2, 3)]);
    assert_eq!(robust_winnow(vec![8], 1), vec![(8, 0)]);
    assert_eq!(robust_winnow(vec![8], 4), vec![(8, 0)]);
    // the text has one character more than the noise threshold: two k-grams, one window
    let fps = fingerprint(normalize("123456"), 5, 40);
    assert_eq!(fps.len(), 1);
}
