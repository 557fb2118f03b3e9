use pyret_moss::fingerprint::Fingerprint;
use pyret_moss::phase_i::invert;
use pyret_moss::phase_ii::find_overlaps;
use pyret_moss::phase_iii::{analyze_pair, assemble, flatten_docs, substr_table, Entry, Match, SubString};
use pyret_moss::ratio::Ratio;
use pyret_moss::{Doc, Sub};

fn fp(hash: i64, lines: (i32, i32)) -> Fingerprint {
    Fingerprint { hash, lines }
}

fn entry(doc_idx: usize, lines: (i32, i32)) -> Entry {
    Entry { doc_idx, lines }
}

fn sub_of(docs: Vec<Vec<Fingerprint>>) -> Sub {
    Sub {
        dir_name: Some(String::from("sub")),
        documents: docs
            .into_iter()
            .enumerate()
            .map(|(i, fps)| Doc::Processed(format!("sub/doc{}.arr", i), fps))
            .collect(),
    }
}

fn matches_of(a: Sub, b: Sub) -> Vec<Match> {
    let subs = vec![a, b];
    let (pairs, _) = find_overlaps(&invert(&subs), &subs, Ratio { part: 0, whole: 1 }).unwrap();
    assert_eq!(pairs.len(), 1);
    analyze_pair(&pairs[0], &subs)
}

#[test]
fn substrings_of_two_single_files() {
    let a = sub_of(vec![vec![
        fp(28, (4, 5)),
        fp(12, (5, 5)),
        fp(28, (11, 15)),
        fp(28, (16, 19)),
        fp(28, (18, 22)),
        fp(17, (30, 31)),
    ]]);
    let b = sub_of(vec![vec![
        fp(31, (9, 15)),
        fp(28, (17, 17)),
        fp(28, (17, 29)),
        fp(17, (30, 31)),
        fp(12, (38, 42)),
    ]]);
    assert_eq!(
        matches_of(a, b),
        vec![
            Match {
                size: 3,
                hashes: vec![28, 28, 17],
                a_entries: vec![entry(0, (16, 31))],
                b_entries: vec![entry(0, (17, 31))],
            },
            Match {
                size: 2,
                hashes: vec![28, 28],
                a_entries: vec![entry(0, (11, 19))],
                b_entries: vec![entry(0, (17, 29))],
            },
            // of the two places of the single 28 the one further right is taken
            Match {
                size: 1,
                hashes: vec![12],
                a_entries: vec![entry(0, (5, 5))],
                b_entries: vec![entry(0, (38, 42))],
            },
            Match {
                size: 1,
                hashes: vec![28],
                a_entries: vec![entry(0, (4, 5))],
                b_entries: vec![entry(0, (17, 29))],
            },
        ]
    );
}

#[test]
fn substrings_do_not_cross_documents() {
    // 1 2 ends a document of the one submission, 3 starts the next; the other holds 1 2 3
    let a = sub_of(vec![vec![fp(1, (1, 1)), fp(2, (2, 2))], vec![fp(3, (1, 4))]]);
    let b = sub_of(vec![vec![fp(1, (10, 10)), fp(2, (11, 11)), fp(3, (12, 12))]]);
    assert_eq!(
        matches_of(a, b),
        vec![
            Match {
                size: 2,
                hashes: vec![1, 2],
                a_entries: vec![entry(0, (1, 2))],
                b_entries: vec![entry(0, (10, 11))],
            },
            Match {
                size: 1,
                hashes: vec![3],
                a_entries: vec![entry(1, (1, 4))],
                b_entries: vec![entry(0, (12, 12))],
            },
        ]
    );
}

#[test]
fn a_match_lists_every_section_once() {
    // the same two hashes stand twice in the one submission and in two documents of the other
    let a = sub_of(vec![vec![fp(7, (1, 1)), fp(8, (2, 2)), fp(9, (3, 3)), fp(7, (5, 5)), fp(8, (6, 6))]]);
    let b = sub_of(vec![vec![fp(7, (1, 2)), fp(8, (2, 3))], vec![fp(7, (4, 4)), fp(8, (4, 4))]]);
    let matches = matches_of(a, b);
    assert_eq!(
        matches,
        vec![Match {
            size: 2,
            hashes: vec![7, 8],
            a_entries: vec![entry(0, (1, 2)), entry(0, (5, 6))],
            b_entries: vec![entry(1, (4, 4)), entry(0, (1, 3))],
        }]
    );
}

#[test]
fn every_shared_hash_stands_in_a_match() {
    let a = sub_of(vec![
        vec![fp(5, (1, 1)), fp(6, (2, 2)), fp(7, (3, 3)), fp(5, (4, 4)), fp(9, (5, 5))],
        vec![fp(6, (1, 1)), fp(7, (2, 2)), fp(8, (3, 3)), fp(40, (4, 4))],
    ]);
    let b = sub_of(vec![
        vec![fp(7, (1, 1)), fp(8, (2, 2)), fp(5, (3, 3)), fp(6, (4, 4)), fp(7, (5, 5))],
        vec![fp(9, (1, 1)), fp(5, (2, 2)), fp(41, (3, 3))],
    ]);
    let subs = vec![a, b];
    let (pairs, _) = find_overlaps(&invert(&subs), &subs, Ratio { part: 0, whole: 1 }).unwrap();
    assert_eq!(pairs[0].matches, vec![5, 6, 7, 8, 9]);
    let matches = analyze_pair(&pairs[0], &subs);
    for hash in pairs[0].matches.iter() {
        assert!(matches.iter().any(|m| m.hashes.contains(hash)), "{} stands in no match", hash);
    }
    // the longest first, and no hashes twice
    for pair in matches.windows(2) {
        assert!(pair[0].size >= pair[1].size);
        assert_ne!(pair[0].hashes, pair[1].hashes);
    }
    for m in matches.iter() {
        assert_eq!(m.size, m.hashes.len());
    }
}

#[test]
fn matches_stand_in_their_order() {
    let sub = |hashes: Vec<i64>, a: (i32, i32), b: (i32, i32)| SubString {
        size: hashes.len(),
        hashes,
        a_entry: entry(0, a),
        b_entry: entry(0, b),
    };
    let chosen = vec![
        sub(vec![4], (1, 1), (1, 1)),
        sub(vec![2, 3], (2, 3), (5, 6)),
        sub(vec![4], (9, 9), (1, 1)),
        sub(vec![1], (4, 4), (4, 4)),
        sub(vec![1, 9], (7, 8), (7, 8)),
    ];
    assert_eq!(
        assemble(&chosen),
        vec![
            Match {
                size: 2,
                hashes: vec![1, 9],
                a_entries: vec![entry(0, (7, 8))],
                b_entries: vec![entry(0, (7, 8))],
            },
            Match {
                size: 2,
                hashes: vec![2, 3],
                a_entries: vec![entry(0, (2, 3))],
                b_entries: vec![entry(0, (5, 6))],
            },
            // more sections come before fewer
            Match {
                size: 1,
                hashes: vec![4],
                a_entries: vec![entry(0, (1, 1)), entry(0, (9, 9))],
                b_entries: vec![entry(0, (1, 1))],
            },
            Match {
                size: 1,
                hashes: vec![1],
                a_entries: vec![entry(0, (4, 4))],
                b_entries: vec![entry(0, (4, 4))],
            },
        ]
    );
}

#[test]
fn the_table_of_a_submission_without_documents_is_empty() {
    let none = Sub { dir_name: None, documents: vec![] };
    let one = sub_of(vec![vec![fp(1, (1, 1))]]);
    let rows = flatten_docs(&none);
    let cols = flatten_docs(&one);
    assert!(rows.is_empty());
    assert_eq!(substr_table(&rows, &cols), Vec::<Vec<usize>>::new());
    assert_eq!(substr_table(&cols, &rows), vec![Vec::<usize>::new(), Vec::new()]);
}
