use fnv::FnvHashMap;
use pyret_moss::error::Error;
use pyret_moss::fingerprint::Fingerprint;
use pyret_moss::phase_i::{
    analyze_file, analyze_subs, invert, keep_fingerprints, make_ignore_set,
};
use pyret_moss::{Doc, Sub};
use std::collections::HashSet;

fn hash_set(hashes: &[i64]) -> HashSet<i64> {
    hashes.iter().cloned().collect()
}

fn index_of(entries: &[(i64, &[usize])]) -> FnvHashMap<i64, Vec<usize>> {
    let mut index = FnvHashMap::default();
    for (hash, subs) in entries {
        index.insert(*hash, subs.to_vec());
    }
    index
}

fn unprocessed(dir_name: Option<&str>, paths: &[&str]) -> Sub {
    Sub {
        dir_name: dir_name.map(String::from),
        documents: paths.iter().map(|p| Doc::Unprocessed(String::from(*p))).collect(),
    }
}

#[test]
fn analyze_file_gives_the_fingerprints_of_the_text() {
    assert_eq!(
        analyze_file("1+2*3+4\n5*6+7*8\n9+10*11\n12*13+14", 4, 6),
        vec![
            Fingerprint { hash: 724707891, lines: (1, 1) },
            Fingerprint { hash: 707996468, lines: (1, 1) },
            Fingerprint { hash: 724841770, lines: (1, 2) },
            Fingerprint { hash: 708193079, lines: (2, 2) },
            Fingerprint { hash: 725035576, lines: (2, 2) },
            Fingerprint { hash: 708327723, lines: (2, 3) },
            Fingerprint { hash: 724643882, lines: (3, 3) },
            Fingerprint { hash: 707866929, lines: (3, 4) },
            Fingerprint { hash: 825307442, lines: (3, 4) },
            Fingerprint { hash: 825307690, lines: (3, 4) },
            Fingerprint { hash: 707867435, lines: (4, 4) },
        ]
    );
    assert_eq!(
        analyze_file("7*8+9\n9+10*11\n1+1+1+1", 4, 6),
        vec![
            Fingerprint { hash: 708324153, lines: (1, 1) },
            Fingerprint { hash: 725170475, lines: (1, 2) },
            Fingerprint { hash: 724643882, lines: (2, 2) },
            Fingerprint { hash: 707866929, lines: (2, 3) },
            Fingerprint { hash: 824914219, lines: (3, 3) },
            Fingerprint { hash: 724642609, lines: (3, 3) },
        ]
    );
    // no more characters than the noise threshold: nothing to fingerprint
    assert_eq!(analyze_file("1 2 3\n4 5", 5, 5), vec![]);
    assert_eq!(
        analyze_file("1 2 3\n4 5 6", 5, 5),
        vec![
            Fingerprint { hash: 842216599, lines: (1, 2) },
            Fingerprint { hash: 859059610, lines: (1, 2) },
        ]
    );
}

#[test]
fn test_ignore_set() {
    let contents = vec![String::from("7*8+9\n9+10*11\n1+1+1+1"), String::from("3+4\n5*6+7\n42*42*42")];
    {
        let ignore = make_ignore_set(&contents, 4, 6);

        let exp_set = hash_set(&[
            // the first file
            708324153, 725170475, 724643882, 707866929, 824914219, 724642609,
            // the second file
            724841770, 708193079, 725038130, 841626674, 708063786,
        ]);

        assert_eq!(ignore, Ok(exp_set));
    }
    {
        let ignore = make_ignore_set(&contents, 3, 8);

        let exp_set = hash_set(&[
            // the first file
            2766891, 2830640, 2765105, 2830635,
            // the second file
            2766379, 2765874,
        ]);

        assert_eq!(ignore, Ok(exp_set));
    }
}

#[test]
fn ignore_set_of_no_file_is_refused() {
    assert_eq!(make_ignore_set(&Vec::new(), 4, 6), Err(Error::NoIgnoreFiles));
}

#[test]
fn analyze_subs_processes_every_document() {
    let mut subs = vec![
        unprocessed(None, &["subs/one.arr"]),
        unprocessed(Some("subs/two"), &["subs/two/a.arr", "subs/two/b.arr"]),
    ];
    let contents = vec![
        vec![String::from("1+2*3+4\n5*6+7*8\n9+10*11\n12*13+14")],
        vec![String::from("7*8+9\n9+10*11\n1+1+1+1"), String::from("3+4\n5*6+7\n42*42*42")],
    ];
    let out = analyze_subs(&mut subs, &contents, &None, 4, 6);

    let processed = vec![
        Sub {
            dir_name: None,
            documents: vec![Doc::Processed(String::from("subs/one.arr"), vec![
                Fingerprint { hash: 724707891, lines: (1, 1) },
                Fingerprint { hash: 707996468, lines: (1, 1) },
                Fingerprint { hash: 724841770, lines: (1, 2) },
                Fingerprint { hash: 708193079, lines: (2, 2) },
                Fingerprint { hash: 725035576, lines: (2, 2) },
                Fingerprint { hash: 708327723, lines: (2, 3) },
                Fingerprint { hash: 724643882, lines: (3, 3) },
                Fingerprint { hash: 707866929, lines: (3, 4) },
                Fingerprint { hash: 825307442, lines: (3, 4) },
                Fingerprint { hash: 825307690, lines: (3, 4) },
                Fingerprint { hash: 707867435, lines: (4, 4) },
            ])],
        },
        Sub {
            dir_name: Some(String::from("subs/two")),
            documents: vec![
                Doc::Processed(String::from("subs/two/a.arr"), vec![
                    Fingerprint { hash: 708324153, lines: (1, 1) },
                    Fingerprint { hash: 725170475, lines: (1, 2) },
                    Fingerprint { hash: 724643882, lines: (2, 2) },
                    Fingerprint { hash: 707866929, lines: (2, 3) },
                    Fingerprint { hash: 824914219, lines: (3, 3) },
                    Fingerprint { hash: 724642609, lines: (3, 3) },
                ]),
                Doc::Processed(String::from("subs/two/b.arr"), vec![
                    Fingerprint { hash: 724841770, lines: (1, 2) },
                    Fingerprint { hash: 708193079, lines: (2, 2) },
                    Fingerprint { hash: 725038130, lines: (2, 3) },
                    Fingerprint { hash: 841626674, lines: (3, 3) },
                    Fingerprint { hash: 708063786, lines: (3, 3) },
                ]),
            ],
        },
    ];
    assert_eq!(subs, processed);

    let exp_out = index_of(&[
        (707866929, &[0, 1]),
        (707867435, &[0]),
        (707996468, &[0]),
        (708063786, &[1]),
        (708193079, &[0, 1]),
        (708324153, &[1]),
        (708327723, &[0]),
        (724642609, &[1]),
        (724643882, &[0, 1]),
        (724707891, &[0]),
        (724841770, &[0, 1]),
        (725035576, &[0]),
        (725038130, &[1]),
        (725170475, &[1]),
        (824914219, &[1]),
        (825307442, &[0]),
        (825307690, &[0]),
        (841626674, &[1]),
    ]);
    assert_eq!(out, exp_out);
}

#[test]
fn analyze_subs_leaves_out_what_is_ignored() {
    let mut subs = vec![
        unprocessed(None, &["subs/one.arr"]),
        unprocessed(None, &["subs/two.arr"]),
    ];
    let contents = vec![vec![String::from("1+2*3+4\n5*6+7*8\n9+10*11\n12*13+14")], vec![String::from("7*8+9\n9+10*11\n1+1+1+1")]];
    let ignore = make_ignore_set(&vec![String::from("3+4\n5*6+7\n42*42*42")], 4, 6).unwrap();
    let out = analyze_subs(&mut subs, &contents, &Some(ignore), 4, 6);

    let processed = vec![
        Sub {
            dir_name: None,
            documents: vec![Doc::Processed(String::from("subs/one.arr"), vec![
                Fingerprint { hash: 724707891, lines: (1, 1) },
                Fingerprint { hash: 707996468, lines: (1, 1) },
                Fingerprint { hash: 725035576, lines: (2, 2) },
                Fingerprint { hash: 708327723, lines: (2, 3) },
                Fingerprint { hash: 724643882, lines: (3, 3) },
                Fingerprint { hash: 707866929, lines: (3, 4) },
                Fingerprint { hash: 825307442, lines: (3, 4) },
                Fingerprint { hash: 825307690, lines: (3, 4) },
                Fingerprint { hash: 707867435, lines: (4, 4) },
            ])],
        },
        Sub {
            dir_name: None,
            documents: vec![Doc::Processed(String::from("subs/two.arr"), vec![
                Fingerprint { hash: 708324153, lines: (1, 1) },
                Fingerprint { hash: 725170475, lines: (1, 2) },
                Fingerprint { hash: 724643882, lines: (2, 2) },
                Fingerprint { hash: 707866929, lines: (2, 3) },
                Fingerprint { hash: 824914219, lines: (3, 3) },
                Fingerprint { hash: 724642609, lines: (3, 3) },
            ])],
        },
    ];
    assert_eq!(subs, processed);

    let exp_out = index_of(&[
        (707866929, &[0, 1]),
        (707867435, &[0]),
        (707996468, &[0]),
        (708324153, &[1]),
        (708327723, &[0]),
        (724642609, &[1]),
        (724643882, &[0, 1]),
        (724707891, &[0]),
        (725035576, &[0]),
        (725170475, &[1]),
        (824914219, &[1]),
        (825307442, &[0]),
        (825307690, &[0]),
    ]);
    assert_eq!(out, exp_out);
}

#[test]
fn test_analyze_single_files() {
    // the submissions as they are after analysis
    let proc_sub1 = Sub {
        dir_name: None,
        documents: vec![
            Doc::Processed(
                String::from("test-dirs/test/single-file/sub1.arr"),
                vec![
                    Fingerprint { hash: 5421077, lines: (11, 12) }, 
                    Fingerprint { hash: 31722361, lines: (15, 16) }, 
                    Fingerprint { hash: 30182096, lines: (16, 16) },
                    Fingerprint { hash: 14933625, lines: (17, 18) }, 
                    Fingerprint { hash: 73943364, lines: (19, 19) }
                ])
        ]
    };

    let proc_sub2 = Sub {
        dir_name: None,
        documents: vec![
            Doc::Processed(
                String::from("test-dirs/test/single-file/sub2.arr"),
                vec![
                    Fingerprint { hash: 5421077, lines: (8, 10) }, 
                    Fingerprint { hash: 14933625, lines: (13, 14) }, 
                    Fingerprint { hash: 73943364, lines: (15, 15) }
                ])
        ]
    };

    let mut exp_out: FnvHashMap<i64, Vec<usize>> = FnvHashMap::default();

    exp_out.insert(5421077,  vec![0, 1]);
    exp_out.insert(31722361, vec![0]);
    exp_out.insert(30182096, vec![0]);
    exp_out.insert(14933625, vec![0, 1]);
    exp_out.insert(73943364, vec![0, 1]);

    let out = invert(&vec![proc_sub1, proc_sub2]);

    assert_eq!(out, exp_out);
}

#[test]
fn test_analyze_multi_files() {
    // the submissions as they are after analysis
    let proc_sub1 = Sub {
        dir_name: Some(String::from("test-dirs/test/multi-file/sub1")),
        documents: vec![
            Doc::Processed(
                String::from("test-dirs/test/multi-file/sub1/common.arr"),
                vec![
                    Fingerprint { hash: 712012601, lines: (1, 2) }, 
                    Fingerprint { hash: 762608186, lines: (2, 2) },
                    Fingerprint { hash: 711221850, lines: (2, 5) }, 
                    Fingerprint { hash: 678833506, lines: (7, 7) }
                ]),
            Doc::Processed(
                String::from("test-dirs/test/multi-file/sub1/main.arr"),
                vec![
                    Fingerprint { hash: 711358008, lines: (1, 3) }, 
                    Fingerprint { hash: 678832678, lines: (3, 3) }, 
                    Fingerprint { hash: 691697430, lines: (3, 5) }, 
                    Fingerprint { hash: 712407124, lines: (5, 6) }, 
                    Fingerprint { hash: 674572885, lines: (7, 7) }, 
                    Fingerprint { hash: 674703957, lines: (8, 8) }, 
                    Fingerprint { hash: 674050581, lines: (9, 9) }
                ])
        ]
    };
    let proc_sub2 = Sub {
        dir_name: Some(String::from("test-dirs/test/multi-file/sub2")),
        documents: vec![
            Doc::Processed(
                String::from("test-dirs/test/multi-file/sub2/common.arr"),
                vec![
                    Fingerprint { hash: 711221822, lines: (1, 3) }, 
                    Fingerprint { hash: 678833506, lines: (8, 8) }
                ]),
            Doc::Processed(
                String::from("test-dirs/test/multi-file/sub2/main.arr"),
                vec![
                    Fingerprint { hash: 711358008, lines: (1, 4) }, 
                    Fingerprint { hash: 678832678, lines: (4, 4) }, 
                    Fingerprint { hash: 691697430, lines: (4, 6) }, 
                    Fingerprint { hash: 712402522, lines: (6, 7) }, 
                    Fingerprint { hash: 980822283, lines: (9, 10) }, 
                    Fingerprint { hash: 674572885, lines: (10, 10) }, 
                    Fingerprint { hash: 674703957, lines: (11, 11) }, 
                    Fingerprint { hash: 674050581, lines: (12, 12) }, 
                    Fingerprint { hash: 674376277, lines: (13, 13) }
                ])
        ]
    };

    let mut exp_out: FnvHashMap<i64, Vec<usize>> = FnvHashMap::default();
    exp_out.insert(712012601, vec![0]);
    exp_out.insert(762608186, vec![0]);
    exp_out.insert(711221850, vec![0]);
    exp_out.insert(712407124, vec![0]);
    exp_out.insert(678833506, vec![0, 1]);
    exp_out.insert(711358008, vec![0, 1]);
    exp_out.insert(678832678, vec![0, 1]);
    exp_out.insert(691697430, vec![0, 1]);
    exp_out.insert(674572885, vec![0, 1]);
    exp_out.insert(674703957, vec![0, 1]);
    exp_out.insert(674050581, vec![0, 1]);
    exp_out.insert(711221822, vec![1]);
    exp_out.insert(712402522, vec![1]);
    exp_out.insert(980822283, vec![1]);
    exp_out.insert(674376277, vec![1]);

    let out = invert(&vec![proc_sub1, proc_sub2]);

    assert_eq!(out, exp_out);
}

#[test]
fn test_analyze_with_ignore() {
    // the submissions as they are without anything ignored
    let full_sub1 = Sub {
        dir_name: Some(String::from("test-dirs/test/multi-file/sub1")),
        documents: vec![
            Doc::Processed(
                String::from("test-dirs/test/multi-file/sub1/common.arr"),
                vec![
                    Fingerprint { hash: 712012601, lines: (1, 2) }, 
                    Fingerprint { hash: 762608186, lines: (2, 2) },
                    Fingerprint { hash: 711221850, lines: (2, 5) }, 
                    Fingerprint { hash: 678833506, lines: (7, 7) }
                ]),
            Doc::Processed(
                String::from("test-dirs/test/multi-file/sub1/main.arr"),
                vec![
                    Fingerprint { hash: 711358008, lines: (1, 3) }, 
                    Fingerprint { hash: 678832678, lines: (3, 3) }, 
                    Fingerprint { hash: 691697430, lines: (3, 5) }, 
                    Fingerprint { hash: 712407124, lines: (5, 6) }, 
                    Fingerprint { hash: 674572885, lines: (7, 7) }, 
                    Fingerprint { hash: 674703957, lines: (8, 8) }, 
                    Fingerprint { hash: 674050581, lines: (9, 9) }
                ])
        ]
    };
    let full_sub2 = Sub {
        dir_name: Some(String::from("test-dirs/test/multi-file/sub2")),
        documents: vec![
            Doc::Processed(
                String::from("test-dirs/test/multi-file/sub2/common.arr"),
                vec![
                    Fingerprint { hash: 711221822, lines: (1, 3) }, 
                    Fingerprint { hash: 678833506, lines: (8, 8) }
                ]),
            Doc::Processed(
                String::from("test-dirs/test/multi-file/sub2/main.arr"),
                vec![
                    Fingerprint { hash: 711358008, lines: (1, 4) }, 
                    Fingerprint { hash: 678832678, lines: (4, 4) }, 
                    Fingerprint { hash: 691697430, lines: (4, 6) }, 
                    Fingerprint { hash: 712402522, lines: (6, 7) }, 
                    Fingerprint { hash: 980822283, lines: (9, 10) }, 
                    Fingerprint { hash: 674572885, lines: (10, 10) }, 
                    Fingerprint { hash: 674703957, lines: (11, 11) }, 
                    Fingerprint { hash: 674050581, lines: (12, 12) }, 
                    Fingerprint { hash: 674376277, lines: (13, 13) }
                ])
        ]
    };


    // use an ignore set
    let ignore_set: HashSet<i64> = [
        711221850,
        711358008,
        678832678,
        691697430,
        711221822,
        980822283
    ].iter().cloned().collect();

    // take out of every document what is ignored
    let ignore = Some(ignore_set);
    let left = |sub: Sub| Sub {
        dir_name: sub.dir_name,
        documents: sub
            .documents
            .into_iter()
            .map(|doc| match doc {
                Doc::Processed(path, fps) => Doc::Processed(path, keep_fingerprints(fps, &ignore)),
                other => other,
            })
            .collect(),
    };
    let subs = vec![left(full_sub1), left(full_sub2)];
    let out = invert(&subs);

    // submissions after analysis
    let proc_sub1 = Sub {
        dir_name: Some(String::from("test-dirs/test/multi-file/sub1")),
        documents: vec![
            Doc::Processed(
                String::from("test-dirs/test/multi-file/sub1/common.arr"),
                vec![
                    Fingerprint { hash: 712012601, lines: (1, 2) }, 
                    Fingerprint { hash: 762608186, lines: (2, 2) },
                    Fingerprint { hash: 678833506, lines: (7, 7) }
                ]),
            Doc::Processed(
                String::from("test-dirs/test/multi-file/sub1/main.arr"),
                vec![
                    Fingerprint { hash: 712407124, lines: (5, 6) }, 
                    Fingerprint { hash: 674572885, lines: (7, 7) }, 
                    Fingerprint { hash: 674703957, lines: (8, 8) }, 
                    Fingerprint { hash: 674050581, lines: (9, 9) }
                ])
        ]
    };
    let proc_sub2 = Sub {
        dir_name: Some(String::from("test-dirs/test/multi-file/sub2")),
        documents: vec![
            Doc::Processed(
                String::from("test-dirs/test/multi-file/sub2/common.arr"),
                vec![
                    Fingerprint { hash: 678833506, lines: (8, 8) }
                ]),
            Doc::Processed(
                String::from("test-dirs/test/multi-file/sub2/main.arr"),
                vec![
                    Fingerprint { hash: 712402522, lines: (6, 7) }, 
                    Fingerprint { hash: 674572885, lines: (10, 10) }, 
                    Fingerprint { hash: 674703957, lines: (11, 11) }, 
                    Fingerprint { hash: 674050581, lines: (12, 12) }, 
                    Fingerprint { hash: 674376277, lines: (13, 13) }
                ])
        ]
    };

    let mut exp_out: FnvHashMap<i64, Vec<usize>> = FnvHashMap::default();
    exp_out.insert(712012601, vec![0]);
    exp_out.insert(762608186, vec![0]);
    exp_out.insert(712407124, vec![0]);
    exp_out.insert(678833506, vec![0, 1]);
    exp_out.insert(674572885, vec![0, 1]);
    exp_out.insert(674703957, vec![0, 1]);
    exp_out.insert(674050581, vec![0, 1]);
    exp_out.insert(712402522, vec![1]);
    exp_out.insert(674376277, vec![1]);

    assert_eq!(subs, vec![proc_sub1, proc_sub2]);
    assert_eq!(out, exp_out);
}
