use pyret_moss::cli::SubFileMode;
use pyret_moss::phase_iii::Entry;
use pyret_moss::results::{format_entries, sub_name};
use pyret_moss::{Doc, Sub};

// the entries of a cell, each once (convenience)
fn set<T: Clone>(elts: Vec<T>) -> Vec<T> {
    elts
}

#[test]
fn test_sub_name() {
    // multi-file submissions
    {
        let sub = Sub {
            dir_name: Some(String::from("all-subs/sub-abcd/")),
            documents: vec![
                Doc::Processed(String::from("all-subs/sub-abcd/main.arr"), vec![]),
                Doc::Processed(String::from("all-subs/sub-abcd/tests.arr"), vec![])
            ]
        };
        let name = sub_name(&sub, &SubFileMode::Multi);
        let exp_name = String::from("sub-abcd/");
        assert_eq!(name, exp_name);
    }
    {
        let sub = Sub {
            dir_name: Some(String::from("all-subs/sub-xyz/")),
            documents: vec![
                Doc::Processed(String::from("all-subs/sub-xyz/main.arr"), vec![]),
                Doc::Processed(String::from("all-subs/sub-xyz/tests.arr"), vec![])
            ]
        };
        let name = sub_name(&sub, &SubFileMode::Multi);
        let exp_name = String::from("sub-xyz/");
        assert_eq!(name, exp_name);
    }
    {
        let sub = Sub {
            dir_name: Some(String::from("all-subs/sub-lmn/")),
            documents: vec![
                Doc::Processed(String::from("all-subs/sub-lmn/main.arr"), vec![]),
                Doc::Processed(String::from("all-subs/sub-lmn/tests.arr"), vec![])
            ]
        };

        let name = sub_name(&sub, &SubFileMode::Multi);
        let exp_name = String::from("sub-lmn/");
        assert_eq!(name, exp_name);
    }

    // single-file submissions
    {
        let sub = Sub {
            dir_name: None,
            documents: vec![
                Doc::Processed(String::from("all-subs/submissionA.arr"), vec![])
            ]
        };

        let name = sub_name(&sub, &SubFileMode::Single);
        let exp_name = String::from("submissionA.arr");
        assert_eq!(name, exp_name);
    }
    {
        let sub = Sub {
            dir_name: None,
            documents: vec![
                Doc::Processed(String::from("~/Desktop/nested/dirs/all-subs/this-is-the-sub-name.arr"), vec![])
            ]
        };

        let name = sub_name(&sub, &SubFileMode::Single);
        let exp_name = String::from("this-is-the-sub-name.arr");
        assert_eq!(name, exp_name);
    }
}

#[test]
fn test_format_entries() {
    {
        let entries = set(vec![
            Entry { doc_idx: 2, lines: (15, 18) },
            Entry { doc_idx: 0, lines: (1, 4) },
            Entry { doc_idx: 2, lines: (2, 8) },
            Entry { doc_idx: 1, lines: (3, 20) }
        ]);

        let sub = Sub {
            dir_name: Some(String::from("~/submissions/sub/")),
            documents: vec![
                Doc::Processed(String::from("~/submissions/sub/one.arr"), Vec::new()),
                Doc::Processed(String::from("~/submissions/sub/two.arr"), Vec::new()),
                Doc::Processed(String::from("~/submissions/sub/three.arr"), Vec::new())
            ]
        };

        let exp_cell = String::from("one.arr lines 1-4\ntwo.arr lines 3-20\nthree.arr lines 2-8\nthree.arr lines 15-18");

        assert_eq!(format_entries(&entries, &sub, &SubFileMode::Multi), exp_cell);
    }
    {
        let entries = set(vec![
            Entry { doc_idx: 3, lines: (2, 5) },
            Entry { doc_idx: 0, lines: (1, 5) },
            Entry { doc_idx: 0, lines: (4, 8) }
        ]);

        let sub = Sub {
            dir_name: Some(String::from("dir/abcd/")),
            documents: vec![
                Doc::Processed(String::from("dir/abcd/first.arr"), Vec::new()),
                Doc::Processed(String::from("dir/abcd/second.arr"), Vec::new()),
                Doc::Processed(String::from("dir/abcd/third.arr"), Vec::new()),
                Doc::Processed(String::from("dir/abcd/fourth.arr"), Vec::new())
            ]
        };

        let exp_cell = String::from("first.arr lines 1-5\nfirst.arr lines 4-8\nfourth.arr lines 2-5");

        assert_eq!(format_entries(&entries, &sub, &SubFileMode::Multi), exp_cell);
    }
}

#[test]
fn entries_of_a_single_file_have_no_file_name() {
    let sub = Sub {
        dir_name: None,
        documents: vec![Doc::Processed(String::from("submissions/sub1.arr"), Vec::new())],
    };
    let entries = vec![
        Entry { doc_idx: 0, lines: (16, 31) },
        Entry { doc_idx: 0, lines: (5, 5) },
        Entry { doc_idx: 0, lines: (4, 5) },
        Entry { doc_idx: 0, lines: (4, 4) },
    ];
    assert_eq!(
        format_entries(&entries, &sub, &SubFileMode::Single),
        String::from("line 4\nlines 4-5\nline 5\nlines 16-31")
    );
    assert_eq!(format_entries(&Vec::new(), &sub, &SubFileMode::Single), String::new());
    assert_eq!(
        format_entries(&vec![Entry { doc_idx: 0, lines: (-3, 120) }], &sub, &SubFileMode::Single),
        String::from("lines -3-120")
    );
}

#[test]
fn names_are_the_last_part_of_the_path() {
    let sub = Sub {
        dir_name: Some(String::from("/home/user/subs/alpha///")),
        documents: vec![Doc::Unprocessed(String::from("main.arr"))],
    };
    assert_eq!(sub_name(&sub, &SubFileMode::Multi), String::from("alpha/"));
    assert_eq!(sub_name(&sub, &SubFileMode::Single), String::from("main.arr"));
}
