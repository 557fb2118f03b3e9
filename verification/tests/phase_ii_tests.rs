use pyret_moss::error::Error;
use pyret_moss::fingerprint::Fingerprint;
use pyret_moss::phase_i::invert;
use pyret_moss::phase_ii::{find_overlaps, SubPair};
use pyret_moss::ratio::Ratio;
use pyret_moss::{Doc, Sub};

fn single(path: &str, fps: Vec<Fingerprint>) -> Sub {
    Sub { dir_name: None, documents: vec![Doc::Processed(String::from(path), fps)] }
}

fn share(part: u64, whole: u64) -> Ratio {
    Ratio { part, whole }
}

// what a pair holds, field by field: `==` on pairs looks at the two submissions only
fn fields(pair: &SubPair) -> (usize, Ratio, usize, Ratio, Vec<i64>, Ratio) {
    (pair.a, pair.a_percent, pair.b, pair.b_percent, pair.matches.clone(), pair.percentile)
}

#[test]
// tests expected output on two single-doc input subs, namely that the
// matched hashes are correctly recorded, and the percent values/percentile are correct
fn test_single_pair_input() {
    let processed_sub1 = single("test-dirs/test/single-file/sub1.arr", vec![
        Fingerprint { hash: 5421077, lines: (11, 12) },
        Fingerprint { hash: 31722361, lines: (15, 16) },
        Fingerprint { hash: 30182096, lines: (16, 16) },
        Fingerprint { hash: 14933625, lines: (17, 18) },
        Fingerprint { hash: 73943364, lines: (19, 19) }]);

    let processed_sub2 = single("test-dirs/test/single-file/sub2.arr", vec![
        Fingerprint { hash: 5421077, lines: (8, 10) },
        Fingerprint { hash: 14933625, lines: (13, 14) },
        Fingerprint { hash: 73943364, lines: (15, 15) }]);

    let subs = vec![processed_sub1, processed_sub2];
    let inp_map = invert(&subs);
    let out = find_overlaps(&inp_map, &subs, share(0, 1)).unwrap();

    let exp_out_sp = SubPair {
        a: 0,
        a_percent: share(3, 5),
        b: 1,
        b_percent: share(3, 3),
        matches: vec![5421077, 14933625, 73943364],
        percentile: share(3, 3)
    };

    assert_eq!(out.1, 1);
    assert_eq!(out.0.len(), 1);
    assert_eq!(fields(&out.0[0]), fields(&exp_out_sp));
    assert_eq!(out, (vec![exp_out_sp], 1));
}

#[test]
// tests expected output on four single-doc input subs, namely that
// SubPairs are sorted by number of matches in output, percent/percentile values are correct,
// and pairs without overlap are omitted
fn test_multiple_pairs_output() {
    let processed_sub1 = single("test-dirs/test/single-file-subpairs/sub1.arr", vec![
        Fingerprint { hash: 5421077, lines: (11, 12) },
        Fingerprint { hash: 31722361, lines: (15, 16) },
        Fingerprint { hash: 30182096, lines: (16, 16) },
        Fingerprint { hash: 14933625, lines: (17, 18) },
        Fingerprint { hash: 73943364, lines: (19, 19) },
        Fingerprint { hash: 21898048, lines: (22, 23) }]);

    let processed_sub2 = single("test-dirs/test/single-file-subpairs/sub2.arr", vec![
        Fingerprint { hash: 5421077, lines: (8, 10) },
        Fingerprint { hash: 14933625, lines: (13, 14) },
        Fingerprint { hash: 73943364, lines: (15, 15) }]);

    // shares nothing with the others
    let processed_sub3 = single("test-dirs/test/single-file-subpairs/sub3.arr", vec![
        Fingerprint { hash: 99, lines: (1, 1) }]);

    let processed_sub4 = single("test-dirs/test/single-file-subpairs/sub4.arr", vec![
        Fingerprint { hash: 5421353, lines: (5, 6) },
        Fingerprint { hash: 10580184, lines: (9, 10)},
        Fingerprint { hash: 14933625, lines: (11, 12) },
        Fingerprint { hash: 17304907, lines: (13, 14) },
        Fingerprint { hash: 21898048, lines: (17, 18) }]);

    let subs = vec![processed_sub1, processed_sub2, processed_sub3, processed_sub4];
    let inp_map = invert(&subs);
    let out_min_thresh = find_overlaps(&inp_map, &subs, share(0, 1)).unwrap();

    let sub1_sub2_pair = SubPair {
        a: 0,
        a_percent: share(3, 6),
        b: 1,
        b_percent: share(3, 3),
        matches: vec![5421077, 14933625, 73943364],
        percentile: share(3, 3)
    };

    let sub1_sub4_pair = SubPair {
        a: 0,
        a_percent: share(2, 6),
        b: 3,
        b_percent: share(2, 5),
        matches: vec![14933625, 21898048],
        percentile: share(2, 3)
    };

    let sub2_sub4_pair = SubPair {
        a: 1,
        a_percent: share(1, 3),
        b: 3,
        b_percent: share(1, 5),
        matches: vec![14933625],
        percentile: share(1, 3)
    };

    let exp = vec![sub1_sub2_pair, sub1_sub4_pair, sub2_sub4_pair];
    assert_eq!(
        out_min_thresh.0.iter().map(fields).collect::<Vec<_>>(),
        exp.iter().map(fields).collect::<Vec<_>>()
    );
    assert_eq!(out_min_thresh, (exp, 3));
}

#[test]
// tests expected output on four multi-doc input subs, namely that
// SubPairs are sorted by number of matches in output, percent/percentile values are correct,
// and pairs below percentile threshold are omitted
fn test_multiple_multidoc_pairs_output() {
    let processed_sub1 = Sub {
        dir_name: Some(String::from("test-dirs/test/multi-file-subpairs/sub1")),
        documents: vec![
            Doc::Processed(String::from("test-dirs/test/multi-file-subpairs/sub1/common.arr"),
                vec![Fingerprint { hash: 390399223, lines: (1, 2) }]),
            Doc::Processed(String::from("test-dirs/test/multi-file-subpairs/sub1/main.arr"), vec![
                Fingerprint { hash: 103309548, lines: (3, 5) },
                Fingerprint { hash: 139046768, lines: (7, 8) },
                Fingerprint { hash: 157553660, lines: (12, 12) },
                Fingerprint { hash: 155828129, lines: (16, 17) },
                Fingerprint { hash: 70845857, lines: (17, 18) }])]
    };

    // holds one hash that every other submission holds too
    let processed_sub2 = Sub {
        dir_name: Some(String::from("test-dirs/test/multi-file-subpairs/sub2")),
        documents: vec![
            Doc::Processed(String::from("test-dirs/test/multi-file-subpairs/sub2/common.arr"),
                vec![]),
            Doc::Processed(String::from("test-dirs/test/multi-file-subpairs/sub2/main.arr"), vec![
                Fingerprint { hash: 103309548, lines: (1, 1) },
                Fingerprint { hash: 60, lines: (2, 2) }])]
    };

    let processed_sub3 = Sub {
        dir_name: Some(String::from("test-dirs/test/multi-file-subpairs/sub3")),
        documents: vec![
            Doc::Processed(String::from("test-dirs/test/multi-file-subpairs/sub3/common.arr"),
            vec![Fingerprint { hash: 76905376, lines: (6, 7) },
                Fingerprint { hash: 76839850, lines: (7, 8) },
                Fingerprint { hash: 41033526, lines: (8, 8) },
                Fingerprint { hash: 77033123, lines: (8, 9) },
                Fingerprint { hash: 70845857, lines: (16, 17) }]),
            Doc::Processed(String::from("test-dirs/test/multi-file-subpairs/sub3/main.arr"), vec![
                Fingerprint { hash: 103309548, lines: (3, 5) },
                Fingerprint { hash: 103309548, lines: (13, 15) },
                Fingerprint { hash: 138677810, lines: (22, 25) },
                Fingerprint { hash: 90448699, lines: (26, 26) },
                Fingerprint { hash: 90391867, lines: (26, 27) },
                Fingerprint { hash: 40051188, lines: (27, 27) },
                Fingerprint { hash: 1866481, lines: (27, 27) }])]
    };

    let processed_sub4 = Sub {
        dir_name: Some(String::from("test-dirs/test/multi-file-subpairs/sub4")),
        documents: vec![
            Doc::Processed(String::from("test-dirs/test/multi-file-subpairs/sub4/common.arr"),
            vec![Fingerprint { hash: 84319302, lines: (14, 14) },
                Fingerprint { hash: 83117630, lines: (14, 14) },
                Fingerprint { hash: 77155669, lines: (14, 14) },
                Fingerprint { hash: 76905376, lines: (14, 15) },
                Fingerprint { hash: 76839850, lines: (15, 16) },
                Fingerprint { hash: 41033526, lines: (16, 16) },
                Fingerprint { hash: 40051188, lines: (20, 20) },
                Fingerprint { hash: 1866481, lines: (20, 20) }]),
            Doc::Processed(String::from("test-dirs/test/multi-file-subpairs/sub4/main.arr"), vec![
                Fingerprint { hash: 103309548, lines: (4, 6) }])]
    };

    let subs = vec![processed_sub1, processed_sub2, processed_sub3, processed_sub4];
    let inp_map = invert(&subs);
    //threshold is such that some pairs are filtered out
    let out_med_thresh = find_overlaps(&inp_map, &subs, share(3, 10)).unwrap();

    let sub3_sub4_pair = SubPair {
        a: 2,
        a_percent: share(6, 11),
        b: 3,
        b_percent: share(6, 9),
        matches: vec![1866481, 40051188, 41033526, 76839850, 76905376, 103309548],
        percentile: share(6, 6)
    };

    let sub1_sub3_pair = SubPair {
        a: 0,
        a_percent: share(2, 6),
        b: 2,
        b_percent: share(2, 11),
        matches: vec![70845857, 103309548],
        percentile: share(2, 6)
    };

    let exp = vec![sub3_sub4_pair, sub1_sub3_pair];
    assert_eq!(
        out_med_thresh.0.iter().map(fields).collect::<Vec<_>>(),
        exp.iter().map(fields).collect::<Vec<_>>()
    );
    assert_eq!(out_med_thresh, (exp, 6));
}

fn hashes(path: &str, hashes: &[i64]) -> Sub {
    single(path, hashes.iter().map(|h| Fingerprint { hash: *h, lines: (1, 1) }).collect())
}

#[test]
fn pairs_are_ranked_by_what_they_share() {
    // three submissions: the first two share three hashes, the first and the third two,
    // the second and the third one
    let subs = vec![
        hashes("s1.arr", &[1, 2, 3, 4, 5]),
        hashes("s2.arr", &[1, 2, 3, 6]),
        hashes("s3.arr", &[4, 5, 6]),
    ];
    let index = invert(&subs);

    let (all, total) = find_overlaps(&index, &subs, share(0, 1)).unwrap();
    assert_eq!(total, 3);
    assert_eq!(
        all.iter().map(|p| (p.a, p.b, p.percentile)).collect::<Vec<_>>(),
        vec![(0, 1, share(3, 3)), (0, 2, share(2, 3)), (1, 2, share(1, 3))]
    );

    // at a half only the first two are reported; the number of all pairs stays
    let (half, total) = find_overlaps(&index, &subs, share(1, 2)).unwrap();
    assert_eq!(total, 3);
    assert_eq!(half.iter().map(|p| (p.a, p.b)).collect::<Vec<_>>(), vec![(0, 1), (0, 2)]);

    // a pair that is exactly at the threshold is reported
    let (third, _) = find_overlaps(&index, &subs, share(1, 3)).unwrap();
    assert_eq!(third.len(), 3);
    let (most, _) = find_overlaps(&index, &subs, share(1, 1)).unwrap();
    assert_eq!(most.iter().map(|p| (p.a, p.b)).collect::<Vec<_>>(), vec![(0, 1)]);
}

#[test]
fn pairs_that_share_as_much_stand_in_the_order_of_their_submissions() {
    let subs = vec![
        hashes("s1.arr", &[10, 20]),
        hashes("s2.arr", &[30, 10]),
        hashes("s3.arr", &[20, 30]),
        hashes("s4.arr", &[40]),
    ];
    let index = invert(&subs);
    let (pairs, total) = find_overlaps(&index, &subs, share(0, 1)).unwrap();
    assert_eq!(total, 3);
    assert_eq!(
        pairs.iter().map(fields).collect::<Vec<_>>(),
        vec![
            (0, share(1, 2), 1, share(1, 2), vec![10], share(1, 1)),
            (0, share(1, 2), 2, share(1, 2), vec![20], share(1, 1)),
            (1, share(1, 2), 2, share(1, 2), vec![30], share(1, 1)),
        ]
    );
}

#[test]
fn the_order_of_the_submissions_does_not_change_what_a_pair_shares() {
    let one = hashes("s1.arr", &[5, 6, 7, 8]);
    let two = hashes("s2.arr", &[8, 7, 1]);
    let three = hashes("s3.arr", &[6, 2]);
    let forward = vec![one.clone(), two.clone(), three.clone()];
    let backward = vec![three, two, one];
    let (f, _) = find_overlaps(&invert(&forward), &forward, share(0, 1)).unwrap();
    let (b, _) = find_overlaps(&invert(&backward), &backward, share(0, 1)).unwrap();
    // the same pairs, named by the other places
    assert_eq!(
        f.iter().map(|p| (p.a, p.b, p.matches.clone())).collect::<Vec<_>>(),
        vec![(0, 1, vec![7, 8]), (0, 2, vec![6])]
    );
    assert_eq!(
        b.iter().map(|p| (2 - p.b, 2 - p.a, p.matches.clone())).collect::<Vec<_>>(),
        vec![(0, 1, vec![7, 8]), (0, 2, vec![6])]
    );
}

#[test]
fn no_overlap_gives_no_pair() {
    let subs = vec![hashes("s1.arr", &[1, 2]), hashes("s2.arr", &[3]), hashes("s3.arr", &[])];
    let (pairs, total) = find_overlaps(&invert(&subs), &subs, share(0, 1)).unwrap();
    assert_eq!(total, 0);
    assert!(pairs.is_empty());
}

#[test]
fn a_threshold_beyond_the_whole_is_refused() {
    let subs = vec![hashes("s1.arr", &[1]), hashes("s2.arr", &[1])];
    let index = invert(&subs);
    assert_eq!(find_overlaps(&index, &subs, share(3, 2)), Err(Error::ThresholdOutOfRange));
    assert_eq!(find_overlaps(&index, &subs, share(0, 0)), Err(Error::ThresholdOutOfRange));
    assert!(find_overlaps(&index, &subs, share(2, 2)).is_ok());
}

#[test]
fn a_pair_equals_the_pair_the_other_way_round() {
    let pair = SubPair {
        a: 4,
        a_percent: share(1, 2),
        b: 9,
        b_percent: share(1, 5),
        matches: vec![77],
        percentile: share(1, 1),
    };
    let turned = SubPair {
        a: 9,
        a_percent: share(1, 5),
        b: 4,
        b_percent: share(1, 2),
        matches: vec![77],
        percentile: share(1, 1),
    };
    let other = SubPair { a: 4, b: 8, ..pair.clone() };
    assert_eq!(pair, turned);
    assert_eq!(turned, pair);
    assert_ne!(pair, other);
    assert_ne!(other, turned);
}

#[test]
fn shares_lie_between_nothing_and_the_whole() {
    let subs = vec![
        hashes("s1.arr", &[1, 2, 3, 4, 5, 5, 5]),
        hashes("s2.arr", &[1, 2, 3, 6]),
        hashes("s3.arr", &[4, 5, 6, 4]),
    ];
    let (pairs, _) = find_overlaps(&invert(&subs), &subs, share(0, 1)).unwrap();
    assert_eq!(pairs.len(), 3);
    for pair in pairs.iter() {
        for ratio in [pair.a_percent, pair.b_percent, pair.percentile] {
            assert!(0 < ratio.whole && ratio.part <= ratio.whole);
        }
    }
    // hashes count once however often a submission holds them
    assert_eq!(pairs[0].a_percent, share(3, 5));
    assert_eq!(pairs[1].b_percent, share(2, 3));
}
