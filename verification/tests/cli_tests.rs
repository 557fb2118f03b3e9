use pyret_moss::cli::{
    parse_args, parse_int, parse_percent, split_names, CliError, OptArgs, Parsed, SubFileMode,
};
use pyret_moss::ratio::Ratio;

// convert a Vec<&str> into Vec<String>, for convenience
fn to_vec_string(v: Vec<&str>) -> Vec<String> {
    v.iter().map(|s| s.to_string()).collect()
}

// what a command line asks to run
fn run(args: Vec<&str>) -> (String, OptArgs) {
    match parse_args(&to_vec_string(args)) {
        Ok(Parsed::Run(sub_dir, opt_args)) => (sub_dir, opt_args),
        other => panic!("not a run: {:?}", other),
    }
}

fn refused(args: Vec<&str>) -> CliError {
    match parse_args(&to_vec_string(args)) {
        Err(e) => e,
        other => panic!("not refused: {:?}", other),
    }
}

#[test]
fn parse_args_no_optionals() {
    {
        let (sub_dir, opt_args) = run(vec![
            "./pyret-moss",
            "/home/user/Desktop/submissions"
        ]);

        assert_eq!(sub_dir, String::from("/home/user/Desktop/submissions"));
        assert_eq!(opt_args, OptArgs::default());
    }
    {
        let (sub_dir, opt_args) = run(vec![
            "pmoss",
            "./here/are/the/submissions"
        ]);

        assert_eq!(sub_dir, String::from("./here/are/the/submissions"));
        assert_eq!(opt_args, OptArgs::default());
    }
}

#[test]
fn parse_args_with_options() {
    {
        let (sub_dir, opt_args) = run(vec![
            "./pyret-moss",
            "-k",
            "10",
            "--ignore-content",
            "./dirs/ignore",
            "./subs"
        ]);

        assert_eq!(sub_dir, String::from("./subs"));
        assert_eq!(opt_args, OptArgs {
            sub_mode: SubFileMode::Multi,
            k: 10,
            t: 20,
            ignore_content_dir: Some(String::from("./dirs/ignore")),
            ignore_files: None,
            match_threshold: Ratio { part: 0, whole: 1 },
            out_file: None,
            verbose: false,
            no_pauses: false
        });
    }
    {
        let (sub_dir, opt_args) = run(vec![
            "./pyret-moss",
            "~/submissions",
            "--match-threshold",
            "16.8",
            "--verbose",
            "-o",
            "~/Desktop/analysis.txt",
            "-k",
            "20",
            "-t",
            "25",
            "--single-file-mode",
            "--ignore-content",
            "./boilerplate",
            "--no-pauses"
        ]);

        assert_eq!(sub_dir, String::from("~/submissions"));
        assert_eq!(opt_args, OptArgs {
            sub_mode: SubFileMode::Single,
            k: 20,
            t: 25,
            ignore_content_dir: Some(String::from("./boilerplate")),
            ignore_files: None,
            // 16.8 of 100
            match_threshold: Ratio { part: 168, whole: 1000 },
            out_file: Some(String::from("~/Desktop/analysis.txt")),
            verbose: true,
            no_pauses: true
        });
    }
    {
        let (sub_dir, opt_args) = run(vec![
            "./pyret-moss",
            "./submissions",
            "--ignore-files",
            "common.arr test.arr",
            "--verbose",
            "--no-pauses"
        ]);

        let ignore_files = vec![String::from("common.arr"), String::from("test.arr")];

        assert_eq!(sub_dir, String::from("./submissions"));
        assert_eq!(opt_args, OptArgs {
            sub_mode: SubFileMode::Multi,
            k: 15,
            t: 20,
            ignore_content_dir: None,
            ignore_files: Some(ignore_files),
            match_threshold: Ratio { part: 0, whole: 1 },
            out_file: None,
            verbose: true,
            no_pauses: true
        });
    }
}

#[test]
fn short_flags_are_the_long_ones() {
    let (dir, short) = run(vec!["pmoss", "-s", "-v", "-p", "-k", "3", "-t", "7", "-o", "out", "subs"]);
    let (_, long) = run(vec![
        "pmoss", "subs", "--single-file-mode", "--verbose", "--no-pauses", "--noise", "3",
        "--guarantee", "7", "--output", "out",
    ]);
    assert_eq!(dir, String::from("subs"));
    assert_eq!(short, long);
    assert_eq!((short.k, short.t), (3, 7));
}

#[test]
fn help_ends_the_reading() {
    assert_eq!(parse_args(&to_vec_string(vec!["pmoss", "--help"])), Ok(Parsed::Help));
    assert_eq!(parse_args(&to_vec_string(vec!["pmoss", "subs", "-h", "--what"])), Ok(Parsed::Help));
    // what is wrong before it is found first
    assert_eq!(refused(vec!["pmoss", "--what", "-h"]), CliError::UnrecognizedFlag(1));
}

#[test]
fn every_refusal_has_its_command_line() {
    assert_eq!(refused(vec!["pmoss"]), CliError::Usage);
    assert_eq!(refused(vec!["pmoss", "subs", "-k"]), CliError::MissingValue(2));
    assert_eq!(refused(vec!["pmoss", "-k", "0", "subs"]), CliError::InvalidNoise(2));
    assert_eq!(refused(vec!["pmoss", "-k", "ten", "subs"]), CliError::InvalidNoise(2));
    assert_eq!(refused(vec!["pmoss", "-k", "3000000000", "subs"]), CliError::InvalidNoise(2));
    assert_eq!(refused(vec!["pmoss", "subs", "-t", "-4"]), CliError::InvalidGuarantee(3));
    assert_eq!(
        refused(vec!["pmoss", "subs", "--ignore-files", "a.arr  b.arr"]),
        CliError::InvalidIgnoreFiles(3)
    );
    assert_eq!(refused(vec!["pmoss", "subs", "--ignore-files", ""]), CliError::InvalidIgnoreFiles(3));
    assert_eq!(
        refused(vec!["pmoss", "subs", "--match-threshold", "half"]),
        CliError::InvalidThreshold(3)
    );
    assert_eq!(refused(vec!["pmoss", "subs", "--fast"]), CliError::UnrecognizedFlag(2));
    assert_eq!(refused(vec!["pmoss", "subs", "more"]), CliError::UnexpectedArgument(2));
    assert_eq!(refused(vec!["pmoss", "subs", "-k", "21"]), CliError::NoiseOutOfRange);
    assert_eq!(refused(vec!["pmoss", "subs", "-t", "14"]), CliError::NoiseOutOfRange);
    assert_eq!(
        refused(vec!["pmoss", "subs", "--match-threshold", "100.5"]),
        CliError::ThresholdOutOfRange
    );
    assert_eq!(
        refused(vec!["pmoss", "subs", "--match-threshold", "-1"]),
        CliError::ThresholdOutOfRange
    );
    assert_eq!(refused(vec!["pmoss", "-v"]), CliError::NoSubDir);
}

#[test]
fn the_later_value_counts() {
    let (_, options) = run(vec![
        "pmoss", "subs", "--match-threshold", "250", "-k", "40", "-k", "5", "--match-threshold",
        "100",
    ]);
    assert_eq!(options.k, 5);
    assert_eq!(options.match_threshold, Ratio { part: 100, whole: 100 });
}

#[test]
fn whole_numbers_are_read() {
    assert_eq!(parse_int("15"), Some(15));
    assert_eq!(parse_int("+15"), Some(15));
    assert_eq!(parse_int("-15"), Some(-15));
    assert_eq!(parse_int("007"), Some(7));
    assert_eq!(parse_int("2147483647"), Some(2147483647));
    assert_eq!(parse_int("-2147483648"), Some(-2147483648));
    assert_eq!(parse_int("2147483648"), None);
    assert_eq!(parse_int("-2147483649"), None);
    assert_eq!(parse_int("99999999999999999999999"), None);
    assert_eq!(parse_int(""), None);
    assert_eq!(parse_int("-"), None);
    assert_eq!(parse_int(" 5"), None);
    assert_eq!(parse_int("5 "), None);
    assert_eq!(parse_int("1.5"), None);
    assert_eq!(parse_int("--5"), None);
}

#[test]
fn percentages_are_read() {
    let share = |part: u64, whole: u64| Ratio { part, whole };
    assert_eq!(parse_percent("0"), Some((true, share(0, 100))));
    assert_eq!(parse_percent("100"), Some((true, share(100, 100))));
    assert_eq!(parse_percent("16.8"), Some((true, share(168, 1000))));
    assert_eq!(parse_percent("33.333"), Some((true, share(33333, 100000))));
    assert_eq!(parse_percent(".5"), Some((true, share(5, 1000))));
    assert_eq!(parse_percent("5."), Some((true, share(5, 100))));
    assert_eq!(parse_percent("+50"), Some((true, share(50, 100))));
    assert_eq!(parse_percent("100.0"), Some((true, share(1000, 1000))));
    assert_eq!(parse_percent("-0.0"), Some((true, share(0, 1000))));
    assert_eq!(parse_percent("100.01"), Some((false, share(10001, 10000))));
    assert_eq!(parse_percent("-3"), Some((false, share(3, 100))));
    assert_eq!(parse_percent("123456789012345"), Some((false, share(123456789012345, 100))));
    assert_eq!(parse_percent("1234567890123456"), None);
    assert_eq!(parse_percent(""), None);
    assert_eq!(parse_percent("."), None);
    assert_eq!(parse_percent("1.2.3"), None);
    assert_eq!(parse_percent("1e1"), None);
    assert_eq!(parse_percent("ten"), None);
}

#[test]
fn names_stand_with_one_space_between_them() {
    assert_eq!(split_names("a.arr"), Some(vec![String::from("a.arr")]));
    assert_eq!(
        split_names("a.arr b c.arr"),
        Some(vec![String::from("a.arr"), String::from("b"), String::from("c.arr")])
    );
    assert_eq!(split_names(""), None);
    assert_eq!(split_names(" a"), None);
    assert_eq!(split_names("a "), None);
    assert_eq!(split_names("a  b"), None);
}
