use ttb::app::XMode;
use ttb::cli::{not_a_directory, parse_args, parse_i64, parse_usize, read_command, Args, Command, Parsed};

fn argv(list: &[&str]) -> Vec<String> {
    list.iter().map(|s| s.to_string()).collect()
}

fn nums(argv: &[String]) -> Vec<Option<u64>> {
    argv.iter().map(|s| s.parse::<f64>().ok().map(f64::to_bits)).collect()
}

fn parse(list: &[&str]) -> Parsed {
    let argv = argv(list);
    let nums = nums(&argv);
    parse_args(&argv, &nums, 0)
}

fn view(list: &[&str]) -> Args {
    match parse(list) {
        Parsed::View(a) => a,
        Parsed::Bad(e) => panic!("{}", e),
        _ => panic!("no arguments for the viewer"),
    }
}

fn bad(list: &[&str]) -> String {
    match parse(list) {
        Parsed::Bad(e) => e,
        _ => panic!("accepted"),
    }
}

fn command(list: &[&str]) -> Command {
    let argv = argv(list);
    let nums = nums(&argv);
    read_command(&argv, &nums)
}

#[test]
fn the_defaults_stand() {
    let a = view(&["logs"]);
    assert_eq!(a.logdir, "logs");
    assert_eq!(a.refresh, None);
    assert!(a.follow);
    assert_eq!(a.smoothing, None);
    assert_eq!(a.xmode, XMode::Step);
    assert_eq!(a.max_runs, 8);
    assert_eq!(a.max_points, 100_000);
}

#[test]
fn every_option_is_read() {
    let a = view(&[
        "--refresh", "0.5", "--no-follow", "logs", "--smoothing", "0.9", "--x", "wall", "--max-runs", "+3",
        "--max-points", "0",
    ]);
    assert_eq!(a.refresh.map(f64::from_bits), Some(0.5));
    assert!(!a.follow);
    assert_eq!(a.smoothing.map(f64::from_bits), Some(0.9));
    assert_eq!(a.xmode, XMode::Wall);
    assert_eq!(a.max_runs, 3);
    assert_eq!(a.max_points, 0);
    assert_eq!(view(&["l", "--x", "reltime"]).xmode, XMode::RelTime);
    assert_eq!(view(&["l", "--x", "wall", "--x", "step"]).xmode, XMode::Step);
}

#[test]
fn each_mistake_has_its_message() {
    assert_eq!(bad(&[]), "missing LOGDIR");
    assert_eq!(bad(&["a", "b"]), "unexpected argument: b");
    assert_eq!(bad(&["a", "--what"]), "unknown option: --what");
    assert_eq!(bad(&["a", "-"]), "unknown option: -");
    assert_eq!(bad(&["a", "--refresh"]), "--refresh needs a number");
    assert_eq!(bad(&["a", "--refresh", "x"]), "--refresh needs a number");
    assert_eq!(bad(&["a", "--smoothing", "--x"]), "--smoothing needs a number");
    assert_eq!(bad(&["a", "--max-runs", "1.5"]), "--max-runs needs a whole number (0 = all)");
    assert_eq!(bad(&["a", "--max-runs", "-1"]), "--max-runs needs a whole number (0 = all)");
    assert_eq!(bad(&["a", "--max-points", ""]), "--max-points needs a whole number (0 = keep all)");
    assert_eq!(bad(&["a", "--x", "time"]), "--x must be step, reltime or wall");
    assert_eq!(bad(&["a", "--x"]), "--x must be step, reltime or wall");
    assert_eq!(not_a_directory("/x"), "not a directory: /x");
}

#[test]
fn help_and_version_come_before_later_mistakes() {
    assert!(matches!(parse(&["-h", "--what"]), Parsed::Help));
    assert!(matches!(parse(&["a", "--help"]), Parsed::Help));
    assert!(matches!(parse(&["-V"]), Parsed::Version));
    assert!(matches!(parse(&["a", "--version", "-h"]), Parsed::Version));
    assert!(matches!(parse(&["--what", "-h"]), Parsed::Bad(_)));
}

#[test]
fn whole_numbers_are_those_of_the_standard_library() {
    for s in [
        "0", "7", "007", "+5", "-5", "+", "-", "", " 1", "1 ", "1_0", "18446744073709551615", "18446744073709551616",
        "9223372036854775807", "9223372036854775808", "-9223372036854775808", "-9223372036854775809", "--1", "+-1",
        "٣", "99999999999999999999999999",
    ] {
        assert_eq!(parse_usize(s), s.parse::<usize>().ok(), "{:?}", s);
        assert_eq!(parse_i64(s), s.parse::<i64>().ok(), "{:?}", s);
    }
}

#[test]
fn commands_are_told_apart() {
    match command(&["ttb", "gen-demo"]) {
        Command::GenDemo(dir, steps, live) => {
            assert_eq!((dir.as_str(), steps, live), ("demo_logs", 5000, false));
        }
        _ => panic!("not gen-demo"),
    }
    match command(&["ttb", "gen-demo", "d", "--steps", "12", "what", "--live"]) {
        Command::GenDemo(dir, steps, live) => {
            assert_eq!((dir.as_str(), steps, live), ("d", 12, true));
        }
        _ => panic!("not gen-demo"),
    }
    match command(&["ttb", "gen-demo", "d", "--steps", "x"]) {
        Command::GenDemo(_, steps, _) => assert_eq!(steps, 5000),
        _ => panic!("not gen-demo"),
    }
    match command(&["ttb", "bench", "d", "--max-points", "9"]) {
        Command::Bench(dir, cap) => assert_eq!((dir.as_str(), cap), ("d", 9)),
        _ => panic!("not bench"),
    }
    match command(&["ttb", "bench"]) {
        Command::Bench(dir, cap) => assert_eq!((dir.as_str(), cap), (".", 0)),
        _ => panic!("not bench"),
    }
    assert!(matches!(command(&["ttb", "logs"]), Command::Viewer(Parsed::View(_))));
    assert!(matches!(command(&["ttb"]), Command::Viewer(Parsed::Bad(_))));
    assert!(matches!(command(&[]), Command::Viewer(Parsed::Bad(_))));
    assert!(matches!(command(&["ttb", "logs", "gen-demo"]), Command::Viewer(Parsed::Bad(_))));
}
