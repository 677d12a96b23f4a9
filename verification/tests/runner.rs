use kira::{check_run, filter_timer_lines, outputs_agree, wait_action, Args, ArgsError, CliRequest, RunMismatch, WaitAction};

fn args(v: &[&str]) -> Vec<String> {
    v.iter().map(|s| s.to_string()).collect()
}

#[test]
fn filter_drops_timer_lines() {
    assert_eq!(filter_timer_lines("a\nTimer@1: 3ms\nb\n"), vec!["a", "b"]);
}

#[test]
fn filter_strips_crlf() {
    assert_eq!(filter_timer_lines("x\r\nTimer@2\r\ny"), vec!["x", "y"]);
}

#[test]
fn filter_empty_output() {
    assert_eq!(filter_timer_lines(""), Vec::<&str>::new());
    assert_eq!(filter_timer_lines("\n"), vec![""]);
    assert_eq!(filter_timer_lines("\n\n"), vec!["", ""]);
}

#[test]
fn filter_keeps_near_misses() {
    assert_eq!(filter_timer_lines("Timer\n Timer@x\ntimer@y"), vec!["Timer", " Timer@x", "timer@y"]);
    assert_eq!(filter_timer_lines("Timer@"), Vec::<&str>::new());
}

#[test]
fn filter_keeps_lone_carriage_return_at_end() {
    assert_eq!(filter_timer_lines("a\r"), vec!["a\r"]);
    assert_eq!(filter_timer_lines("a\r\r\nb"), vec!["a\r", "b"]);
}

#[test]
fn filter_matches_std_lines() {
    let text = "1\r\n2\n\nTimer@9\n好\r\n3\r";
    let expected: Vec<&str> = text.lines().filter(|l| !l.starts_with("Timer@")).collect();
    assert_eq!(filter_timer_lines(text), expected);
}

#[test]
fn parse_no_arguments() {
    match Args::parse(&args(&[])) {
        Ok(CliRequest::Run(a)) => assert_eq!(a.input_c_file, None),
        other => panic!("{:?}", other),
    }
}

#[test]
fn parse_input_file() {
    match Args::parse(&args(&["--input-c-file", "x.c"])) {
        Ok(CliRequest::Run(a)) => assert_eq!(a.input_c_file, Some("x.c".to_string())),
        other => panic!("{:?}", other),
    }
    match Args::parse(&args(&["--input-c-file", "x.c", "--input-c-file", "y.c"])) {
        Ok(CliRequest::Run(a)) => assert_eq!(a.input_c_file, Some("y.c".to_string())),
        other => panic!("{:?}", other),
    }
}

#[test]
fn parse_missing_value() {
    let r = Args::parse(&args(&["--input-c-file"]));
    assert!(matches!(r, Err(ArgsError::MissingValue)));
    assert_eq!(r.unwrap_err().message(), "missing value for --input-c-file");
}

#[test]
fn parse_help() {
    assert!(matches!(Args::parse(&args(&["-h"])), Ok(CliRequest::Help)));
    assert!(matches!(Args::parse(&args(&["--help", "--bogus"])), Ok(CliRequest::Help)));
    assert!(matches!(Args::parse(&args(&["--input-c-file", "a.c", "--help"])), Ok(CliRequest::Help)));
}

#[test]
fn parse_unknown_argument() {
    let r = Args::parse(&args(&["--bogus", "--help"]));
    match r {
        Err(e) => {
            assert!(matches!(&e, ArgsError::UnknownArgument(a) if a == "--bogus"));
            assert_eq!(e.message(), "unknown argument: --bogus");
        }
        other => panic!("{:?}", other),
    }
}

#[test]
fn outputs_agree_cases() {
    assert!(outputs_agree("1\n2", "1\n2"));
    assert!(outputs_agree("1\nTimer@1\n2", "1\n2\nTimer@5"));
    assert!(!outputs_agree("1\n2", "1\n3"));
    assert!(!outputs_agree("1\n2", "1\n2\n3"));
}

#[test]
fn check_run_exit_codes() {
    match check_run(0, 3, "a", "a") {
        Err(RunMismatch::ExitCode { kira_code, ref_code }) => assert_eq!((kira_code, ref_code), (0, 3)),
        other => panic!("{:?}", other),
    }
}

#[test]
fn check_run_trims_output() {
    assert!(check_run(1, 1, "  42\n\n", "42").is_ok());
    assert!(check_run(0, 0, "1\nTimer@7\n2\n", "\n1\n2").is_ok());
}

#[test]
fn check_run_output_mismatch() {
    match check_run(0, 0, " 1\n", "2 ") {
        Err(RunMismatch::Output { kira_output, ref_output }) => {
            assert_eq!(kira_output, "1");
            assert_eq!(ref_output, "2");
        }
        other => panic!("{:?}", other),
    }
}

#[test]
fn wait_action_cases() {
    assert_eq!(wait_action(true, 100, 10), WaitAction::Collect);
    assert_eq!(wait_action(false, 11, 10), WaitAction::Kill);
    assert_eq!(wait_action(false, 10, 10), WaitAction::Sleep);
    assert_eq!(wait_action(false, 0, 10), WaitAction::Sleep);
}

#[test]
fn test_source_names() {
    assert!(kira::is_test_source_name("a.c"));
    assert!(kira::is_test_source_name("main.sy"));
    assert!(kira::is_test_source_name(".x.c"));
    assert!(kira::is_test_source_name("a.b.sy"));
    assert!(!kira::is_test_source_name(".c"));
    assert!(!kira::is_test_source_name("a.in"));
    assert!(!kira::is_test_source_name("a.out"));
    assert!(!kira::is_test_source_name("c"));
    assert!(!kira::is_test_source_name("a."));
    assert!(!kira::is_test_source_name("a.cc"));
}

#[test]
fn c_file_names() {
    assert!(kira::is_c_file_name("test.c"));
    assert!(!kira::is_c_file_name("test.sy"));
    assert!(!kira::is_c_file_name(".c"));
    assert!(!kira::is_c_file_name("test"));
}

#[test]
fn select_cases_filters_and_sorts() {
    let names = args(&["b.sy", "a.in", "c.c", "a.sy", "B.c", "z.out", ".c", "好.c"]);
    assert_eq!(kira::select_cases(&names), args(&["B.c", "a.sy", "b.sy", "c.c", "好.c"]));
}

#[test]
fn select_cases_matches_path_sorting() {
    let names = args(&["10.c", "9.c", "1.sy", "x.in", "01.c"]);
    let mut paths: Vec<std::path::PathBuf> = names
        .iter()
        .map(|n| std::path::PathBuf::from("dir").join(n))
        .filter(|p| matches!(p.extension().and_then(|e| e.to_str()), Some("sy" | "c")))
        .collect();
    paths.sort();
    let expected: Vec<String> = paths
        .iter()
        .map(|p| p.file_name().unwrap().to_string_lossy().into_owned())
        .collect();
    assert_eq!(kira::select_cases(&names), expected);
}

#[test]
fn summarize_runs() {
    assert_eq!(kira::summarize(&vec![]), (0, 0, true));
    assert_eq!(kira::summarize(&vec![true, true]), (2, 2, true));
    assert_eq!(kira::summarize(&vec![true, false, true]), (3, 2, false));
}

#[test]
fn check_run_trims_unicode_white_space_only() {
    assert!(check_run(0, 0, "\u{3000}x\u{85}\u{2028}", "x").is_ok());
    match check_run(0, 0, "\u{200b}x", "x") {
        Err(RunMismatch::Output { kira_output, ref_output }) => {
            assert_eq!(kira_output, "\u{200b}x");
            assert_eq!(ref_output, "x");
        }
        other => panic!("{:?}", other),
    }
}
