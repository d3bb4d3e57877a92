use rtk::cmds::elixir::mix_test_cmd::{filter_mix_test, MixTestArgs, condense_mix_test, MixTestMarks};

#[test]
fn test_mix_test_empty_input() {
    let result = filter_mix_test("");
    assert!(result.is_ok());
    assert_eq!(result.unwrap(), "");
}

#[test]
fn test_mix_test_single_line() {
    let input = "1 passed";
    let result = filter_mix_test(input);
    assert!(result.is_ok());
    assert!(result.unwrap().contains("passed"));
}

#[test]
fn test_mix_test_preserves_failures() {
    let input = "1) test_failure\nerror: failure reason\n2 passed";
    let result = filter_mix_test(input);
    assert!(result.is_ok());
    let output = result.unwrap();
    assert!(output.contains("test_failure"));
    assert!(output.contains("error"));
}

#[test]
fn mix_test_drops_passing_and_noise() {
    let input = "  \u{2713} test one (3ms)\nsome noise\nFinished in 0.1 seconds\n5 passed, 0 failures\nwarning: unused";
    assert_eq!(
        filter_mix_test(input).unwrap(),
        "Finished in 0.1 seconds\n5 passed, 0 failures\nwarning: unused"
    );
}

#[test]
fn mix_test_failure_report_continues_after_blank_lines() {
    let input = "noise\n  1) test fails (M)\n     code: x\n\n\n     stack\n  2) test also\nrandom";
    assert_eq!(
        filter_mix_test(input).unwrap(),
        "  1) test fails (M)\n     code: x\n\n     stack\n  2) test also\nrandom"
    );
}

#[test]
fn mix_test_passing_verbose_lines_are_dropped() {
    let result = filter_mix_test("  1) test adds ok\n2 passed");
    assert!(result.is_ok());
    let output = result.unwrap();
    assert!(!output.contains("test adds ok"));
    assert!(output.contains("2 passed"));
    assert_eq!(output, "2 passed");
}

#[test]
fn mix_test_report_runs_past_blank_lines() {
    let input = "1) test_failure\nerror: boom\n\n3 passed\nnoise";
    assert_eq!(filter_mix_test(input).unwrap(), "1) test_failure\nerror: boom\n\n3 passed\nnoise");
}

#[test]
fn mix_test_passing_line_ends_report() {
    let input = "1) test_failure\ndetail\n  2) test fine ok\nnoise\n3 passed";
    assert_eq!(filter_mix_test(input).unwrap(), "1) test_failure\ndetail\n3 passed");
}

#[test]
fn mix_test_repeated_blank_line_changes_nothing() {
    let once = "1) test_failure\n\nnoise\n2 passed";
    let twice = "1) test_failure\n\n\nnoise\n2 passed";
    assert_eq!(filter_mix_test(once).unwrap(), filter_mix_test(twice).unwrap());
}

#[test]
fn mix_test_output_keeps_input_order() {
    let input = "a\n1) test x\n  b\n\n\n4 passed\nwarning: w";
    let output = filter_mix_test(input).unwrap();
    let mut condensed: Vec<&str> = Vec::new();
    for l in input.lines() {
        let blank = l.trim().is_empty();
        if blank {
            if condensed.last() != Some(&"") {
                condensed.push("");
            }
        } else {
            condensed.push(l);
        }
    }
    let mut rest = condensed.iter();
    for l in output.split('\n') {
        assert!(rest.any(|c| *c == l), "{:?}", l);
    }
}

#[test]
fn mix_test_blank_lines_condensed() {
    let input = "\n\n3 passed\n\n";
    assert_eq!(filter_mix_test(input).unwrap(), "\n3 passed\n");
}

#[test]
fn mix_test_to_cmd_args() {
    let args = MixTestArgs { args: vec!["--trace".to_string()] };
    assert_eq!(args.to_cmd_args(), vec!["test".to_string(), "--trace".to_string()]);
}

#[test]
fn mix_test_condense_follows_marks() {
    let none = MixTestMarks {
        test_result: false,
        passing_test: false,
        test_number: false,
        error: false,
        summary: false,
        warning: false,
    };
    let passing = MixTestMarks { passing_test: true, summary: true, ..none };
    let summary = MixTestMarks { summary: true, ..none };
    let numbered = MixTestMarks { test_number: true, ..none };
    let lines: Vec<String> =
        vec!["p".into(), "s".into(), "n".into(), "q".into(), "".into(), "".into(), "r".into()];
    let marks = vec![passing, summary, none, numbered, none, none, passing];
    assert_eq!(condense_mix_test(&lines, &marks), vec!["s", "q", ""]);
}
