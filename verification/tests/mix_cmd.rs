use rtk::cmds::elixir::mix_cmd::{filter_mix, flush_dep_buffer, MixArgs, condense_mix, MixMarks};

#[test]
fn test_mix_empty_input() {
    let result = filter_mix("");
    assert!(result.is_ok());
    assert_eq!(result.unwrap(), "");
}

#[test]
fn test_mix_single_line() {
    let input = "Finished in 0.5 seconds";
    let result = filter_mix(input);
    assert!(result.is_ok());
    assert!(result.unwrap().contains("Finished"));
}

#[test]
fn test_mix_removes_progress_dots() {
    let input = "...\n....\nDone";
    let result = filter_mix(input);
    assert!(result.is_ok());
    let output = result.unwrap();
    assert!(!output.contains("..."));
    assert!(output.contains("Done"));
}

#[test]
fn test_mix_preserves_errors() {
    let input = "error: something went wrong\nDone";
    let result = filter_mix(input);
    assert!(result.is_ok());
    let output = result.unwrap();
    assert!(output.contains("error"));
}

#[test]
fn mix_long_progress_lines_are_kept() {
    // ten bytes or more is not treated as progress noise
    let input = "..........\n|||\nok";
    assert_eq!(filter_mix(input).unwrap(), "..........\nok");
}

#[test]
fn mix_few_dependencies_are_kept() {
    let input = "Resolving Hex dependencies...\njason v1.4.0\nplug v1.14.2\nDone";
    assert_eq!(
        filter_mix(input).unwrap(),
        "Resolving Hex dependencies...\njason v1.4.0\nplug v1.14.2\nDone"
    );
}

#[test]
fn mix_many_dependencies_are_condensed() {
    let input = "a v1.0\nb v2.0\nc v3.0\nd v4.0\ne v5.0\nGenerated app";
    assert_eq!(
        filter_mix(input).unwrap(),
        "a v1.0\n[3 more dependencies]\ne v5.0\nGenerated app"
    );
}

#[test]
fn mix_dependencies_at_end_are_flushed() {
    let input = "Compiled\na v1.0\nb v2.0\nc v3.0\nd v4.0";
    assert_eq!(
        filter_mix(input).unwrap(),
        "Compiled\na v1.0\n[2 more dependencies]\nd v4.0"
    );
}

#[test]
fn mix_blank_line_inside_dependency_group() {
    // blank lines do not end a group of dependency lines
    let input = "a v1.0\n\nb v2.0\nDone";
    assert_eq!(filter_mix(input).unwrap(), "\na v1.0\nb v2.0\nDone");
}

#[test]
fn mix_setup_notices_shown_once_per_kind() {
    let input = "Resolving deps\nResolving more\nLoading config\nLoading again\nChecking x";
    assert_eq!(
        filter_mix(input).unwrap(),
        "Resolving deps\nLoading config\nChecking x"
    );
}

#[test]
fn mix_setup_notice_with_error_is_kept() {
    let input = "Resolving deps\nResolving failed badly";
    assert_eq!(filter_mix(input).unwrap(), "Resolving deps\nResolving failed badly");
}

#[test]
fn mix_condenses_blank_runs() {
    let input = "x\n\n\n\ny\n";
    assert_eq!(filter_mix(input).unwrap(), "x\n\ny");
}

#[test]
fn mix_output_is_never_longer_in_lines() {
    let input = "a v1\nb v1\nc v1\nd v1\ne v1\nf v1\n\n\nerror: x\n...\nwarning: y";
    let output = filter_mix(input).unwrap();
    assert!(output.lines().count() <= input.lines().count());
    assert!(output.contains("error: x"));
    assert!(output.contains("warning: y"));
}

#[test]
fn flush_small_group() {
    let mut out = vec!["x".to_string()];
    let mut deps = vec!["a v1".to_string(), "b v1".to_string()];
    flush_dep_buffer(&mut out, &mut deps);
    assert_eq!(out, vec!["x", "a v1", "b v1"]);
    assert!(deps.is_empty());
}

#[test]
fn flush_large_group() {
    let mut out: Vec<String> = vec![];
    let mut deps: Vec<String> = (0..12).map(|i| format!("d{} v1", i)).collect();
    flush_dep_buffer(&mut out, &mut deps);
    assert_eq!(out, vec!["d0 v1", "[10 more dependencies]", "d11 v1"]);
    assert!(deps.is_empty());
}

#[test]
fn mix_to_cmd_args() {
    let args = MixArgs { args: vec!["compile".to_string(), "--force".to_string()] };
    assert_eq!(args.to_cmd_args(), vec!["compile".to_string(), "--force".to_string()]);
}

#[test]
fn mix_condense_follows_marks() {
    let none = MixMarks {
        progress: false,
        dep_download: false,
        error_warning: false,
        summary: false,
        setup_notice: false,
    };
    let dep = MixMarks { dep_download: true, ..none };
    let progress = MixMarks { progress: true, ..none };
    let notice = MixMarks { setup_notice: true, ..none };
    let lines: Vec<String> = vec![
        "Fetch one".into(),
        "Fetch two".into(),
        "d1".into(),
        "d2".into(),
        "d3".into(),
        "d4".into(),
        "..".into(),
        "a long progress line".into(),
    ];
    let marks = vec![notice, notice, dep, dep, dep, dep, progress, progress];
    assert_eq!(
        condense_mix(&lines, &marks),
        vec!["Fetch one", "d1", "[2 more dependencies]", "d4", "a long progress line"]
    );
}

#[test]
fn mix_repeated_blank_line_changes_nothing() {
    let once = "a v1\nb v1\n\nc v1\nd v1\nerror: e\n  \nDone";
    let twice = "a v1\nb v1\n\n\nc v1\nd v1\nerror: e\n  \n  \nDone";
    assert_eq!(filter_mix(once).unwrap(), filter_mix(twice).unwrap());
}

#[test]
fn mix_counts_at_least_two_left_out_dependencies() {
    let input = "a v1\nb v1\nc v1\nd v1";
    let output = filter_mix(input).unwrap();
    assert!(output.contains("[2 more dependencies]"));
    for l in output.split('\n') {
        assert!(l.is_empty() || input.lines().any(|i| i == l) || l == "[2 more dependencies]");
    }
}
