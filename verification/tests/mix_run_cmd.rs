use rtk::cmds::elixir::mix_run_cmd::{filter_mix_run, MixRunArgs, condense_mix_run, MixRunMarks};

#[test]
fn test_mix_run_empty_input() {
    let result = filter_mix_run("");
    assert!(result.is_ok());
    assert_eq!(result.unwrap(), "");
}

#[test]
fn test_mix_run_single_line() {
    let input = "Hello from Elixir!";
    let result = filter_mix_run(input);
    assert!(result.is_ok());
    assert!(result.unwrap().contains("Hello"));
}

#[test]
fn test_mix_run_filters_setup() {
    let input = "Resolving dependencies\nCompiling\nHello from script";
    let result = filter_mix_run(input);
    assert!(result.is_ok());
    let output = result.unwrap();
    assert!(!output.contains("Resolving"));
    assert!(!output.contains("Compiling"));
    assert!(output.contains("Hello"));
}

#[test]
fn mix_run_keeps_setup_words_after_script_starts() {
    let input = "Compiling 3 files\n  Generated app\nstart\nCompiling later\nError: oops";
    assert_eq!(
        filter_mix_run(input).unwrap(),
        "start\nCompiling later\nError: oops"
    );
}

#[test]
fn mix_run_setup_line_with_error_is_dropped() {
    // during setup, a setup line is dropped even when it names an error
    let input = "Compiling error_handler.ex\nrunning";
    assert_eq!(filter_mix_run(input).unwrap(), "running");
}

#[test]
fn mix_run_blank_lines_condensed() {
    let input = "\n\nCompiling\n\n\nout\n \n\nend";
    assert_eq!(filter_mix_run(input).unwrap(), "\n\nout\n\nend");
}

#[test]
fn mix_run_to_cmd_args() {
    let args = MixRunArgs { args: vec!["script.exs".to_string(), "--x".to_string()] };
    assert_eq!(
        args.to_cmd_args(),
        vec!["run".to_string(), "script.exs".to_string(), "--x".to_string()]
    );
    let empty = MixRunArgs { args: vec![] };
    assert_eq!(empty.to_cmd_args(), vec!["run".to_string()]);
}

#[test]
fn mix_run_condense_follows_marks() {
    let lines: Vec<String> = vec!["s1".into(), "".into(), "s2".into(), "x".into(), "s3".into()];
    let setup = MixRunMarks { setup: true, error: false };
    let other = MixRunMarks { setup: false, error: false };
    let marks = vec![setup, other, setup, other, setup];
    assert_eq!(condense_mix_run(&lines, &marks), vec!["", "x", "s3"]);
}
