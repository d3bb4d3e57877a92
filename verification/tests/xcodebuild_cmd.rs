use rtk::cmds::apple::xcodebuild_cmd::{filter_xcodebuild, XcodebuildArgs, condense_xcodebuild, XcodebuildMarks};

#[test]
fn test_xcodebuild_empty_input() {
    let result = filter_xcodebuild("");
    assert!(result.is_ok());
    assert_eq!(result.unwrap(), "");
}

#[test]
fn test_xcodebuild_single_line() {
    let input = "Build complete!";
    let result = filter_xcodebuild(input);
    assert!(result.is_ok());
    assert!(result.unwrap().contains("Build complete"));
}

#[test]
fn test_xcodebuild_removes_compile_lines() {
    let input = "CompileSwift /path/to/file.swift\nBuild complete!";
    let result = filter_xcodebuild(input);
    assert!(result.is_ok());
    let output = result.unwrap();
    assert!(!output.contains("CompileSwift"));
    assert!(output.contains("Build complete"));
}

#[test]
fn test_xcodebuild_preserves_errors() {
    let input = "CompileSwift /path/to/file.swift\nerror: syntax error\nBuild failed";
    let result = filter_xcodebuild(input);
    assert!(result.is_ok());
    let output = result.unwrap();
    assert!(output.contains("error"));
    assert!(output.contains("Build failed"));
    assert!(!output.contains("CompileSwift"));
}

#[test]
fn xcodebuild_exact_output() {
    let input = "Ld /tmp/app\nerror: boom\nCodeSign x\nnote: environment\nwarning: careful\n** BUILD SUCCEEDED **";
    assert_eq!(
        filter_xcodebuild(input).unwrap(),
        "error: boom\nnote: environment\nwarning: careful\n** BUILD SUCCEEDED **"
    );
}

#[test]
fn xcodebuild_condenses_blank_runs() {
    let input = "a\n\n   \n\t\nb\n\nc";
    assert_eq!(filter_xcodebuild(input).unwrap(), "a\n\nb\n\nc");
}

#[test]
fn xcodebuild_leading_blank_lines_become_one() {
    let input = "\n\n\nBuild complete!\n";
    assert_eq!(filter_xcodebuild(input).unwrap(), "\nBuild complete!");
}

#[test]
fn xcodebuild_compile_line_between_blank_runs() {
    // a dropped compile line still ends a blank run
    let input = "a\n\nCompileC foo.c\n\nb";
    assert_eq!(filter_xcodebuild(input).unwrap(), "a\n\n\nb");
}

#[test]
fn xcodebuild_compile_only_at_line_start() {
    let input = "  CompileSwift indented\nnot Compile at start";
    assert_eq!(
        filter_xcodebuild(input).unwrap(),
        "  CompileSwift indented\nnot Compile at start"
    );
}

#[test]
fn xcodebuild_crlf_lines() {
    let input = "CompileSwift a\r\nBuild complete!\r\n";
    assert_eq!(filter_xcodebuild(input).unwrap(), "Build complete!");
}

#[test]
fn xcodebuild_output_lines_come_from_input() {
    let input = "CompileSwift a\nx\n\n\ny\nLink z\n\nfailed";
    let output = filter_xcodebuild(input).unwrap();
    let inputs: Vec<&str> = input.lines().collect();
    let outputs: Vec<&str> = output.lines().collect();
    assert!(outputs.len() <= inputs.len());
    for l in outputs {
        assert!(l.is_empty() || (inputs.contains(&l) && !l.starts_with("Compile") && !l.starts_with("Link")));
    }
}

#[test]
fn xcodebuild_to_cmd_args() {
    let args = XcodebuildArgs { args: vec!["-scheme".to_string(), "App".to_string()] };
    assert_eq!(args.to_cmd_args(), vec!["-scheme".to_string(), "App".to_string()]);
    let empty = XcodebuildArgs { args: vec![] };
    assert!(empty.to_cmd_args().is_empty());
}

#[test]
fn xcodebuild_condense_follows_marks() {
    let lines: Vec<String> = vec!["a".into(), "".into(), "  ".into(), "b".into(), "c".into()];
    let plain = XcodebuildMarks { compile_line: false, error_or_warning: false, build_result: false };
    let compile = XcodebuildMarks { compile_line: true, error_or_warning: false, build_result: false };
    let error = XcodebuildMarks { compile_line: false, error_or_warning: true, build_result: false };
    let marks = vec![plain, plain, plain, compile, error];
    assert_eq!(condense_xcodebuild(&lines, &marks), vec!["a", "", "c"]);
}
