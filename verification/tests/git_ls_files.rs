use rtk::cmds::git::git_ls_files::filter_git_ls_files;

#[test]
fn test_git_ls_files_empty() {
    let result = filter_git_ls_files("");
    assert!(result.is_ok());
    assert_eq!(result.unwrap(), "");
}

#[test]
fn test_git_ls_files_small_no_truncation() {
    let small_list = (0..50)
        .map(|i| format!("file_{}.txt", i))
        .collect::<Vec<_>>()
        .join("\n");

    let result = filter_git_ls_files(&small_list);
    assert!(result.is_ok());
    let output = result.unwrap();
    // Should be identical (no truncation)
    assert_eq!(output, small_list);
}

#[test]
fn test_git_ls_files_large_truncated() {
    let large_list = (0..2000)
        .map(|i| format!("file_{}.txt", i))
        .collect::<Vec<_>>()
        .join("\n");

    let result = filter_git_ls_files(&large_list);
    assert!(result.is_ok());
    let output = result.unwrap();
    // Should be truncated
    assert!(output.len() < large_list.len() / 2);
    assert!(output.contains("[1950 more files]"));
    assert!(output.contains("Total: 2000 files"));
}

#[test]
fn test_git_ls_files_large_token_savings() {
    let large_list = (0..3000)
        .map(|i| format!("src/module_{}/file_{}.rs", i / 10, i))
        .collect::<Vec<_>>()
        .join("\n");

    let result = filter_git_ls_files(&large_list);
    assert!(result.is_ok());
    let output = result.unwrap();
    // Basic assertion that output is much smaller
    assert!(output.len() < large_list.len() / 2);
}

#[test]
fn test_git_ls_files_exactly_1000() {
    let list_1000 = (0..1000)
        .map(|i| format!("file_{}.txt", i))
        .collect::<Vec<_>>()
        .join("\n");

    let result = filter_git_ls_files(&list_1000);
    assert!(result.is_ok());
    let output = result.unwrap();
    // At exactly 1000, should not truncate
    assert_eq!(output, list_1000);
}

#[test]
fn test_git_ls_files_1001() {
    let list_1001 = (0..1001)
        .map(|i| format!("file_{}.txt", i))
        .collect::<Vec<_>>()
        .join("\n");

    let result = filter_git_ls_files(&list_1001);
    assert!(result.is_ok());
    let output = result.unwrap();
    // At 1001, should truncate
    assert!(output.len() < list_1001.len() / 2);
}

#[test]
fn git_ls_files_exact_truncation() {
    let list = (0..1001).map(|i| format!("f{}", i)).collect::<Vec<_>>().join("\n");
    let mut expected = (0..50).map(|i| format!("f{}", i)).collect::<Vec<_>>();
    expected.push("[951 more files]".to_string());
    expected.push("Total: 1001 files".to_string());
    assert_eq!(filter_git_ls_files(&list).unwrap(), expected.join("\n"));
}

#[test]
fn git_ls_files_small_listing_keeps_trailing_newline() {
    let list = "a.rs\r\nb.rs\n";
    assert_eq!(filter_git_ls_files(list).unwrap(), list);
}

#[test]
fn git_ls_files_idempotent() {
    let list = (0..1500).map(|i| format!("dir/f{}.rs", i)).collect::<Vec<_>>().join("\n");
    let once = filter_git_ls_files(&list).unwrap();
    let twice = filter_git_ls_files(&once).unwrap();
    assert_eq!(once, twice);
    assert_eq!(once.lines().count(), 52);
}
