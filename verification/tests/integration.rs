// Tests for the code health analyzer, run on in-memory file trees.

use healthpulse::analyzer::{
    analyze_checked, analyze_entries, collect_entries, count_functions, count_test_files,
    estimate_complexity, find_function_end, find_python_function_end, is_test_file,
    should_skip_dir, AnalysisResult, Category, FileEntry, Severity,
};
use healthpulse::config::Config;

fn entry(path: &str) -> FileEntry {
    let p = std::path::Path::new(path);
    FileEntry {
        path: path.to_string(),
        file_name: p.file_name().map(|n| n.to_string_lossy().to_string()).unwrap_or_default(),
        parent_dir: p
            .parent()
            .and_then(|d| d.file_name())
            .map(|n| n.to_string_lossy().to_string())
            .unwrap_or_default(),
    }
}

fn run(files: Vec<(&str, String)>, config: &Config) -> AnalysisResult {
    let candidates: Vec<FileEntry> = files.iter().map(|(p, _)| entry(p)).collect();
    let kept = collect_entries(candidates, config);
    let contents: Vec<Option<String>> = kept
        .iter()
        .map(|e| files.iter().find(|(p, _)| *p == e.path).map(|(_, c)| c.clone()))
        .collect();
    analyze_checked(&kept, &contents, config).expect("counters fit")
}

fn lines_of(text: &str) -> Vec<Vec<char>> {
    text.lines().map(|l| l.chars().collect()).collect()
}

#[test]
fn test_analyze_empty_dir() {
    let config = Config::default();
    let result = run(vec![], &config);

    assert_eq!(result.total_files, 0);
    assert_eq!(result.total_issues, 0);
    assert_eq!(result.critical, 0);
}

#[test]
fn test_analyze_finds_long_file() {
    let content: String = (0..600).map(|i| format!("line {} - this is content\n", i)).collect();
    let mut config = Config::default();
    config.max_file_length = 500;

    let result = run(vec![("/tmp/healthpulse_test_long/big.go", content)], &config);

    assert_eq!(result.total_files, 1);
    assert!(result.total_issues > 0, "Expected at least 1 issue, got {}", result.total_issues);
    let has_length_issue = result
        .issues
        .iter()
        .any(|i| i.category == Category::Length && i.message.contains("too long"));
    assert!(has_length_issue, "Should find a length issue for big file. Issues: {:?}", result.issues);
}

#[test]
fn test_analyze_finds_complex_file() {
    let mut content = String::new();
    for i in 0..200 {
        content.push_str(&format!("if i == {} {{\n", i));
        content.push_str("    for j := 0; j < 10; j++ {\n");
    }
    content.push_str(&"}\n".repeat(200));
    let mut config = Config::default();
    config.max_complexity = 10;

    let result = run(vec![("/tmp/healthpulse_test_complex/complex.go", content)], &config);

    assert_eq!(result.total_files, 1);
    let has_complexity_issue = result
        .issues
        .iter()
        .any(|i| i.category == Category::Complexity && i.message.contains("high complexity"));
    assert!(has_complexity_issue, "Should find a complexity issue for complex file");
}

#[test]
fn test_analyze_finds_function_too_long() {
    let mut content = String::from("package main\n\nfunc longFunc() {\n");
    for _ in 0..80 {
        content.push_str("    // function body line\n");
    }
    content.push_str("}\n");
    let mut config = Config::default();
    config.max_function_length = 50;

    let result = run(vec![("/tmp/healthpulse_test_func/long.go", content)], &config);

    assert_eq!(result.total_files, 1);
    let has_func_issue = result
        .issues
        .iter()
        .any(|i| i.category == Category::Length && i.message.contains("Function at line 3"));
    assert!(has_func_issue, "Should find a long function issue. Issues: {:?}", result.issues);
}

#[test]
fn test_analyze_respects_test_files() {
    let content: String = (0..600).map(|i| format!("func Test{}(t *testing.T) {{}}\n", i)).collect();
    let mut config = Config::default();
    config.max_file_length = 500;

    let result = run(vec![("/tmp/healthpulse_test_ignored/big_test.go", content)], &config);

    assert_eq!(result.total_files, 1);
    let has_length_issue = result
        .issues
        .iter()
        .any(|i| i.category == Category::Length && i.message.contains("too long"));
    assert!(!has_length_issue, "Test files should not trigger length issues. Issues: {:?}", result.issues);
}

#[test]
fn test_analyze_ignores_git_dir() {
    let config = Config::default();
    let result = run(
        vec![
            ("/tmp/healthpulse_test_git/main.go", "package main\n\nfunc main() {}\n".to_string()),
            ("/tmp/healthpulse_test_git/.git/HEAD", "ref: refs/heads/main\n".to_string()),
        ],
        &config,
    );

    assert_eq!(result.total_files, 1);
    assert!(!result.issues.iter().any(|i| i.file.contains(".git")));
}

#[test]
fn test_file_stats_collected() {
    let config = Config::default();
    let result = run(
        vec![("/tmp/healthpulse_test_stats/main.go", "package main\n\nfunc main() {}\n".to_string())],
        &config,
    );

    assert_eq!(result.total_files, 1);
    assert_eq!(result.total_lines, 3);
    assert!(result.file_stats.iter().any(|(k, _)| k.ends_with("main.go")));
}

#[test]
fn test_config_load() {
    let loaded = Config {
        max_complexity: 20,
        max_function_length: 100,
        max_file_length: 1000,
        ignore: vec!["vendor".to_string()],
    };
    let mut config = Config::default();
    config.load(loaded);

    assert_eq!(config.max_complexity, 20);
    assert_eq!(config.max_function_length, 100);
    assert_eq!(config.max_file_length, 1000);
    assert!(config.ignore.contains(&"vendor".to_string()));
}

#[test]
fn test_config_ignore_pattern() {
    let config = Config {
        ignore: vec!["target".to_string(), "node_modules".to_string()],
        ..Default::default()
    };

    assert!(config.should_ignore("target/main.go"));
    assert!(config.should_ignore("node_modules/pkg/main.js"));
    assert!(!config.should_ignore("src/main.go"));
}

#[test]
fn ratio_counts_source_and_test_files() {
    let entries: Vec<FileEntry> = (0..10).map(|i| entry(&format!("/tmp/healthpulse_test_ratio/source{}.go", i))).collect();
    let (sources, tests) = count_test_files(&entries);
    assert_eq!(sources, 10);
    assert_eq!(tests, 0);
}
