// Unit tests of the analyzer, the configuration and the report renderers.

use healthpulse::analyzer::{
    analyze_checked, analyze_entries, analyze_file, braces_fit_in, collect_entries, count_functions,
    kept_indices,
    estimate_complexity, find_function_end, find_python_function_end, is_test_file,
    should_skip_dir, AnalysisResult, Category, FileEntry, FileStats, Issue, Severity,
};
use healthpulse::config::Config;
use healthpulse::output::{
    decimal_string, is_char_boundary_at, shown_paths_can_be_cut, truncate, Output,
};
use healthpulse::text::{split_lines, str_contains, to_chars, trim_bounds};

fn entry(path: &str, name: &str, parent: &str) -> FileEntry {
    FileEntry { path: path.to_string(), file_name: name.to_string(), parent_dir: parent.to_string() }
}

fn lines_of(text: &str) -> Vec<Vec<char>> {
    text.lines().map(|l| l.chars().collect()).collect()
}

// The original text report, written out with plain strings for the counts.
fn expected_text(result: &AnalysisResult, crit: &str, warn: &str, info: &str) -> String {
    let mut output = String::new();
    output.push_str("╔══════════════════════════════════════════════╗\n");
    output.push_str("║           Code Health Report                  ║\n");
    output.push_str("╚══════════════════════════════════════════════╝\n\n");
    output.push_str(&format!("  Files scanned:    {}\n", result.total_files));
    output.push_str(&format!("  Total lines:      {}\n\n", result.total_lines));
    output.push_str("  Issues:\n");
    output.push_str(&format!("    🚨 Critical:  {}\n", crit));
    output.push_str(&format!("    ⚠️  Warning:  {}\n", warn));
    output.push_str(&format!("    ℹ️  Info:     {}\n\n", info));
    if result.total_issues == 0 {
        output.push_str("  ✅ No issues found! Great code health!\n\n");
    } else {
        let complexity: Vec<_> = result.issues.iter().filter(|i| i.category == Category::Complexity).collect();
        let length: Vec<_> = result.issues.iter().filter(|i| i.category == Category::Length).collect();
        let tests: Vec<_> = result.issues.iter().filter(|i| i.category == Category::TestCoverage).collect();
        if !complexity.is_empty() {
            output.push_str(&format!("  📊 Complexity ({})\n", complexity.len()));
            for issue in &complexity[..complexity.len().min(5)] {
                let line_str = issue.line.map(|l| format!(" (line {})", l)).unwrap_or_default();
                output.push_str(&format!("    - {}{}\n", issue.message, line_str));
            }
            output.push('\n');
        }
        if !length.is_empty() {
            output.push_str(&format!("  📏 Length ({})\n", length.len()));
            for issue in &length[..length.len().min(5)] {
                let line_str = issue.line.map(|l| format!(" (line {})", l)).unwrap_or_default();
                output.push_str(&format!("    - {}{}\n", issue.message, line_str));
            }
            output.push('\n');
        }
        if !tests.is_empty() {
            output.push_str(&format!("  🧪 Tests ({})\n", tests.len()));
            for issue in &tests {
                output.push_str(&format!("    - {}\n", issue.message));
            }
            output.push('\n');
        }
    }
    output.push_str("  Files analyzed:\n");
    output.push_str(&format!("    {:<45} {:>8} {:>8}\n", "File", "Lines", "Complexity"));
    output.push_str(&format!("    {:─<45} {:─<8} {:─<8}\n", "", "", ""));
    let mut files: Vec<_> = result.file_stats.iter().collect();
    files.sort_by_key(|a| std::cmp::Reverse(a.1.lines));
    for (path, stats) in &files[..files.len().min(20)] {
        let shown = if path.len() > 45 { format!("...{}", &path[path.len() - 45 + 4..]) } else { path.to_string() };
        output.push_str(&format!("    {:<45} {:>8} {:>8}\n", shown, stats.lines, stats.complexity));
    }
    output
}

// The original Markdown report.
fn expected_markdown(result: &AnalysisResult) -> String {
    let mut output = String::new();
    output.push_str("# Code Health Report\n\n");
    output.push_str("## Summary\n\n");
    output.push_str("| Metric | Value |\n|--------|-------|\n");
    output.push_str(&format!("| Files scanned | {} |\n", result.total_files));
    output.push_str(&format!("| Total lines | {} |\n", result.total_lines));
    output.push_str(&format!("| Critical issues | {} |\n", result.critical));
    output.push_str(&format!("| Warnings | {} |\n", result.warnings));
    output.push_str(&format!("| Info | {} |\n", result.infos));
    if !result.issues.is_empty() {
        output.push_str("\n## Issues\n\n");
        for (cat, title) in [
            (Category::Complexity, "### Complexity\n\n"),
            (Category::Length, "### Length\n\n"),
            (Category::TestCoverage, "### Tests\n\n"),
        ] {
            let group: Vec<_> = result.issues.iter().filter(|i| i.category == cat).collect();
            if !group.is_empty() {
                output.push_str(title);
                output.push_str("| File | Message | Line |\n");
                output.push_str("|------|---------|------|\n");
                for issue in &group {
                    let line = issue.line.map(|l| l.to_string()).unwrap_or_default();
                    output.push_str(&format!("| `{}` | {} | {} |\n", issue.file, issue.message, line));
                }
                output.push('\n');
            }
        }
    }
    output
}

fn sample_result() -> AnalysisResult {
    let mut long_go = String::from("package main\n\nfunc longFunc() {\n");
    for _ in 0..60 {
        long_go.push_str("    if x { y }\n");
    }
    long_go.push_str("}\n");
    let mut py = String::from("def f():\n");
    for _ in 0..55 {
        py.push_str("    x = 1\n");
    }
    py.push_str("y = 2\n");
    let entries = vec![
        entry("src/long.go", "long.go", "src"),
        entry("src/tool.py", "tool.py", "src"),
        entry("src/missing.go", "missing.go", "src"),
        entry("tests/util.go", "util.go", "tests"),
    ];
    let contents = vec![Some(long_go), Some(py), None, Some("func a() {}\n".to_string())];
    let mut config = Config::default();
    config.max_complexity = 10;
    analyze_entries(&entries, &contents, &config)
}

#[test]
fn counts_go_function_declarations() {
    assert_eq!(count_functions("package main\n\nfunc a() {}\n  func b() {\n}\n"), 2);
    assert_eq!(count_functions("\tfunc c() {}\nfuncx\nxfunc d\n"), 1);
    assert_eq!(count_functions(""), 0);
}

#[test]
fn unicode_white_space_is_trimmed() {
    // U+3000 is white space: the declaration behind it still counts.
    assert_eq!(count_functions("\u{3000}func x() {}\n"), 1);
    let line: Vec<char> = " \u{a0}ab \t".chars().collect();
    assert_eq!(trim_bounds(&line), (2, 4));
}

#[test]
fn complexity_counts_branch_lines() {
    let text = "if a {\n} else if b {\n}\nfor {\n  case 1:\n  && x\n  || y\nswitch z\nelse if q\n";
    assert_eq!(estimate_complexity(text), 8);
    assert_eq!(estimate_complexity(""), 1);
    assert_eq!(estimate_complexity("iff\nfor\n"), 1);
}

#[test]
fn lines_follow_str_lines() {
    for text in ["", "\n", "a", "a\n", "a\r\nb", "a\r\n\r\n", "x\ry\n", "a\n\nb\n", "trail\r"] {
        let ours: Vec<String> = split_lines(text).iter().map(|l| l.iter().collect()).collect();
        let std_lines: Vec<String> = text.lines().map(|l| l.to_string()).collect();
        assert_eq!(ours, std_lines, "text {:?}", text);
    }
}

#[test]
fn brace_function_end() {
    assert_eq!(find_function_end(&lines_of("func a() {\nx\n}\ny\n")), Some(2));
    assert_eq!(find_function_end(&lines_of("func a()\n{\n}\n")), Some(2));
    assert_eq!(find_function_end(&lines_of("func a() {\n")), None);
    assert_eq!(find_function_end(&lines_of("func x() {}\n")), Some(0));
    assert_eq!(find_function_end(&lines_of("func x() }\n")), None);
    assert_eq!(find_function_end(&[]), None);
    assert!(braces_fit_in("func a() {\n}\n"));
}

#[test]
fn indent_function_end() {
    assert_eq!(find_python_function_end(&lines_of("def f():\n    x = 1\n    y = 2\nz = 3\n")), Some(2));
    assert_eq!(find_python_function_end(&lines_of("def f():\n\n    x\n")), Some(2));
    assert_eq!(
        find_python_function_end(&lines_of("def f():\n    x\n    # c\n# comment\ny\n")),
        Some(3)
    );
    assert_eq!(find_python_function_end(&lines_of("    def f():\n        a\n    b\n")), Some(1));
    // Indentation is measured in bytes: one U+3000 takes three.
    assert_eq!(find_python_function_end(&lines_of("\u{3000}def f():\n  a\n  b\n")), Some(0));
    assert_eq!(find_python_function_end(&lines_of("def f():\n")), Some(0));
    assert_eq!(find_python_function_end(&[]), None);
}

#[test]
fn skipped_directories() {
    assert!(should_skip_dir("repo/.git/HEAD"));
    assert!(should_skip_dir("repo/node_modules/x.js"));
    assert!(should_skip_dir("repo/distance/a.go"));
    assert!(!should_skip_dir("repo/src/main.go"));
}

#[test]
fn test_file_names() {
    assert!(is_test_file(&entry("a/foo_test.go", "foo_test.go", "a")));
    assert!(is_test_file(&entry("a/test_foo.py", "test_foo.py", "a")));
    assert!(is_test_file(&entry("a/test-foo.js", "test-foo.js", "a")));
    assert!(is_test_file(&entry("tests/util.go", "util.go", "tests")));
    assert!(!is_test_file(&entry("a/mytest-a.go", "mytest-a.go", "a")));
    assert!(!is_test_file(&entry("testsuite/a.go", "a.go", "testsuite")));
}

#[test]
fn substring_and_chars() {
    assert!(str_contains("abcabd", "abd"));
    assert!(!str_contains("abcab", "abd"));
    assert!(str_contains("x", ""));
    assert_eq!(to_chars("hé"), vec!['h', 'é']);
}

#[test]
fn truncation_keeps_the_end() {
    assert_eq!(truncate("short/path.go", 45), "short/path.go");
    let long = "x".repeat(50);
    assert_eq!(truncate(&long, 45), format!("...{}", "x".repeat(41)));
    let wide = format!("{}a", "é".repeat(30));
    let cut = truncate(&wide, 45);
    assert_eq!(cut, format!("...{}a", "é".repeat(20)));
    assert!(cut.len() < 45);
    assert!(!is_char_boundary_at("éa", 1));
    assert!(is_char_boundary_at("éa", 2));
    assert!(is_char_boundary_at("éa", 0));
    assert!(!is_char_boundary_at("éa", 4));
}

#[test]
fn decimal_strings() {
    assert_eq!(decimal_string(0), "0");
    assert_eq!(decimal_string(7), "7");
    assert_eq!(decimal_string(1234567890), "1234567890");
    assert_eq!(decimal_string(u64::MAX), u64::MAX.to_string());
}

#[test]
fn analysis_of_sample_tree() {
    let result = sample_result();
    assert_eq!(result.total_files, 4);
    assert_eq!(result.total_lines, 64 + 57 + 0 + 1);
    assert_eq!(result.critical, 0);
    assert_eq!(result.total_issues, result.issues.len());
    assert_eq!(result.total_issues, result.warnings + result.infos);
    let messages: Vec<&str> = result.issues.iter().map(|i| i.message.as_str()).collect();
    assert_eq!(
        messages,
        vec![
            "Function at line 3 is 62 lines (max 50)",
            "File has high complexity (61)",
            "Function at line 1 is 56 lines (max 50)",
        ]
    );
    assert_eq!(result.issues[0].line, Some(3));
    assert_eq!(result.issues[0].severity, Severity::Info);
    assert_eq!(result.issues[1].severity, Severity::Warning);
    assert_eq!(result.issues[1].category, Category::Complexity);
    assert_eq!(result.issues[1].line, None);
    assert_eq!(result.file_stats.len(), 4);
    assert_eq!(result.file_stats[0].0, "src/long.go");
    assert_eq!(result.file_stats[0].1.functions, 1);
    assert_eq!(result.file_stats[0].1.complexity, 61);
    assert_eq!(result.file_stats[2].1.lines, 0);
    assert!(result.file_stats[3].1.test_match);
}

#[test]
fn unreadable_file_counts_as_empty() {
    let e = entry("a/x.go", "x.go", "a");
    let (stats, issues) = analyze_file(&e, &None, &Config::default(), false);
    assert_eq!(stats.lines, 0);
    assert_eq!(stats.functions, 0);
    assert_eq!(stats.complexity, 0);
    assert!(!stats.test_match);
    assert!(issues.is_empty());
}

#[test]
fn repeated_path_keeps_one_row() {
    let entries = vec![entry("a/x.go", "x.go", "a"), entry("a/x.go", "x.go", "a")];
    let contents = vec![Some("a\n".to_string()), Some("a\nb\n".to_string())];
    let result = analyze_checked(&entries, &contents, &Config::default()).unwrap();
    assert_eq!(result.file_stats.len(), 1);
    assert_eq!(result.file_stats[0].1.lines, 2);
    assert_eq!(result.total_lines, 3);
}

#[test]
fn ignore_patterns_accumulate() {
    let mut config = Config::default();
    assert!(!config.should_ignore("a/gen/x.go"));
    config.add_ignore("gen");
    assert!(config.should_ignore("a/gen/x.go"));
    config.load(Config { max_complexity: 1, max_function_length: 2, max_file_length: 3, ignore: vec!["b".to_string()] });
    assert_eq!(config.ignore, vec!["gen".to_string(), "b".to_string()]);
    assert_eq!(config.max_file_length, 3);
}

#[test]
fn text_report_matches_layout() {
    let result = sample_result();
    assert!(shown_paths_can_be_cut(&result));
    let text = Output::Text.render_text_with(&result, "0", "1", "2");
    assert_eq!(text, expected_text(&result, "0", "1", "2"));
    let colored = Output::Text.render_text(&result);
    let plain = expected_text(&result, "0", "1", "2");
    let painted = expected_text(&result, "\u{1b}[1;31m0\u{1b}[0m", "\u{1b}[33m1\u{1b}[0m", "\u{1b}[36m2\u{1b}[0m");
    assert!(colored == plain || colored == painted);
}

#[test]
fn text_report_without_issues() {
    let entries = vec![entry("a/x.go", "x.go", "a")];
    let contents = vec![Some("package main\n".to_string())];
    let result = analyze_entries(&entries, &contents, &Config::default());
    let text = Output::Text.render_text_with(&result, "0", "0", "0");
    assert!(text.contains("No issues found"));
    assert_eq!(text, expected_text(&result, "0", "0", "0"));
}

#[test]
fn text_report_sorts_and_cuts_paths() {
    let long_path = format!("{}/deep.go", "d".repeat(60));
    let entries = vec![entry("a.go", "a.go", ""), entry(&long_path, "deep.go", "x"), entry("b.go", "b.go", "")];
    let contents = vec![Some("1\n".to_string()), Some("1\n2\n3\n".to_string()), Some("1\n".to_string())];
    let result = analyze_entries(&entries, &contents, &Config::default());
    let text = Output::Text.render_text_with(&result, "0", "0", "0");
    assert_eq!(text, expected_text(&result, "0", "0", "0"));
    let rows: Vec<&str> = text.lines().rev().take(3).collect();
    assert!(rows[2].contains("...d"));
    assert!(rows[1].starts_with("    a.go"));
    assert!(rows[0].starts_with("    b.go"));
}

#[test]
fn path_cut_inside_a_character_is_refused() {
    let path = format!("{}é", "a".repeat(44));
    // 46 bytes: the cut at byte 5 is fine.
    let ok = AnalysisResult {
        total_files: 1,
        total_lines: 0,
        total_issues: 0,
        critical: 0,
        warnings: 0,
        infos: 0,
        issues: vec![],
        file_stats: vec![(path, FileStats { lines: 0, functions: 0, complexity: 0, test_match: false })],
    };
    assert!(shown_paths_can_be_cut(&ok));
    let bad_path = format!("a{}", "é".repeat(30));
    let bad = AnalysisResult {
        file_stats: vec![(bad_path, FileStats { lines: 0, functions: 0, complexity: 0, test_match: false })],
        ..ok
    };
    assert!(!shown_paths_can_be_cut(&bad));
}

#[test]
fn markdown_report_matches_layout() {
    let result = sample_result();
    assert_eq!(Output::Markdown.render_markdown(&result), expected_markdown(&result));
    let empty = analyze_entries(&vec![], &vec![], &Config::default());
    assert_eq!(Output::Markdown.render_markdown(&empty), expected_markdown(&empty));
}

#[test]
fn json_report_fields() {
    let mut result = sample_result();
    result.issues.push(Issue {
        file: String::new(),
        severity: Severity::Warning,
        category: Category::TestCoverage,
        message: "Test ratio is low".to_string(),
        line: None,
    });
    let j = Output::Json.json_report(&result);
    assert_eq!(j.files_scanned, 4);
    assert_eq!(j.total, result.total_issues);
    assert_eq!(j.issues_list.len(), 4);
    assert_eq!(j.issues_list[0].severity, "info");
    assert_eq!(j.issues_list[0].category, "length");
    assert_eq!(j.issues_list[1].severity, "warning");
    assert_eq!(j.issues_list[1].category, "complexity");
    assert_eq!(j.issues_list[3].category, "testcoverage");
    assert_eq!(j.files.len(), 4);
    assert_eq!(j.files[0].path, "src/long.go");
    assert_eq!(j.files[0].lines, 64);
}

#[test]
fn complexity_above_the_limit_is_flagged() {
    let e = entry("a/x.go", "x.go", "a");
    let over = Some("if a {}\n".repeat(20));
    let (stats, issues) = analyze_file(&e, &over, &Config::default(), false);
    assert_eq!(stats.complexity, 21);
    assert_eq!(issues.len(), 1);
    assert_eq!(issues[0].category, Category::Complexity);
    assert_eq!(issues[0].severity, Severity::Warning);
    assert_eq!(issues[0].message, "File has high complexity (21)");
    let at = Some("if a {}\n".repeat(9));
    let (stats, issues) = analyze_file(&e, &at, &Config::default(), false);
    assert_eq!(stats.complexity, 10);
    assert!(issues.is_empty());
}

#[test]
fn markdown_lists_test_coverage_issues() {
    let mut result = analyze_entries(&vec![], &vec![], &Config::default());
    result.issues.push(Issue {
        file: String::new(),
        severity: Severity::Warning,
        category: Category::TestCoverage,
        message: "Test ratio is low (0%, recommended >= 30%)".to_string(),
        line: None,
    });
    let md = Output::Markdown.render_markdown(&result);
    assert_eq!(md, expected_markdown(&result));
    assert!(md.ends_with("### Tests\n\n| File | Message | Line |\n|------|---------|------|\n| `` | Test ratio is low (0%, recommended >= 30%) |  |\n\n"));
}

#[test]
fn counts_add_up_over_concatenated_texts() {
    let a = "func a() {\n  if x {\n  }\n}\n";
    let b = "for {\n}\nfunc b() {}\n  case 1:\n";
    let ab = format!("{}{}", a, b);
    assert_eq!(count_functions(&ab), count_functions(a) + count_functions(b));
    assert_eq!(estimate_complexity(&ab), estimate_complexity(a) + estimate_complexity(b) - 1);
    assert_eq!(count_functions("") + count_functions(b), count_functions(b));
}

#[test]
fn white_space_set() {
    for c in ['\t', '\n', '\u{b}', '\u{c}', '\r', ' ', '\u{85}', '\u{a0}', '\u{1680}', '\u{2000}', '\u{200a}', '\u{2028}', '\u{2029}', '\u{202f}', '\u{205f}', '\u{3000}'] {
        let line: Vec<char> = vec![c, 'x', c];
        assert_eq!(trim_bounds(&line), (1, 2), "{:?}", c);
    }
    for c in ['\u{180e}', '\u{200b}', '\u{feff}', 'a', '#'] {
        let line: Vec<char> = vec![c, 'x', c];
        assert_eq!(trim_bounds(&line), (0, 3), "{:?}", c);
    }
}

#[test]
fn table_rows_add_up_to_the_total() {
    let entries = vec![entry("a.go", "a.go", ""), entry("b.go", "b.go", ""), entry("c.go", "c.go", "")];
    let contents = vec![Some("1\n2\n".to_string()), None, Some("1\n2\n3\n".to_string())];
    let result = analyze_entries(&entries, &contents, &Config::default());
    assert_eq!(result.file_stats.len(), result.total_files);
    let sum: u64 = result.file_stats.iter().map(|(_, s)| s.lines).sum();
    assert_eq!(sum, result.total_lines);
}

#[test]
fn kept_positions_match_kept_entries() {
    let mut config = Config::default();
    config.add_ignore("gen");
    let candidates = vec![
        entry("src/a.go", "a.go", "src"),
        entry("src/gen/b.go", "b.go", "gen"),
        entry("repo/.git/HEAD", "HEAD", ".git"),
        entry("src/c.go", "c.go", "src"),
    ];
    let idx = kept_indices(&candidates, &config);
    assert_eq!(idx, vec![0, 3]);
    let kept = collect_entries(candidates.clone(), &config);
    let paths: Vec<&str> = kept.iter().map(|e| e.path.as_str()).collect();
    assert_eq!(paths, vec!["src/a.go", "src/c.go"]);
}
