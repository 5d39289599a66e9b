use foxinsocks::cleanup::{plan_cleanup, try_plan_cleanup, FileEntry, GroupPlan};
use foxinsocks::patterns::{compile_patterns, CompiledPattern, Probe, RegexFailure};

fn file(name: &str, modified: i128) -> FileEntry {
    FileEntry { name: name.to_string(), path: format!("/data/{}", name), modified }
}

fn compile(patterns: &[&str]) -> Vec<CompiledPattern> {
    let owned: Vec<String> = patterns.iter().map(|p| p.to_string()).collect();
    let (ok, bad) = compile_patterns(&owned);
    assert!(bad.is_empty());
    ok
}

fn removed_names(files: &[FileEntry], plan: &GroupPlan) -> Vec<String> {
    plan.remove.iter().map(|&i| files[i].name.clone()).collect()
}

fn removed_set(files: &[FileEntry], plans: &[GroupPlan]) -> Vec<bool> {
    let mut removed = vec![false; files.len()];
    for p in plans {
        for &i in &p.remove {
            removed[i] = true;
        }
    }
    removed
}

#[test]
fn capture_group_key_keeps_newest() {
    let files = vec![
        file("report_2024-01.txt", 10),
        file("report_2024-02.txt", 30),
        file("report_2024-03.txt", 20),
        file("other.txt", 5),
    ];
    let patterns = compile(&[r"^(report)_\d{4}-\d{2}\.txt$"]);
    let plans = plan_cleanup(&files, &patterns, 1);
    assert_eq!(plans.len(), 1);
    assert!(!plans[0].by_pattern);
    assert_eq!(plans[0].label, "report");
    assert_eq!(plans[0].ranked, vec![1, 2, 0]);
    assert_eq!(removed_names(&files, &plans[0]), vec!["report_2024-03.txt", "report_2024-01.txt"]);
}

#[test]
fn equal_times_rank_later_listed_first() {
    let files = vec![file("a_x", 7), file("a_y", 7), file("a_z", 7)];
    let patterns = compile(&[r"^(a_)"]);
    let plans = plan_cleanup(&files, &patterns, 2);
    assert_eq!(plans.len(), 1);
    assert_eq!(plans[0].ranked, vec![2, 1, 0]);
    assert_eq!(plans[0].remove, vec![0]);
}

#[test]
fn pattern_without_groups_groups_its_matches() {
    let files = vec![
        file("log_1.txt", 1),
        file("log_2.txt", 2),
        file("log_3.txt", 3),
        file("other.txt", 4),
    ];
    let patterns = compile(&[r"^log_\d\.txt$"]);
    let plans = plan_cleanup(&files, &patterns, 1);
    assert_eq!(plans.len(), 1);
    assert!(plans[0].by_pattern);
    assert_eq!(plans[0].label, r"^log_\d\.txt$");
    assert_eq!(plans[0].ranked, vec![2, 1, 0]);
    assert_eq!(plans[0].remove, vec![1, 0]);
}

#[test]
fn key_groups_come_before_pattern_groups() {
    let files = vec![file("img_1", 1), file("img_2", 2), file("doc_1", 3), file("doc_2", 4)];
    let patterns = compile(&[r"^doc_", r"^(img)_"]);
    let plans = plan_cleanup(&files, &patterns, 1);
    assert_eq!(plans.len(), 2);
    assert!(!plans[0].by_pattern);
    assert_eq!(plans[0].label, "img");
    assert_eq!(plans[0].remove, vec![0]);
    assert!(plans[1].by_pattern);
    assert_eq!(plans[1].label, "^doc_");
    assert_eq!(plans[1].remove, vec![2]);
}

#[test]
fn short_keys_are_ignored() {
    let files = vec![file("a1", 1), file("a2", 2), file("a3", 3)];
    let patterns = compile(&[r"^(a)\d$"]);
    let plans = plan_cleanup(&files, &patterns, 0);
    assert!(plans.is_empty());
}

#[test]
fn two_byte_single_char_key_is_long_enough() {
    let files = vec![file("é1", 1), file("é2", 2)];
    let patterns = compile(&[r"^(é)\d$"]);
    let plans = plan_cleanup(&files, &patterns, 1);
    assert_eq!(plans.len(), 1);
    assert_eq!(plans[0].label, "é");
    assert_eq!(plans[0].remove, vec![0]);
}

#[test]
fn groups_within_limit_get_no_plan() {
    let files = vec![file("x_1", 1), file("x_2", 2), file("y_1", 3)];
    let patterns = compile(&[r"^(x_)", r"^y_"]);
    let plans = plan_cleanup(&files, &patterns, 2);
    assert!(plans.is_empty());
}

#[test]
fn duplicate_keys_from_two_patterns_are_planned_once() {
    let files = vec![file("img_1", 1), file("img_2", 2), file("img_3", 3)];
    let patterns = compile(&[r"^(img)_", r"^(img)_\d"]);
    let plans = plan_cleanup(&files, &patterns, 1);
    assert_eq!(plans.len(), 1);
    assert_eq!(plans[0].remove, vec![1, 0]);
}

#[test]
fn missing_group_one_is_refused() {
    let files = vec![file("b", 1)];
    let patterns = compile(&[r"(a)?b"]);
    assert!(try_plan_cleanup(&files, &patterns, 1).is_none());
}

#[test]
fn try_plan_matches_plan_when_resolvable() {
    let files = vec![file("k_1", 1), file("k_2", 2)];
    let patterns = compile(&[r"^(k)_"]);
    let plans = try_plan_cleanup(&files, &patterns, 1).unwrap();
    assert_eq!(plans.len(), 0);
    let files = vec![file("kk_1", 1), file("kk_2", 2)];
    let patterns = compile(&[r"^(kk)_"]);
    let plans = try_plan_cleanup(&files, &patterns, 1).unwrap();
    assert_eq!(plans.len(), 1);
    assert_eq!(plans[0].remove, vec![0]);
}

#[test]
fn invalid_patterns_are_reported() {
    let owned = vec!["(unclosed".to_string(), r"ok\d".to_string()];
    let (ok, bad) = compile_patterns(&owned);
    assert_eq!(ok.len(), 1);
    assert_eq!(ok[0].source(), r"ok\d");
    assert_eq!(bad.len(), 1);
    assert_eq!(bad[0].pattern, "(unclosed");
    assert!(matches!(bad[0].reason, RegexFailure::Syntax(_)));
}

#[test]
fn invalid_pattern_leaves_pass_unchanged() {
    let files = vec![file("a_1", 1), file("a_2", 2), file("b_1", 3), file("b_2", 4)];
    let with = vec!["^a_".to_string(), "(".to_string(), "^(b_)".to_string()];
    let without = vec!["^a_".to_string(), "^(b_)".to_string()];
    let (c1, bad) = compile_patterns(&with);
    assert_eq!(bad.len(), 1);
    let (c2, _) = compile_patterns(&without);
    let p1 = try_plan_cleanup(&files, &c1, 1).unwrap();
    let p2 = try_plan_cleanup(&files, &c2, 1).unwrap();
    assert_eq!(removed_set(&files, &p1), removed_set(&files, &p2));
    assert_eq!(removed_set(&files, &p1), vec![true, false, true, false]);
}

#[test]
fn probe_reads_group_or_whole_match() {
    let p = CompiledPattern::compile(r"x(\d+)y".to_string()).ok().unwrap();
    assert!(matches!(p.probe("ax12yb"), Probe::Key(k) if k == "12"));
    assert!(matches!(p.probe("nothing"), Probe::NoMatch));
    let q = CompiledPattern::compile(r"\d+".to_string()).ok().unwrap();
    assert!(matches!(q.probe("ab123c"), Probe::Whole));
    let r = CompiledPattern::compile(r"(a)?b".to_string()).ok().unwrap();
    assert!(matches!(r.probe("b"), Probe::MissingGroup));
}

#[test]
fn mass_cleanup_keeps_five_per_pattern() {
    // 40 base names with 50 copies each; patterns without capture groups,
    // keep 5: every pattern is left matching at most 5 files.
    let mut files = Vec::new();
    let mut patterns = Vec::new();
    for i in 0..40 {
        let base = format!("file_{}__", i);
        patterns.push(format!("^{}.*\\.log$", regex::escape(&base)));
        for d in 0..50 {
            files.push(file(&format!("{}{}_x.log", base, d), (d * 1000 + i) as i128));
        }
    }
    let (compiled, bad) = compile_patterns(&patterns);
    assert!(bad.is_empty());
    let plans = try_plan_cleanup(&files, &compiled, 5).unwrap();
    assert_eq!(plans.len(), 40);
    let removed = removed_set(&files, &plans);
    assert_eq!(removed.iter().filter(|r| !**r).count(), 40 * 5);
    for pattern in &patterns {
        let re = regex::Regex::new(pattern).unwrap();
        let left: Vec<&FileEntry> = files
            .iter()
            .enumerate()
            .filter(|(k, f)| !removed[*k] && re.is_match(&f.name))
            .map(|(_, f)| f)
            .collect();
        assert!(left.len() <= 5);
        assert!(left.iter().all(|f| f.modified >= 45_000));
    }
}

#[test]
fn mass_cleanup_keeps_newest_per_key() {
    let mut files = Vec::new();
    let mut patterns = Vec::new();
    for i in 0..30 {
        let base = format!("file_{}__", i);
        patterns.push(format!("^({}).*\\.log$", regex::escape(&base)));
        for d in 0..30 {
            files.push(file(&format!("{}{}_x.log", base, d), (d * 1000 + i) as i128));
        }
    }
    let (compiled, _) = compile_patterns(&patterns);
    let plans = try_plan_cleanup(&files, &compiled, 5).unwrap();
    assert_eq!(plans.len(), 30);
    for plan in &plans {
        assert!(!plan.by_pattern);
        assert_eq!(plan.ranked.len(), 30);
        assert_eq!(plan.remove.len(), 25);
    }
    let removed = removed_set(&files, &plans);
    assert_eq!(removed.iter().filter(|r| !**r).count(), 30 * 5);
}

#[test]
fn second_pass_removes_nothing() {
    let files = vec![
        file("a_1", 5),
        file("a_2", 9),
        file("a_3", 1),
        file("ab_1", 4),
        file("ab_2", 2),
        file("b_1", 3),
        file("b_2", 7),
        file("b_3", 6),
    ];
    let patterns = compile(&[r"^(a)b?_", r"^(ab)_", r"^b_"]);
    let plans = try_plan_cleanup(&files, &patterns, 1).unwrap();
    assert!(!plans.is_empty());
    let removed = removed_set(&files, &plans);
    let left: Vec<FileEntry> = files
        .iter()
        .enumerate()
        .filter(|(i, _)| !removed[*i])
        .map(|(_, f)| FileEntry { name: f.name.clone(), path: f.path.clone(), modified: f.modified })
        .collect();
    let again = try_plan_cleanup(&left, &patterns, 1).unwrap();
    assert!(again.is_empty());
}
