use git_hud::alerts::{failing_now, run_alerts, tooltip, AlertBook, PipelineStatus, ProjectSignals};
use git_hud::reviews::ReviewRequest;

fn pipeline(name: &str, status: &str) -> PipelineStatus {
    PipelineStatus { pipeline: name.to_string(), status: status.to_string() }
}

fn request(number: u32, title: &str) -> ReviewRequest {
    ReviewRequest { number, title: title.to_string(), url: String::new() }
}

fn signals() -> Vec<ProjectSignals> {
    vec![
        ProjectSignals {
            path: "/work/api".to_string(),
            has_conflicts: true,
            ci: vec![pipeline("build", "failed"), pipeline("test", "success"), pipeline("build", "failed")],
            requests: vec![request(12, "Fix auth")],
        },
        ProjectSignals {
            path: "/work/web".to_string(),
            has_conflicts: false,
            ci: vec![pipeline("lint", "failed")],
            requests: vec![],
        },
    ]
}

#[test]
fn first_cycle_announces_everything_new() {
    let mut book = AlertBook::new();
    let report = run_alerts(&mut book, &signals());
    let notes: Vec<(String, String)> =
        report.notices.iter().map(|n| (n.title.clone(), n.body.clone())).collect();
    assert_eq!(
        notes,
        vec![
            ("Merge conflict".to_string(), "api has merge conflicts".to_string()),
            ("Pipeline failed".to_string(), "api: build is failing".to_string()),
            ("Review requested".to_string(), "api #12: Fix auth".to_string()),
            ("Pipeline failed".to_string(), "web: lint is failing".to_string()),
        ]
    );
    assert_eq!(report.tooltip, "git-hud — 1 conflicts · 2 failing · 1 reviews");
}

#[test]
fn repeating_a_cycle_is_quiet() {
    let mut book = AlertBook::new();
    run_alerts(&mut book, &signals());
    let again = run_alerts(&mut book, &signals());
    assert!(again.notices.is_empty());
    assert_eq!(again.tooltip, "git-hud — 1 conflicts · 2 failing · 1 reviews");
}

#[test]
fn only_new_items_are_announced() {
    let mut book = AlertBook::new();
    run_alerts(&mut book, &signals());
    let mut next = signals();
    next[0].ci.push(pipeline("deploy", "failed"));
    next[0].requests.push(request(13, "Docs"));
    next[1].has_conflicts = true;
    let report = run_alerts(&mut book, &next);
    let bodies: Vec<String> = report.notices.iter().map(|n| n.body.clone()).collect();
    assert_eq!(
        bodies,
        vec![
            "api: deploy is failing".to_string(),
            "api #13: Docs".to_string(),
            "web has merge conflicts".to_string(),
        ]
    );
}

#[test]
fn failing_pipelines_are_distinct() {
    let ci = vec![pipeline("a", "failed"), pipeline("b", "running"), pipeline("a", "failed")];
    assert_eq!(failing_now(&ci), vec!["a".to_string()]);
}

#[test]
fn tooltip_rolls_up_totals() {
    assert_eq!(tooltip(0, 0, 0), "git-hud — all clear");
    assert_eq!(tooltip(0, 3, 0), "git-hud — 3 failing");
    assert_eq!(tooltip(2, 0, 10), "git-hud — 2 conflicts · 10 reviews");
}
