use git_hud::workspace::{
    persisted_active, persisted_open, project_name, require_repo, restore_active, restore_paths,
    workspace_activate, workspace_add, workspace_remove, MAX_PROJECTS,
};

#[test]
fn open_set_caps_at_max_projects() {
    let mut open = Vec::new();
    for i in 0..MAX_PROJECTS {
        assert_eq!(workspace_add(&mut open, &format!("/p{i}")), Ok(true));
    }
    assert_eq!(open.len(), MAX_PROJECTS);
    // The 8th distinct project is rejected.
    assert!(workspace_add(&mut open, "/overflow").is_err());
    assert_eq!(open.len(), MAX_PROJECTS);
}

#[test]
fn re_opening_dedupes_without_error() {
    let mut open = vec!["/a".to_string(), "/b".to_string()];
    // Already open → Ok(false), no duplicate, and not counted against the cap.
    assert_eq!(workspace_add(&mut open, "/a"), Ok(false));
    assert_eq!(open, vec!["/a".to_string(), "/b".to_string()]);
}

#[test]
fn closing_active_reassigns_to_first_remaining() {
    let mut open = vec!["/a".to_string(), "/b".to_string(), "/c".to_string()];
    let mut active = Some("/b".to_string());
    workspace_remove(&mut open, &mut active, "/b");
    assert_eq!(open, vec!["/a".to_string(), "/c".to_string()]);
    assert_eq!(active, Some("/a".to_string())); // fell back to first remaining
}

#[test]
fn closing_last_project_clears_active() {
    let mut open = vec!["/only".to_string()];
    let mut active = Some("/only".to_string());
    workspace_remove(&mut open, &mut active, "/only");
    assert!(open.is_empty());
    assert_eq!(active, None);
}

#[test]
fn closing_inactive_leaves_active_untouched() {
    let mut open = vec!["/a".to_string(), "/b".to_string()];
    let mut active = Some("/a".to_string());
    workspace_remove(&mut open, &mut active, "/b");
    assert_eq!(active, Some("/a".to_string()));
}

#[test]
fn full_workspace_gives_the_cap_message() {
    let mut open: Vec<String> = (0..MAX_PROJECTS).map(|i| format!("/p{i}")).collect();
    assert_eq!(
        workspace_add(&mut open, "/x"),
        Err("You can open up to 7 projects at once. Close one first.".to_string())
    );
}

#[test]
fn closing_undoes_opening() {
    let mut open = vec!["/a".to_string(), "/b".to_string()];
    let mut active = Some("/a".to_string());
    assert_eq!(workspace_add(&mut open, "/c"), Ok(true));
    workspace_remove(&mut open, &mut active, "/c");
    assert_eq!(open, vec!["/a".to_string(), "/b".to_string()]);
    assert_eq!(active, Some("/a".to_string()));
}

#[test]
fn activating_requires_an_open_project() {
    let open = vec!["/a".to_string(), "/b".to_string()];
    let mut active = Some("/a".to_string());
    assert_eq!(
        workspace_activate(&open, &mut active, "/z".to_string()),
        Err("That project is not open.".to_string())
    );
    assert_eq!(active, Some("/a".to_string()));
    assert_eq!(workspace_activate(&open, &mut active, "/b".to_string()), Ok(()));
    assert_eq!(active, Some("/b".to_string()));
}

#[test]
fn require_repo_reports_no_repository() {
    assert_eq!(require_repo(&None), Err("no repository is currently open".to_string()));
    assert_eq!(require_repo(&Some("/r".to_string())), Ok("/r".to_string()));
}

#[test]
fn workspace_round_trips_through_its_saved_form() {
    let open = vec!["/a".to_string(), "/b/c".to_string(), "/d".to_string()];
    let saved = persisted_open(&open);
    assert_eq!(saved, "/a\n/b/c\n/d");
    assert_eq!(restore_paths(&saved, &Some("/old".to_string())), open);
    assert_eq!(persisted_active(&Some("/b/c".to_string())), "/b/c");
    assert_eq!(persisted_active(&None), "");
}

#[test]
fn restore_skips_blank_lines_and_caps() {
    let csv = "\n/a\n\n/b\n/c\n/d\n/e\n/f\n/g\n/h\n";
    let paths = restore_paths(csv, &None);
    assert_eq!(paths.len(), MAX_PROJECTS);
    assert_eq!(paths[0], "/a");
    assert_eq!(paths[6], "/g");
}

#[test]
fn restore_falls_back_to_last_repo() {
    assert_eq!(restore_paths("", &Some("/legacy".to_string())), vec!["/legacy".to_string()]);
    assert!(restore_paths("", &None).is_empty());
}

#[test]
fn restore_prefers_saved_active_when_open() {
    let open = vec!["/a".to_string(), "/b".to_string()];
    let mut active = Some("/b".to_string());
    restore_active(&open, &mut active, "/a");
    assert_eq!(active, Some("/a".to_string()));
    restore_active(&open, &mut active, "/gone");
    assert_eq!(active, Some("/a".to_string()));
    restore_active(&open, &mut active, "");
    assert_eq!(active, Some("/a".to_string()));
}

#[test]
fn project_name_is_the_directory_name() {
    assert_eq!(project_name("/home/me/repo"), "repo");
    assert_eq!(project_name("/home/me/repo/"), "repo");
    assert_eq!(project_name("/"), "/");
}
