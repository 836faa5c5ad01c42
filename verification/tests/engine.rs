use git_hud::remote::{github_repo_url, parse_github_slug};
use git_hud::conflicts::{conflict_hunk, conflict_path, plan_resolution, IndexConflict, Resolution, StageEntry};
use git_hud::error::AppError;
use git_hud::git::{describe_status, status, StatusEntry, StatusFlags};
use git_hud::lanes::LaneLayout;
use git_hud::stats::{contributor_stats, CommitAuthor};
use git_hud::text::{decimal_string, trim};

fn flags() -> StatusFlags {
    StatusFlags {
        index_new: false,
        index_modified: false,
        index_deleted: false,
        index_renamed: false,
        index_typechange: false,
        wt_new: false,
        wt_modified: false,
        wt_deleted: false,
        wt_typechange: false,
        wt_renamed: false,
        ignored: false,
        conflicted: false,
    }
}

fn ids(v: &[&str]) -> Vec<String> {
    v.iter().map(|s| s.to_string()).collect()
}

#[test]
fn lanes_follow_first_parents_and_reserve_merge_parents() {
    let mut layout = LaneLayout::new();
    // m merges a (first parent) and b; a and b both descend from r.
    assert_eq!(layout.place(&"m".to_string(), &ids(&["a", "b"])), 0);
    assert_eq!(layout.width(), 2);
    assert_eq!(layout.place(&"b".to_string(), &ids(&["r"])), 1);
    assert_eq!(layout.place(&"a".to_string(), &ids(&["r"])), 0);
    // r was expected by both lanes; it takes the first one.
    assert_eq!(layout.place(&"r".to_string(), &ids(&[])), 0);
    assert_eq!(layout.width(), 2);
    // Lane 0 is free again and is reused by an unrelated tip.
    assert_eq!(layout.place(&"x".to_string(), &ids(&[])), 0);
    assert_eq!(layout.width(), 2);
}

#[test]
fn lane_limit_counts_placed_commits() {
    let mut layout = LaneLayout::new();
    assert!(layout.limit_reached(0));
    assert!(!layout.limit_reached(1));
    layout.place(&"c".to_string(), &ids(&["p"]));
    assert!(layout.limit_reached(1));
    assert!(!layout.limit_reached(2));
}

#[test]
fn unrelated_tips_open_new_lanes() {
    let mut layout = LaneLayout::new();
    assert_eq!(layout.place(&"t1".to_string(), &ids(&["p1"])), 0);
    assert_eq!(layout.place(&"t2".to_string(), &ids(&["p2"])), 1);
    assert_eq!(layout.place(&"p2".to_string(), &ids(&[])), 1);
    assert_eq!(layout.place(&"p1".to_string(), &ids(&[])), 0);
}

#[test]
fn status_labels_follow_precedence() {
    let mut f = flags();
    assert_eq!(describe_status(&f), ("unmodified".to_string(), false));
    f.ignored = true;
    assert_eq!(describe_status(&f).0, "ignored");
    f.wt_modified = true;
    assert_eq!(describe_status(&f).0, "modified");
    f.index_renamed = true;
    assert_eq!(describe_status(&f), ("renamed".to_string(), true));
    f.wt_new = true;
    assert_eq!(describe_status(&f).0, "new");
    f.conflicted = true;
    assert_eq!(describe_status(&f).0, "conflicted");
}

#[test]
fn status_aggregates_entries() {
    let mut c = flags();
    c.conflicted = true;
    let mut n = flags();
    n.index_new = true;
    let entries = vec![
        StatusEntry { path: "a.txt".to_string(), flags: n },
        StatusEntry { path: "b.txt".to_string(), flags: c },
    ];
    let s = status(Some("main".to_string()), &entries, 2, 5);
    assert_eq!(s.head_branch, Some("main".to_string()));
    assert!(s.has_conflicts);
    assert_eq!(s.files.len(), 2);
    assert_eq!(s.files[0].status, "new");
    assert!(s.files[0].staged);
    assert_eq!(s.files[1].status, "conflicted");
    assert_eq!((s.ahead, s.behind), (2, 5));
    assert!(!status(None, &Vec::new(), 0, 0).has_conflicts);
}

#[test]
fn contributors_are_ranked_by_commits() {
    let authors = vec![
        CommitAuthor { name: "Bo".to_string(), email: "bo@x".to_string() },
        CommitAuthor { name: "Al".to_string(), email: "al@x".to_string() },
        CommitAuthor { name: "Al Old".to_string(), email: "al@x".to_string() },
        CommitAuthor { name: "Cy".to_string(), email: "cy@x".to_string() },
    ];
    let stats = contributor_stats(&authors);
    assert_eq!(stats.len(), 3);
    assert_eq!(stats[0].author_email, "al@x");
    assert_eq!(stats[0].author_name, "Al");
    assert_eq!(stats[0].commits, 2);
    assert_eq!(stats[1].author_email, "bo@x");
    assert_eq!(stats[2].author_email, "cy@x");
    assert_eq!((stats[2].files_owned, stats[2].reviews), (0, 0));
    // Every commit is attributed to exactly one author.
    assert_eq!(stats.iter().map(|s| s.commits as usize).sum::<usize>(), authors.len());
    assert!(contributor_stats(&Vec::new()).is_empty());
}

fn stage(path: &[u8], id: &str) -> Option<StageEntry> {
    Some(StageEntry { path: path.to_vec(), id: id.to_string() })
}

#[test]
fn conflict_path_prefers_ours_then_theirs_then_base() {
    let c = IndexConflict { ancestor: stage(b"base.txt", "1"), ours: None, theirs: stage(b"t.txt", "2") };
    assert_eq!(conflict_path(&c), Some("t.txt".to_string()));
    let c = IndexConflict { ancestor: stage(b"base.txt", "1"), ours: None, theirs: None };
    assert_eq!(conflict_path(&c), Some("base.txt".to_string()));
    let c = IndexConflict { ancestor: None, ours: stage(&[0xff, 0xfe], "1"), theirs: stage(b"t.txt", "2") };
    assert_eq!(conflict_path(&c), None);
    let c = IndexConflict { ancestor: None, ours: None, theirs: None };
    assert_eq!(conflict_path(&c), None);
}

#[test]
fn resolution_takes_the_chosen_side() {
    let cs = vec![
        IndexConflict { ancestor: stage(b"a", "0a"), ours: stage(b"a", "1a"), theirs: stage(b"a", "2a") },
        IndexConflict { ancestor: stage(b"f.txt", "0"), ours: stage(b"f.txt", "1"), theirs: None },
    ];
    match plan_resolution(&cs, "f.txt", "ours") {
        Ok(Some(Resolution::Write(id))) => assert_eq!(id, "1"),
        _ => panic!("expected a write of our side"),
    }
    assert!(matches!(plan_resolution(&cs, "f.txt", "theirs"), Ok(Some(Resolution::Delete))));
    match plan_resolution(&cs, "f.txt", "mine") {
        Err(AppError::Message(m)) => assert_eq!(m, "invalid conflict resolution: mine"),
        _ => panic!("expected an error"),
    }
    // Not conflicted: nothing to do, whatever the side.
    assert!(matches!(plan_resolution(&cs, "g.txt", "mine"), Ok(None)));
}

#[test]
fn conflict_hunk_decodes_sides_for_display() {
    let h = conflict_hunk(
        "f.txt".to_string(),
        Some(b"ours\n".to_vec()),
        Some(vec![b't', 0xc3]),
        None,
        Some(b"<<<<<<< ours\n".to_vec()),
    );
    assert_eq!(h.file, "f.txt");
    assert_eq!(h.ours, "ours\n");
    assert_eq!(h.theirs, "t\u{FFFD}");
    assert_eq!(h.base, "");
    assert!(h.merged.contains("<<<<<<<"));
}

#[test]
fn error_messages_name_their_source() {
    assert_eq!(AppError::Git("boom".to_string()).message(), "git error: boom");
    assert_eq!(AppError::Db("locked".to_string()).message(), "database error: locked");
    assert_eq!(AppError::Migration("m".to_string()).message(), "migration error: m");
    assert_eq!(AppError::Io("denied".to_string()).message(), "i/o error: denied");
    assert_eq!(AppError::NoRepo.message(), "no repository is currently open");
    assert_eq!(AppError::Message("plain".to_string()).message(), "plain");
}

#[test]
fn text_helpers() {
    assert_eq!(decimal_string(0), "0");
    assert_eq!(decimal_string(1234567890123), "1234567890123");
    assert_eq!(trim("\u{3000} a b \t\n"), "a b");
    assert_eq!(trim("   "), "");
}

#[test]
fn github_remotes_give_owner_and_repo() {
    let slug = |u: &str| parse_github_slug(u);
    assert_eq!(slug("https://github.com/o/r.git"), Some(("o".to_string(), "r".to_string())));
    assert_eq!(slug("https://github.com/o/r"), Some(("o".to_string(), "r".to_string())));
    assert_eq!(slug("https://github.com/o/r/"), Some(("o".to_string(), "r".to_string())));
    assert_eq!(slug("git@github.com:owner/repo.git"), Some(("owner".to_string(), "repo".to_string())));
    assert_eq!(slug("ssh://git@github.com/a/b.git"), Some(("a".to_string(), "b".to_string())));
    assert_eq!(slug("https://gitlab.com/o/r.git"), None);
    assert_eq!(slug("https://github.com/o"), None);
    assert_eq!(slug("https://github.com/o/r/extra"), None);
    assert_eq!(slug("https://github.com//r"), None);
    assert_eq!(
        github_repo_url(Some("git@github.com:o/r.git".to_string())),
        Some("https://github.com/o/r".to_string())
    );
    assert_eq!(github_repo_url(None), None);
}

#[test]
fn short_ids_keep_eight_characters() {
    assert_eq!(git_hud::lanes::short_id("0123456789abcdef"), "01234567");
    assert_eq!(git_hud::lanes::short_id("abc"), "abc");
}
