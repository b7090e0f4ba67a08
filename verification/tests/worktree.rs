use velocity_code::json::Json;
use velocity_code::paths::TreePath;
use velocity_code::worktree::{
    base_is_plainly, branch_is_base, classify, counts, escape_cell, fmt_opt, format_human,
    glob_match, is_branch_config_selector, looks_like_ref_file, parse_porcelain, strip_nl, to_json,
    Base, BaseBranch, DoctorReport, Facts, MergeTree, Report, State,
};

fn clean_facts() -> Facts {
    Facts {
        prunable: None,
        dirty: None,
        detached: false,
        is_base: false,
        branch_gone: false,
        query_failed: None,
        is_ancestor: Some(false),
        merge_tree: Some(MergeTree::Clean),
        age_secs: Some(0),
    }
}

#[test]
fn porcelain_z_parses_every_attribute_and_keeps_paths_verbatim() {
    let text = "worktree /r/main repo\0HEAD aaaa\0branch refs/heads/main\0\0\
                worktree /r/wt one \0HEAD bbbb\0branch refs/heads/feat/x\0locked busy\treason\0\0\
                worktree /r/wt2\0HEAD cccc\0detached\0prunable gitdir file points to non-existent location\0\0\
                worktree /r/new\nline\0HEAD dddd\0branch refs/heads/y\0locked\0\0";
    let v = parse_porcelain(text.as_bytes());
    assert_eq!(v.len(), 4);
    assert_eq!(v[0].path.raw, b"/r/main repo");
    assert_eq!(v[0].branch.as_deref(), Some("main"));
    assert_eq!(v[1].path.raw, b"/r/wt one ");
    assert_eq!(v[1].branch.as_deref(), Some("feat/x"));
    assert_eq!(v[1].locked.as_deref(), Some("busy\treason"));
    assert!(v[2].detached);
    assert!(v[2].branch.is_none());
    assert_eq!(
        v[2].prunable.as_deref(),
        Some("gitdir file points to non-existent location")
    );
    assert_eq!(v[3].path.raw, b"/r/new\nline");
    assert_eq!(v[3].locked.as_deref(), Some(""));
    assert_eq!(v[3].head.as_deref(), Some("dddd"));
}

#[test]
fn porcelain_without_trailing_record_nul_still_yields_last_record() {
    let v = parse_porcelain(b"worktree /a\0HEAD 1\0branch refs/heads/b");
    assert_eq!(v.len(), 1);
    assert_eq!(v[0].branch.as_deref(), Some("b"));
}

#[test]
fn porcelain_empty_input_is_no_records() {
    assert!(parse_porcelain(b"").is_empty());
    assert!(parse_porcelain(b"\0\0").is_empty());
}

#[test]
fn ref_file_detection_accepts_symbolic_and_oid_rejects_other_files() {
    assert!(looks_like_ref_file(b"ref: refs/heads/main\n"));
    assert!(looks_like_ref_file(b"ref: refs/remotes/origin/x"));
    assert!(looks_like_ref_file(
        b"0123456789abcdef0123456789abcdef01234567\n"
    ));
    assert!(looks_like_ref_file(
        b"0123456789abcdef0123456789abcdef01234567\t\tbranch 'x' of /r\n"
    ));
    assert!(!looks_like_ref_file(b"ref: notrefs/x\n"));
    assert!(!looks_like_ref_file(b"0123 not an id\n"));
    assert!(!looks_like_ref_file(b"DIRC\0\0\0\x02"));
    assert!(!looks_like_ref_file(
        b"[core]\n\trepositoryformatversion = 0\n"
    ));
    assert!(!looks_like_ref_file(b""));
}

#[test]
fn refspec_glob_match_returns_the_wildcard_text() {
    assert_eq!(
        glob_match("refs/heads/*", "refs/heads/a/b"),
        Some("a/b".into())
    );
    assert_eq!(
        glob_match("refs/heads/rel*", "refs/heads/release"),
        Some("ease".into())
    );
    assert_eq!(
        glob_match("refs/heads/main", "refs/heads/main"),
        Some(String::new())
    );
    assert_eq!(glob_match("refs/heads/main", "refs/heads/maine"), None);
    assert_eq!(glob_match("refs/heads/*", "refs/tags/x"), None);
}

#[test]
fn human_cells_escape_tabs_and_newlines() {
    assert_eq!(escape_cell("a\tb\nc\\d"), "a\\tb\\nc\\\\d");
    assert_eq!(escape_cell("plain"), "plain");
}

#[test]
fn branch_is_base_needs_the_exact_branch_not_a_shared_commit() {
    let local = Base {
        display: "main".into(),
        branch: Some(BaseBranch::Local("main".into())),
        full: "refs/heads/main".into(),
        commit: "c1".into(),
        source: "fallback".into(),
        is_ref: true,
    };
    assert!(branch_is_base("main", "c1", &local));
    assert!(branch_is_base("main", "c9", &local), "same ref, any commit");
    assert!(!branch_is_base("other/main", "c1", &local));
    let tag = Base {
        branch: None,
        full: "refs/tags/main".into(),
        ..local.clone()
    };
    assert!(!branch_is_base("main", "c1", &tag));
    let remote = Base {
        display: "origin/feat/x".into(),
        branch: Some(BaseBranch::Remote("origin".into(), "feat/x".into())),
        full: "refs/remotes/origin/feat/x".into(),
        commit: "c1".into(),
        source: "origin/HEAD".into(),
        is_ref: true,
    };
    assert!(branch_is_base("feat/x", "c1", &remote));
    assert!(!branch_is_base("feat/x", "c2", &remote), "drifted local");
    assert!(!branch_is_base("x", "c1", &remote), "suffix is not enough");
}

#[test]
fn classify_priority_order_is_fixed() {
    let stale = 14 * 86_400;
    let mut f = clean_facts();
    assert_eq!(classify(&f, stale).0, State::MergeReady);

    f.age_secs = Some(stale + 1);
    assert_eq!(classify(&f, stale).0, State::Stale);
    f.age_secs = Some(stale);
    assert_eq!(
        classify(&f, stale).0,
        State::MergeReady,
        "boundary is exclusive"
    );

    f.merge_tree = Some(MergeTree::Unsupported("x".into()));
    assert_eq!(classify(&f, stale).0, State::Unknown);
    f.merge_tree = Some(MergeTree::Conflict);
    assert_eq!(classify(&f, stale).0, State::Conflict);

    f.is_ancestor = None;
    assert_eq!(classify(&f, stale).0, State::Unknown);
    f.is_ancestor = Some(true);
    assert_eq!(classify(&f, stale).0, State::Merged);
    f.is_base = true;
    assert_eq!(classify(&f, stale).0, State::Base);
    f.detached = true;
    assert_eq!(classify(&f, stale).0, State::Detached);
    f.query_failed = Some("boom".into());
    assert_eq!(classify(&f, stale).0, State::Unknown);
    f.dirty = Some("?? x".into());
    assert_eq!(classify(&f, stale).0, State::Dirty);
    f.branch_gone = true;
    let (s, r) = classify(&f, stale);
    assert_eq!(s, State::Stale);
    assert!(r.contains("branch no longer exists"), "{}", r);
    f.prunable = Some(String::new());
    let (s, r) = classify(&f, stale);
    assert_eq!(s, State::Prunable);
    assert_eq!(r, "git reports prunable: gone");
}

#[test]
fn classify_without_merge_tree_result_is_unknown_not_merge_ready() {
    let mut f = clean_facts();
    f.merge_tree = None;
    assert_eq!(classify(&f, 1).0, State::Unknown);
}

#[test]
fn classify_with_unknown_age_is_unknown_not_merge_ready() {
    let mut f = clean_facts();
    f.age_secs = None;
    let (s, r) = classify(&f, 1);
    assert_eq!(s, State::Unknown);
    assert!(r.contains("last commit date unreadable"), "{}", r);
    f.is_ancestor = Some(true);
    assert_eq!(classify(&f, 1).0, State::Merged);
    f.is_ancestor = Some(false);
    f.merge_tree = Some(MergeTree::Conflict);
    assert_eq!(classify(&f, 1).0, State::Conflict);
}

fn sample_report() -> DoctorReport {
    let row = |state: State, path: &str| Report {
        state,
        path: TreePath::from_text(path),
        branch: Some("feat".into()),
        head: Some("abc".into()),
        ahead: Some(2),
        behind: None,
        locked: None,
        last_commit_unix: Some(7),
        reason: "why\tnot".into(),
    };
    DoctorReport {
        repo_root: TreePath::from_text("/r"),
        base: "main".into(),
        base_full: "refs/heads/main".into(),
        base_commit: "c1".into(),
        base_source: "fallback".into(),
        main_path: Some(TreePath::from_text("/r")),
        main_branch: None,
        worktrees: vec![row(State::Merged, "/w/a"), row(State::Dirty, "/w/b"), row(State::Merged, "/w/c")],
    }
}

#[test]
fn report_counts_states_and_writes_both_forms() {
    let r = sample_report();
    let c = counts(&r);
    assert_eq!(c.get(&"merged".to_string()), Some(&2));
    assert_eq!(c.get(&"dirty".to_string()), Some(&1));
    assert_eq!(c.get(&"stale".to_string()), None);

    let human = format_human(&r);
    assert!(human.contains("why\\tnot"), "{}", human);
    assert_eq!(human.lines().filter(|l| l.starts_with("merged\t")).count(), 2, "{}", human);

    let j = to_json(&r);
    let rows = match j.get("worktrees") {
        Some(Json::List(rows)) => rows,
        other => panic!("{:?}", other),
    };
    assert_eq!(rows.len(), 3);
    assert!(matches!(rows[0].get("state"), Some(Json::Text(s)) if s == "merged"));
    assert!(matches!(rows[0].get("ahead"), Some(Json::Number(2))));
    assert!(matches!(rows[0].get("behind"), Some(Json::Null)));
    assert!(matches!(rows[0].get("locked"), Some(Json::Bool(false))));
    assert!(matches!(j.get("report_only"), Some(Json::Bool(true))));
    assert!(matches!(j.get("main").unwrap().get("branch"), Some(Json::Null)));
    assert!(matches!(j.get("counts").unwrap().get("merged"), Some(Json::Number(2))));
}

#[test]
fn small_helpers_of_the_report() {
    assert_eq!(fmt_opt(Some(12)), "12");
    assert_eq!(fmt_opt(None), "?");
    assert_eq!(strip_nl("abc\n"), "abc");
    assert_eq!(strip_nl("abc"), "abc");
    assert!(base_is_plainly("main", "refs/heads/main"));
    assert!(!base_is_plainly("main~1", "refs/heads/main"));
    assert!(is_branch_config_selector("@{upstream}"));
    assert!(!is_branch_config_selector("@{1}"));
}
