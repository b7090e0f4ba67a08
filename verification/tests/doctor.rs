use std::collections::{BTreeMap, BTreeSet};

use velocity_code::doctor::{doctor, DoctorArgs};
use velocity_code::gitbase::{Ask, GitOut, Halt, Place, Reply};
use velocity_code::paths::TreePath;
use velocity_code::verbs::worktree_outcome;
use velocity_code::worktree::{counts, format_human, DoctorReport, Report, State, DEFAULT_STALE_DAYS};
use velocity_code::{ErrorKind, VcError};

const ROOT: &str = "/t/repo with space";
const NOW: u64 = 1_800_000_000;
const DAY: u64 = 86_400;

fn oid(n: u64) -> String {
    format!("{:040x}", n + 0xabc000)
}

#[derive(Clone)]
enum Ref {
    At(String),
    To(String),
}

#[derive(Clone)]
struct Row {
    path: String,
    head: String,
    branch: Option<String>,
    locked: Option<String>,
    prunable: Option<String>,
    status: String,
}

/// A failure to answer with: the words that have to be among the arguments, the exit code and
/// the complaint.
struct Fault {
    words: Vec<&'static str>,
    code: i32,
    err: &'static str,
}

/// A ref to be moved once, when a command is first asked for.
struct Move {
    command: &'static str,
    after: bool,
    name: &'static str,
    to: String,
}

/// Enough of git to answer what the doctor asks.
struct Sim {
    refs: BTreeMap<String, Ref>,
    commits: BTreeMap<String, (Vec<String>, u64)>,
    trees: Vec<Row>,
    remotes: Vec<String>,
    config: BTreeMap<String, String>,
    files: BTreeMap<String, Vec<u8>>,
    faults: Vec<Fault>,
    moved: Option<Move>,
    missing_git: bool,
    log: Vec<Vec<String>>,
}

fn ran(code: i32, out: String, err: &str) -> GitOut {
    GitOut { status: Some(code), stdout: out.into_bytes(), stderr: err.as_bytes().to_vec() }
}

impl Sim {
    fn ancestors(&self, of: &str) -> BTreeSet<String> {
        let mut seen = BTreeSet::new();
        let mut todo = vec![of.to_string()];
        while let Some(c) = todo.pop() {
            if seen.insert(c.clone()) {
                todo.extend(self.commits[&c].0.clone());
            }
        }
        seen
    }

    fn resolve_ref(&self, name: &str) -> Option<String> {
        match self.refs.get(name)? {
            Ref::At(c) => Some(c.clone()),
            Ref::To(next) => self.resolve_ref(next),
        }
    }

    fn resolve_name(&self, name: &str) -> Option<String> {
        if let Some(c) = self.resolve_ref(name) {
            return Some(c);
        }
        if self.commits.contains_key(name) {
            return Some(name.to_string());
        }
        if let Some(f) = self.files.get(&format!("{}/.git/{}", ROOT, name)) {
            let text = String::from_utf8_lossy(f).to_string();
            let first = text.split_whitespace().next().unwrap_or("").to_string();
            if self.commits.contains_key(&first) {
                return Some(first);
            }
        }
        for pre in ["refs/", "refs/tags/", "refs/heads/", "refs/remotes/"] {
            if let Some(c) = self.resolve_ref(&format!("{}{}", pre, name)) {
                return Some(c);
            }
        }
        None
    }

    fn resolve(&self, expr: &str) -> Option<String> {
        let cut = ["~", "^", "@{"].iter().filter_map(|op| expr.find(op)).min();
        let (name, mut rest) = match cut {
            Some(i) => expr.split_at(i),
            None => (expr, ""),
        };
        let mut at = self.resolve_name(name)?;
        while !rest.is_empty() {
            if let Some(r) = rest.strip_prefix("^{commit}") {
                rest = r;
            } else if let Some(r) = rest.strip_prefix("@{") {
                let (inner, r) = r.split_once('}')?;
                if inner != "0" {
                    let up = self.config.get(&format!("branch.{}.upstream", name))?;
                    at = self.resolve_ref(up)?;
                }
                rest = r;
            } else if let Some(r) = rest.strip_prefix('~') {
                let n: usize = r.chars().take_while(|c| c.is_ascii_digit()).collect::<String>().parse().ok()?;
                for _ in 0..n {
                    at = self.commits[&at].0.first()?.clone();
                }
                rest = r.trim_start_matches(|c: char| c.is_ascii_digit());
            } else {
                return None;
            }
        }
        Some(at)
    }

    fn listing(&self) -> String {
        let mut s = format!("worktree {}\0HEAD {}\0branch refs/heads/main\0\0", ROOT, self.resolve_ref("HEAD").unwrap());
        for t in &self.trees {
            s.push_str(&format!("worktree {}\0HEAD {}\0", t.path, t.head));
            match &t.branch {
                Some(b) => s.push_str(&format!("branch refs/heads/{}\0", b)),
                None => s.push_str("detached\0"),
            }
            if let Some(l) = &t.locked {
                s.push_str(&format!("locked {}\0", l));
            }
            if let Some(p) = &t.prunable {
                s.push_str(&format!("prunable {}\0", p));
            }
            s.push('\0');
        }
        s
    }

    fn shift(&mut self, command: &str, after: bool) {
        if self.moved.as_ref().map_or(false, |m| m.command == command && m.after == after) {
            let m = self.moved.take().unwrap();
            self.refs.insert(m.name.to_string(), Ref::At(m.to));
        }
    }

    fn answer(&mut self, place: &Place, args: &[String]) -> GitOut {
        self.log.push(args.to_vec());
        for f in &self.faults {
            if f.words.iter().all(|w| args.iter().any(|a| a == w)) {
                return ran(f.code, String::new(), f.err);
            }
        }
        self.shift(&args[0], false);
        let out = self.plain_answer(place, args);
        self.shift(&args[0], true);
        out
    }

    fn plain_answer(&mut self, place: &Place, args: &[String]) -> GitOut {
        let a: Vec<&str> = args.iter().map(|s| s.as_str()).collect();
        let line = |r: Option<String>| match r {
            Some(s) => ran(0, format!("{}\n", s), ""),
            None => ran(1, String::new(), ""),
        };
        match a.as_slice() {
            ["rev-parse", "--show-toplevel"] => ran(0, format!("{}\n", ROOT), ""),
            ["rev-parse", "--show-object-format"] => ran(0, "sha1\n".to_string(), ""),
            ["rev-parse", "--git-path", name] => ran(0, format!(".git/{}\n", name), ""),
            ["rev-parse", "--verify", "-q", expr] => line(self.resolve(expr)),
            ["symbolic-ref", "-q", name] | ["symbolic-ref", "-q", "--", name] => {
                line(match self.refs.get(*name) {
                    Some(Ref::To(next)) => Some(next.clone()),
                    _ => None,
                })
            },
            ["show-ref", "--verify", "-q", "--", name] => {
                ran(if self.resolve_ref(name).is_some() { 0 } else { 1 }, String::new(), "")
            },
            ["remote"] => ran(0, self.remotes.iter().map(|r| format!("{}\n", r)).collect(), ""),
            ["config", "--get-all", "--", key] => line(self.config.get(*key).cloned()),
            ["worktree", "list", "--porcelain", "-z"] => ran(0, self.listing(), ""),
            ["rev-list", "--left-right", "--count", range] => {
                let (b, h) = range.split_once("...").unwrap();
                let (bs, hs) = (self.ancestors(b), self.ancestors(h));
                ran(0, format!("{}\t{}\n", bs.difference(&hs).count(), hs.difference(&bs).count()), "")
            },
            ["log", "-1", "--no-show-signature", "--format=%ct", head, "--"] => {
                line(Some(self.commits[*head].1.to_string()))
            },
            ["merge-base", "--is-ancestor", head, base] => {
                ran(if self.ancestors(base).contains(*head) { 0 } else { 1 }, String::new(), "")
            },
            ["merge-tree", "--write-tree", "--messages", base, head] => {
                let (bs, hs) = (self.ancestors(base), self.ancestors(head));
                let (x, y) = (oid(4), oid(5));
                let clash = (bs.contains(&y) && !bs.contains(&x) && hs.contains(&x) && !hs.contains(&y))
                    || (bs.contains(&x) && !bs.contains(&y) && hs.contains(&y) && !hs.contains(&x));
                ran(if clash { 1 } else { 0 }, "tree\n".to_string(), "")
            },
            ["status", ..] => {
                let at = match place {
                    Place::At(p) => String::from_utf8(p.raw.clone()).unwrap(),
                    Place::Start => ROOT.to_string(),
                };
                ran(0, self.trees.iter().find(|t| t.path == at).unwrap().status.clone(), "")
            },
            ["fetch", ..] => ran(0, String::new(), ""),
            other => panic!("unexpected: {:?}", other),
        }
    }

    fn reply(&mut self, ask: &Ask) -> Reply {
        if self.missing_git {
            return Reply::Failed("No such file or directory (os error 2)".to_string());
        }
        match ask {
            Ask::Git { place, args } => Reply::Ran(self.answer(place, args)),
            Ask::ReadFile(p) => {
                let key = String::from_utf8(p.raw.clone()).unwrap();
                Reply::Ran(match self.files.get(&key) {
                    Some(bytes) => GitOut { status: Some(0), stdout: bytes.clone(), stderr: vec![] },
                    None => GitOut { status: Some(1), stdout: vec![], stderr: vec![] },
                })
            },
        }
    }

    fn run(&mut self, args: DoctorArgs) -> Result<DoctorReport, VcError> {
        let mut replies = Vec::new();
        loop {
            match doctor(&replies, &args, NOW) {
                Ok(r) => return Ok(r),
                Err(Halt::Refuse(e)) => return Err(e),
                Err(Halt::Ask(ask)) => {
                    let reply = self.reply(&ask);
                    replies.push(reply);
                },
            }
        }
    }

    fn scan(&mut self, base: Option<&str>) -> Result<DoctorReport, VcError> {
        self.run(DoctorArgs {
            start: TreePath::from_text(ROOT),
            base: base.map(|b| b.to_string()),
            stale_days: DEFAULT_STALE_DAYS,
            fetch: false,
        })
    }

    fn commit(&mut self, n: u64, parent: u64, time: u64) -> String {
        self.commits.insert(oid(n), (vec![oid(parent)], time));
        oid(n)
    }

    fn branch(&mut self, name: &str, at: &str) {
        self.refs.insert(format!("refs/heads/{}", name), Ref::At(at.to_string()));
    }

    fn set(&mut self, name: &str, at: &str) {
        self.refs.insert(name.to_string(), Ref::At(at.to_string()));
    }

    fn link(&mut self, name: &str, to: &str) {
        self.refs.insert(name.to_string(), Ref::To(to.to_string()));
    }

    fn tree(&mut self, path: &str, branch: &str, head: &str) {
        self.trees.push(Row {
            path: path.to_string(),
            head: head.to_string(),
            branch: Some(branch.to_string()),
            locked: None,
            prunable: None,
            status: String::new(),
        });
    }

    fn origin(&mut self, name: &str) {
        self.remotes.push(name.to_string());
        self.config.insert(
            format!("remote.{}.fetch", name),
            format!("+refs/heads/*:refs/remotes/{}/*", name),
        );
    }
}

/// `main` as the base, and one linked worktree per state.
fn fixture() -> Sim {
    let mut s = Sim {
        refs: BTreeMap::new(),
        commits: BTreeMap::new(),
        trees: vec![],
        remotes: vec![],
        config: BTreeMap::new(),
        files: BTreeMap::new(),
        faults: vec![],
        moved: None,
        missing_git: false,
        log: vec![],
    };
    s.commits.insert(oid(1), (vec![], NOW - 100));
    for (n, parent) in [(2, 1), (3, 2), (4, 2), (5, 2), (7, 5), (8, 5), (9, 5)] {
        s.commit(n, parent, NOW - 50);
    }
    s.commit(6, 5, NOW - 40 * DAY);
    s.branch("main", &oid(5));
    s.link("HEAD", "refs/heads/main");
    s.files.insert(format!("{}/.git/HEAD", ROOT), b"ref: refs/heads/main\n".to_vec());
    s.files.insert(format!("{}/.git/index", ROOT), b"DIRC\0\0\0\x02".to_vec());
    s.files.insert(format!("{}/.git/config", ROOT), b"[core]\n\tbare = false\n".to_vec());
    for (key, n) in [
        ("ready", 3),
        ("conflict", 4),
        ("merged", 5),
        ("stale", 6),
        ("dirty", 7),
        ("gone", 8),
        ("locked", 9),
        ("prunable", 5),
    ] {
        let branch = format!("feat/{}", key);
        if key != "gone" {
            s.branch(&branch, &oid(n));
        }
        s.tree(&format!("/t/wt dir/{}", key), &branch, &oid(n));
    }
    for t in &mut s.trees {
        if t.path.ends_with("/dirty") {
            t.status = "?? scratch.txt\n".to_string();
        }
        if t.path.ends_with("/gone") {
            t.head = "0".repeat(40);
            t.status = "A  a.txt\nA  b.txt\n".to_string();
        }
        if t.path.ends_with("/locked") {
            t.locked = Some("hands off".to_string());
        }
        if t.path.ends_with("/prunable") {
            t.prunable = Some("gitdir file points to non-existent location".to_string());
        }
    }
    s.trees.push(Row {
        path: "/t/wt dir/detached".to_string(),
        head: oid(5),
        branch: None,
        locked: None,
        prunable: None,
        status: String::new(),
    });
    s
}

fn row<'a>(r: &'a DoctorReport, key: &str) -> &'a Report {
    r.worktrees
        .iter()
        .find(|w| w.path.raw.ends_with(format!("/{}", key).as_bytes()))
        .unwrap()
}

#[test]
fn every_lifecycle_state_is_classified_exactly_once() {
    let mut s = fixture();
    let r = s.scan(None).unwrap();
    assert_eq!(r.base, "main");
    assert_eq!(r.base_source, "fallback");
    assert_eq!(r.main_branch.as_deref(), Some("main"));
    assert_eq!(r.worktrees.len(), 9);
    for (key, state) in [
        ("ready", State::MergeReady),
        ("conflict", State::Conflict),
        ("merged", State::Merged),
        ("stale", State::Stale),
        ("dirty", State::Dirty),
        ("gone", State::Stale),
        ("detached", State::Detached),
        ("locked", State::MergeReady),
        ("prunable", State::Prunable),
    ] {
        assert_eq!(row(&r, key).state, state, "{}: {:?}", key, row(&r, key));
    }
    let ready = row(&r, "ready");
    assert_eq!((ready.ahead, ready.behind), (Some(1), Some(1)));
    assert_eq!(ready.branch.as_deref(), Some("feat/ready"));
    assert!(ready.locked.is_none());
    assert_eq!(row(&r, "merged").ahead, Some(0));
    let stale = row(&r, "stale");
    assert!(stale.reason.contains("40 days old"), "{}", stale.reason);
    assert_eq!(stale.last_commit_unix, Some(NOW - 40 * DAY));
    assert_eq!(row(&r, "dirty").ahead, Some(1));
    let gone = row(&r, "gone");
    assert!(gone.reason.starts_with("branch no longer exists"), "{}", gone.reason);
    assert_eq!(gone.branch.as_deref(), Some("feat/gone"));
    assert_eq!(gone.ahead, None);
    assert!(row(&r, "detached").branch.is_none());
    let locked = row(&r, "locked");
    assert_eq!(locked.locked.as_deref(), Some("hands off"));
    assert!(locked.reason.ends_with("[locked: hands off]"), "{}", locked.reason);
    assert!(row(&r, "prunable").reason.starts_with("git reports prunable:"));
    let c = counts(&r);
    for (label, n) in [
        ("stale", 2),
        ("merge-ready", 2),
        ("dirty", 1),
        ("conflict", 1),
        ("merged", 1),
        ("detached", 1),
        ("prunable", 1),
    ] {
        assert_eq!(c.get(&label.to_string()), Some(&n), "{}", label);
    }
}

#[test]
fn human_output_is_one_tab_line_per_worktree_plus_summary() {
    let r = fixture().scan(None).unwrap();
    let text = format_human(&r);
    let lines: Vec<&str> = text.lines().collect();
    assert_eq!(lines.len(), 10);
    for l in &lines[..9] {
        let cols: Vec<&str> = l.split('\t').collect();
        assert_eq!(cols.len(), 5, "{:?}", l);
        assert!(cols[3].contains('/'), "{:?}", l);
        assert_ne!(cols[2], "main");
    }
    assert!(lines.iter().any(|l| l.starts_with("merge-ready\t/t/wt dir/ready\t")));
    let summary = lines[9];
    assert!(summary.starts_with("summary: 9 linked worktree(s)"), "{}", summary);
    assert!(summary.contains("base main (from fallback)"), "{}", summary);
    assert!(summary.contains("report-only, nothing was changed"), "{}", summary);
    assert_eq!(worktree_outcome(&r).human, text);
}

#[test]
fn stale_days_moves_the_boundary_and_base_flag_names_its_source() {
    let mut s = fixture();
    let wide = DoctorArgs {
        start: TreePath::from_text(ROOT),
        base: None,
        stale_days: 60,
        fetch: false,
    };
    assert_eq!(row(&s.run(wide).unwrap(), "stale").state, State::MergeReady);
    assert_eq!(s.scan(Some("main")).unwrap().base_source, "--base");
    assert_eq!(row(&s.scan(Some("feat/ready")).unwrap(), "ready").state, State::Base);
    s.branch("feat/twin", &oid(5));
    s.tree("/t/twin", "feat/twin", &oid(5));
    let r = s.scan(Some("feat/merged")).unwrap();
    assert_eq!(row(&r, "merged").state, State::Base);
    assert_eq!(row(&r, "twin").state, State::Merged);
}

fn with_origin() -> Sim {
    let mut s = fixture();
    s.origin("origin");
    s.set("refs/remotes/origin/main", &oid(5));
    s.link("refs/remotes/origin/HEAD", "refs/remotes/origin/main");
    s
}

#[test]
fn origin_head_wins_over_local_main_when_set() {
    let r = with_origin().scan(None).unwrap();
    assert_eq!(r.base, "origin/main");
    assert_eq!(r.base_source, "origin/HEAD");
    assert_eq!(row(&r, "conflict").state, State::Conflict);
    assert_eq!(row(&r, "merged").state, State::Merged);
}

#[test]
fn repo_flag_scans_another_repository_from_an_unrelated_cwd() {
    let mut s = fixture();
    let args = DoctorArgs {
        start: TreePath::from_text("/elsewhere"),
        base: None,
        stale_days: DEFAULT_STALE_DAYS,
        fetch: false,
    };
    assert_eq!(s.run(args.clone()).unwrap().worktrees.len(), 9);
    s.faults.push(Fault { words: vec!["--show-toplevel"], code: 128, err: "fatal: not a git repository" });
    let e = s.run(args).unwrap_err();
    assert_eq!(
        e.to_string(),
        "not-found: /elsewhere: not inside a git work tree — next: vc worktree doctor --repo <path>"
    );
}

#[test]
fn old_git_without_write_tree_reports_unknown_not_a_crash() {
    let mut s = fixture();
    s.faults.push(Fault {
        words: vec!["merge-tree"],
        code: 129,
        err: "usage: git merge-tree <base-tree> <branch1> <branch2>\n",
    });
    let r = s.scan(None).unwrap();
    for key in ["ready", "conflict", "stale", "locked"] {
        let w = row(&r, key);
        assert_eq!(w.state, State::Unknown, "{}", key);
        assert!(
            w.reason.contains("merge-tree unsupported: git too old for --write-tree"),
            "{}",
            w.reason
        );
    }
    assert_eq!(row(&r, "dirty").state, State::Dirty);
    assert_eq!(row(&r, "merged").state, State::Merged);
    assert_eq!(row(&r, "prunable").state, State::Prunable);
    assert_eq!(counts(&r).get(&"unknown".to_string()), Some(&4));
}

#[test]
fn failed_ancestry_query_is_unknown_even_when_merge_tree_would_be_clean() {
    let mut s = fixture();
    s.faults.push(Fault { words: vec!["merge-base"], code: 128, err: "fatal: simulated failure\n" });
    let r = s.scan(None).unwrap();
    for key in ["merged", "ready", "conflict", "stale", "locked"] {
        let w = row(&r, key);
        assert_eq!(w.state, State::Unknown, "{}", key);
        assert!(w.reason.contains("merge-base --is-ancestor failed"), "{}", w.reason);
    }
    assert_eq!(row(&r, "dirty").state, State::Dirty);
}

#[test]
fn a_failed_branch_lookup_is_unknown_not_a_deleted_branch_and_dirty_still_wins() {
    let mut s = fixture();
    for name in ["refs/heads/feat/ready^{commit}", "refs/heads/feat/dirty^{commit}"] {
        s.faults.push(Fault {
            words: vec!["rev-parse", name],
            code: 128,
            err: "fatal: simulated object store failure\n",
        });
    }
    let r = s.scan(None).unwrap();
    let ready = row(&r, "ready");
    assert_eq!(ready.state, State::Unknown);
    assert!(ready.reason.starts_with("ref lookup failed:"), "{}", ready.reason);
    assert!(ready.reason.contains("rev-parse exit 128"), "{}", ready.reason);
    assert_eq!(row(&r, "dirty").state, State::Dirty);
    assert_eq!(row(&r, "gone").state, State::Stale);
    assert_eq!(row(&r, "conflict").state, State::Conflict);
}

#[test]
fn an_existing_branch_that_fails_to_peel_is_unknown_not_deleted() {
    let mut s = fixture();
    s.faults.push(Fault {
        words: vec!["rev-parse", "refs/heads/feat/ready^{commit}"],
        code: 1,
        err: "error: expected commit type\n",
    });
    let r = s.scan(None).unwrap();
    let ready = row(&r, "ready");
    assert_eq!(ready.state, State::Unknown);
    assert!(ready.reason.contains("exists but does not peel to a commit"), "{}", ready.reason);
    assert_eq!(row(&r, "gone").state, State::Stale);
}

#[test]
fn a_failed_base_candidate_check_aborts_instead_of_picking_the_other() {
    let mut s = fixture();
    s.set("refs/tags/feat/merged", &oid(2));
    s.faults.push(Fault {
        words: vec!["show-ref", "refs/tags/feat/merged"],
        code: 128,
        err: "fatal: simulated\n",
    });
    let e = s.scan(Some("feat/merged")).unwrap_err();
    assert_eq!(e.exit_code(), 1);
    assert!(e.message.contains("could not check whether refs/tags/feat/merged exists"), "{}", e.message);
}

#[test]
fn base_resolution_query_failures_are_errors_not_silent_choices() {
    let mut s = with_origin();
    s.faults.push(Fault { words: vec!["symbolic-ref"], code: 128, err: "fatal: simulated\n" });
    let e = s.scan(Some("origin/HEAD")).unwrap_err();
    assert_eq!(e.exit_code(), 1);
    assert!(e.message.contains("symbolic-ref"), "{}", e.message);

    let mut s = with_origin();
    s.faults.push(Fault { words: vec!["remote"], code: 128, err: "fatal: simulated\n" });
    let e = s.scan(Some("refs/remotes/origin/main")).unwrap_err();
    assert_eq!(e.exit_code(), 1);
    assert!(e.message.contains("git remote failed"), "{}", e.message);

    let mut s = with_origin();
    s.set("refs/tags/HEAD", &oid(1));
    s.faults.push(Fault { words: vec!["--git-path"], code: 128, err: "fatal: simulated\n" });
    let e = s.scan(Some("HEAD")).unwrap_err();
    assert_eq!(e.exit_code(), 1);
    assert!(e.message.contains("--git-path HEAD failed"), "{}", e.message);
}

#[test]
fn automatic_base_selection_errors_when_a_preferred_candidate_cannot_be_checked() {
    let mut s = fixture();
    s.faults.push(Fault { words: vec!["symbolic-ref"], code: 128, err: "fatal: simulated\n" });
    let e = s.scan(None).unwrap_err();
    assert_eq!(e.exit_code(), 1);
    assert!(e.message.contains("symbolic-ref refs/remotes/origin/HEAD failed"), "{}", e.message);

    let mut s = fixture();
    s.branch("master", &oid(2));
    s.faults.push(Fault {
        words: vec!["show-ref", "refs/heads/main"],
        code: 128,
        err: "fatal: simulated\n",
    });
    let e = s.scan(None).unwrap_err();
    assert_eq!(e.exit_code(), 1);
    assert!(e.message.contains("base candidate refs/heads/main"), "{}", e.message);
    s.faults.clear();
    let r = s.scan(None).unwrap();
    assert_eq!((r.base_source.as_str(), r.base.as_str()), ("fallback", "main"));
}

#[test]
fn a_base_ref_that_moves_mid_scan_does_not_change_the_comparison() {
    let mut s = fixture();
    s.moved = Some(Move {
        command: "merge-base",
        after: false,
        name: "refs/heads/main",
        to: oid(2),
    });
    let r = s.scan(None).unwrap();
    assert!(s.moved.is_none());
    assert_ne!(s.resolve_ref("refs/heads/main"), Some(oid(5)));
    assert_eq!(r.base_commit, oid(5));
    let merged = row(&r, "merged");
    assert_eq!(merged.state, State::Merged);
    assert_eq!((merged.ahead, merged.behind), (Some(0), Some(0)));
    assert_eq!(row(&r, "conflict").state, State::Conflict);
}

#[test]
fn a_linked_branch_that_moves_after_listing_cannot_become_base_with_a_stale_row() {
    let mut s = fixture();
    s.origin("origin");
    s.set("refs/remotes/origin/feat/twin", &oid(5));
    let empty_tip = s.commit(20, 5, NOW - 10);
    s.branch("feat/twin", &empty_tip);
    s.tree("/t/twin mv", "feat/twin", &empty_tip);
    s.moved = Some(Move {
        command: "worktree",
        after: true,
        name: "refs/heads/feat/twin",
        to: oid(5),
    });
    let r = s.scan(Some("refs/remotes/origin/feat/twin")).unwrap();
    assert_eq!(s.resolve_ref("refs/heads/feat/twin"), Some(oid(5)));
    let twin = row(&r, "twin mv");
    assert_eq!(twin.head.as_deref(), Some(empty_tip.as_str()));
    assert_eq!(twin.ahead, Some(1));
    assert_eq!(twin.state, State::MergeReady);
}

#[test]
fn an_unreadable_commit_date_is_unknown_not_merge_ready() {
    let mut s = fixture();
    s.faults.push(Fault { words: vec!["log"], code: 128, err: "fatal: simulated\n" });
    let r = s.scan(None).unwrap();
    for key in ["ready", "stale", "locked"] {
        assert_eq!(row(&r, key).state, State::Unknown, "{}", key);
        assert_eq!(row(&r, key).last_commit_unix, None);
    }
    assert_eq!(row(&r, "merged").state, State::Merged);
    assert_eq!(row(&r, "conflict").state, State::Conflict);
    assert_eq!(row(&r, "dirty").state, State::Dirty);
}

#[test]
fn missing_git_binary_is_an_io_refusal() {
    let mut s = fixture();
    s.missing_git = true;
    let e = s.scan(None).unwrap_err();
    assert_eq!(e.exit_code(), 1);
    assert!(e.to_string().starts_with("io: git: failed to run"), "{}", e.to_string());
}

#[test]
fn a_tag_sharing_a_branch_name_cannot_redirect_the_comparison() {
    let mut s = fixture();
    s.set("refs/tags/main", &oid(1));
    let r = s.scan(None).unwrap();
    assert_eq!(r.base, "main");
    assert_eq!(r.base_full, "refs/heads/main");
    assert_eq!(row(&r, "merged").state, State::Merged);
    assert_eq!(row(&r, "conflict").state, State::Conflict);
    assert_eq!(row(&r, "ready").ahead, Some(1));

    s.set("refs/tags/feat/ready", &oid(1));
    let r = s.scan(Some("refs/heads/feat/ready")).unwrap();
    assert_eq!(r.base_full, "refs/heads/feat/ready");
    assert_eq!(row(&r, "ready").state, State::Base);
    let e = s.scan(Some("feat/ready")).unwrap_err();
    assert_eq!(e.exit_code(), 2);
    assert!(
        e.message.contains("ambiguous (refs/tags/feat/ready, refs/heads/feat/ready)"),
        "{}",
        e.message
    );
    let r = s.scan(Some("refs/tags/feat/ready")).unwrap();
    assert_eq!(r.base_full, "refs/tags/feat/ready");
    assert_ne!(row(&r, "ready").state, State::Base);
    assert_eq!(row(&r, "ready").ahead, Some(2));
    assert!(format_human(&r).contains("base refs/tags/feat/ready (from --base)"));
    let r = s.scan(Some("feat/merged")).unwrap();
    assert!(format_human(&r).contains("base feat/merged (from --base)"));
    let e = s.scan(Some("no-such-ref")).unwrap_err();
    assert_eq!(e.exit_code(), 1);
    assert!(e.message.contains("does not name a commit"), "{}", e.message);
}

#[test]
fn a_remote_whose_name_contains_a_slash_still_identifies_the_base_branch() {
    let mut s = fixture();
    s.origin("team/upstream");
    s.set("refs/remotes/team/upstream/main", &oid(5));
    s.set("refs/remotes/team/upstream/feat/merged", &oid(5));
    s.branch("upstream/main", &oid(5));
    s.tree("/t/decoy", "upstream/main", &oid(5));
    let r = s.scan(Some("refs/remotes/team/upstream/feat/merged")).unwrap();
    assert_eq!(r.base_full, "refs/remotes/team/upstream/feat/merged");
    assert_eq!(row(&r, "merged").state, State::Base);
    let r = s.scan(Some("refs/remotes/team/upstream/main")).unwrap();
    assert_eq!(row(&r, "decoy").state, State::Merged);
}

#[test]
fn a_tag_named_head_cannot_capture_a_head_relative_base_expression() {
    let mut s = fixture();
    s.set("refs/tags/HEAD", &oid(1));
    let r = s.scan(Some("HEAD~1")).unwrap();
    assert_eq!(r.base_full, "HEAD~1");
    let merged = row(&r, "merged");
    assert_eq!(merged.state, State::MergeReady);
    assert_eq!((merged.ahead, merged.behind), (Some(1), Some(0)));
    let e = s.scan(Some("HEAD")).unwrap_err();
    assert_eq!(e.exit_code(), 2);
    assert!(e.message.contains("ambiguous (HEAD, refs/tags/HEAD)"), "{}", e.message);
    s.refs.remove("refs/tags/HEAD");
    let r = s.scan(Some("HEAD")).unwrap();
    assert_eq!(r.base_full, "refs/heads/main");
    assert_eq!(row(&r, "conflict").state, State::Conflict);
}

#[test]
fn an_uppercase_branch_name_is_a_branch_not_a_pseudo_ref() {
    let mut s = fixture();
    s.branch("RELEASE", &oid(5));
    s.tree("/t/release wt", "RELEASE", &oid(5));
    let r = s.scan(Some("RELEASE")).unwrap();
    assert_eq!(r.base_full, "refs/heads/RELEASE");
    assert_eq!(row(&r, "release wt").state, State::Base);
    s.set("refs/tags/RELEASE", &oid(2));
    let e = s.scan(Some("RELEASE")).unwrap_err();
    assert_eq!(e.exit_code(), 2);
    assert!(e.message.contains("ambiguous (refs/tags/RELEASE, refs/heads/RELEASE)"), "{}", e.message);
}

#[test]
fn a_branch_named_like_an_ordinary_git_dir_file_is_not_ambiguous() {
    let mut s = fixture();
    s.branch("index", &oid(5));
    s.tree("/t/index wt", "index", &oid(5));
    let r = s.scan(Some("index")).unwrap();
    assert_eq!(r.base_full, "refs/heads/index");
    assert_eq!(row(&r, "index wt").state, State::Base);
    s.branch("config", &oid(5));
    assert_eq!(s.scan(Some("config")).unwrap().base_full, "refs/heads/config");
}

#[test]
fn a_populated_fetch_head_is_a_pseudo_ref_and_collides_with_a_same_named_branch() {
    let mut s = fixture();
    s.files.insert(
        format!("{}/.git/FETCH_HEAD", ROOT),
        format!("{}\t\tbranch 'main' of /nowhere\n", oid(1)).into_bytes(),
    );
    let r = s.scan(Some("FETCH_HEAD")).unwrap();
    assert_eq!(r.base_full, "FETCH_HEAD");
    assert_eq!(row(&r, "merged").ahead, Some(2));
    s.branch("FETCH_HEAD", &oid(5));
    let e = s.scan(Some("FETCH_HEAD")).unwrap_err();
    assert_eq!(e.exit_code(), 2);
    assert!(e.message.contains("ambiguous (FETCH_HEAD, refs/heads/FETCH_HEAD)"), "{}", e.message);
}

#[test]
fn an_explicit_symbolic_base_is_dereferenced_to_its_target_branch() {
    let mut s = with_origin();
    s.set("refs/remotes/origin/feat/merged", &oid(5));
    s.link("refs/remotes/origin/HEAD", "refs/remotes/origin/feat/merged");
    for spelling in ["origin/HEAD", "refs/remotes/origin/HEAD", "origin"] {
        let r = s.scan(Some(spelling)).unwrap();
        assert_eq!(r.base_full, "refs/remotes/origin/feat/merged", "{}", spelling);
        assert_eq!(row(&r, "merged").state, State::Base, "{}", spelling);
    }
}

#[test]
fn an_expression_over_an_ambiguous_name_is_refused_not_resolved_by_precedence() {
    let mut s = fixture();
    s.branch("release", &oid(5));
    s.set("refs/tags/release", &oid(2));
    let e = s.scan(Some("release~1")).unwrap_err();
    assert_eq!(e.exit_code(), 2);
    assert!(e.message.contains("ambiguous operand release"), "{}", e.message);
    s.refs.remove("refs/tags/release");
    let r = s.scan(Some("release~1")).unwrap();
    assert_eq!(r.base_full, "refs/heads/release~1");
    assert_eq!(r.base_commit, oid(2));
    assert_eq!(s.scan(Some("HEAD~1")).unwrap().base_commit, oid(2));
}

#[test]
fn a_full_object_id_base_is_the_commit_unless_a_ref_is_spelled_like_it() {
    let mut s = fixture();
    let tip = oid(5);
    let r = s.scan(Some(&tip)).unwrap();
    assert_eq!(r.base_commit, tip);
    assert_eq!(row(&r, "merged").state, State::Merged);
    s.set(&format!("refs/tags/{}", tip), &oid(1));
    let e = s.scan(Some(&tip)).unwrap_err();
    assert_eq!(e.exit_code(), 2);
    assert!(e.message.contains("a full object id, but also the name of"), "{}", e.message);
    let r = s.scan(Some(&format!("{}^{{commit}}", tip))).unwrap();
    assert_eq!(r.base_commit, tip);
}

#[test]
fn branch_keyed_selectors_survive_operand_disambiguation() {
    let mut s = with_origin();
    s.config.insert("branch.main.upstream".to_string(), "refs/remotes/origin/main".to_string());
    let local = s.commit(30, 5, NOW - 5);
    s.branch("main", &local);
    for (expr, want) in [
        ("main@{upstream}", oid(5)),
        ("main@{u}", oid(5)),
        ("main@{u}~1", oid(2)),
        ("main@{push}", oid(5)),
    ] {
        let r = s.scan(Some(expr)).unwrap();
        assert_eq!(r.base_commit, want, "{}", expr);
        assert_eq!(r.base_full, expr);
    }
    s.branch("release", &local);
    s.set("refs/tags/release", &oid(1));
    let r = s.scan(Some("refs/heads/release@{0}")).unwrap();
    assert_eq!(r.base_commit, local);
    assert_eq!(r.base_full, "refs/heads/release@{0}");
    let e = s.scan(Some("release@{0}")).unwrap_err();
    assert_eq!(e.exit_code(), 2);
    assert!(e.message.contains("ambiguous operand release"), "{}", e.message);
    s.set("refs/tags/main", &oid(1));
    let e = s.scan(Some("main@{upstream}")).unwrap_err();
    assert!(e.message.contains("ambiguous operand main"), "{}", e.message);
}

#[test]
fn a_ref_name_containing_unicode_whitespace_is_not_confused_with_its_trimmed_twin() {
    let mut s = fixture();
    s.origin("origin");
    let nbsp = "refs/remotes/origin/topic\u{a0}";
    s.set(nbsp, &oid(5));
    s.set("refs/remotes/origin/topic", &oid(1));
    s.link("refs/remotes/origin/HEAD", nbsp);
    let r = s.scan(None).unwrap();
    assert_eq!(r.base_source, "origin/HEAD");
    assert_eq!(r.base_full, nbsp);
    assert_eq!(r.base_commit, oid(5));
    let r = s.scan(Some("origin/HEAD")).unwrap();
    assert_eq!((r.base_full.as_str(), r.base_commit), (nbsp, oid(5)));
    assert_eq!(s.scan(Some(nbsp)).unwrap().base_commit, oid(5));
}

#[test]
fn a_symbolic_fallback_main_identifies_its_target_branch() {
    let mut s = fixture();
    s.link("refs/heads/main", "refs/heads/feat/merged");
    for base in [None, Some("main")] {
        let r = s.scan(base).unwrap();
        assert_eq!(r.base, "main");
        assert_eq!(r.base_full, "refs/heads/feat/merged");
        assert_eq!(row(&r, "merged").state, State::Base);
    }
}

#[test]
fn origin_head_pointing_at_a_local_branch_identifies_it_on_every_path() {
    let mut s = fixture();
    s.link("refs/remotes/origin/HEAD", "refs/heads/feat/merged");
    let auto = s.scan(None).unwrap();
    assert_eq!(auto.base_source, "origin/HEAD");
    let explicit = s.scan(Some("origin/HEAD")).unwrap();
    for r in [auto, explicit] {
        assert_eq!(r.base_full, "refs/heads/feat/merged");
        assert_eq!(r.base_commit, oid(5));
        assert_eq!(row(&r, "merged").state, State::Base);
    }
}

#[test]
fn without_the_fetch_flag_only_reading_commands_are_asked_for() {
    let mut s = with_origin();
    s.scan(None).unwrap();
    s.scan(Some("feat/merged")).unwrap();
    let allowed = [
        "rev-parse", "symbolic-ref", "show-ref", "remote", "config", "worktree", "rev-list", "log",
        "merge-base", "merge-tree", "status",
    ];
    for args in &s.log {
        assert!(allowed.contains(&args[0].as_str()), "{:?}", args);
    }
}

#[test]
fn not_a_git_repo_is_a_refusal_and_no_base_is_usage() {
    let mut s = fixture();
    s.refs.clear();
    s.trees.clear();
    s.branch("trunk", &oid(5));
    s.link("HEAD", "refs/heads/trunk");
    let e = s.scan(None).unwrap_err();
    assert_eq!(e.exit_code(), 2);
    assert!(e.message.contains("no base branch found"), "{}", e.message);
    let r = s.scan(Some("trunk")).unwrap();
    assert!(r.worktrees.is_empty());
    assert!(format_human(&r).starts_with("summary: 0 linked worktree(s) — none"));
    s.faults.push(Fault { words: vec!["--show-toplevel"], code: 128, err: "fatal\n" });
    let e = s.scan(None).unwrap_err();
    assert_eq!(e.exit_code(), 1);
    assert!(e.message.contains("not inside a git work tree"), "{}", e.message);
}

#[test]
fn a_sixty_four_hex_tag_name_is_a_name_in_a_sha1_repository() {
    let mut s = fixture();
    let name = "a".repeat(64);
    s.set(&format!("refs/tags/{}", name), &oid(1));
    let r = s.scan(Some(&name)).unwrap();
    assert_eq!(r.base_commit, oid(1));
    assert_eq!(r.base_full, format!("refs/tags/{}", name));
}

#[test]
fn a_remote_named_like_an_option_is_still_fetched_as_a_remote() {
    let mut s = fixture();
    s.origin("--all");
    s.set("refs/remotes/--all/main", &oid(5));
    s.run(DoctorArgs {
        start: TreePath::from_text(ROOT),
        base: Some("refs/remotes/--all/main".to_string()),
        stale_days: DEFAULT_STALE_DAYS,
        fetch: true,
    })
    .unwrap();
    let fetch = s.log.iter().find(|a| a[0] == "fetch").unwrap();
    let dashes = fetch.iter().position(|a| a == "--").unwrap();
    assert_eq!(fetch[dashes + 1], "--all");
    assert_eq!(fetch[dashes + 2], "+refs/heads/main:refs/remotes/--all/main");
}

#[test]
fn a_fetch_names_the_one_ref_of_the_base() {
    let mut s = with_origin();
    let args = DoctorArgs {
        start: TreePath::from_text(ROOT),
        base: None,
        stale_days: DEFAULT_STALE_DAYS,
        fetch: true,
    };
    s.run(args.clone()).unwrap();
    let fetch = s.log.iter().find(|a| a[0] == "fetch").unwrap();
    assert_eq!(
        fetch.last().map(|r| r.as_str()),
        Some("+refs/heads/main:refs/remotes/origin/main")
    );
    assert!(fetch.contains(&"--no-prune".to_string()), "{:?}", fetch);

    let mut s = with_origin();
    s.config.insert(
        "remote.origin.fetch".to_string(),
        "+refs/heads/*:refs/remotes/origin/*\n^refs/heads/main".to_string(),
    );
    let e = s.run(args).unwrap_err();
    assert_eq!(e.kind, ErrorKind::Usage);
    assert!(e.message.contains("excluded by a negative refspec"), "{}", e.message);
}
