use std::collections::{BTreeMap, BTreeSet};

use velocity_code::apply::{
    apply_plan, apply_report, commit_files, group_edits_by_file, journal_entry, undo, undo_entry,
    undo_report, undo_target, ApplyReport, Change, CommitStep, FileRead, Sighting,
};
use velocity_code::codec::{b64d, b64e, bytes_hash, file_hash, hex_lower, sha256_hex, ContentHasher};
use velocity_code::fault::FaultPoint;
use velocity_code::index::{epoch8, refresh, FileStat, StatIndex};
use velocity_code::journal::{DirEntry, EntryRead, FileImage, Journal, JournalEntry};
use velocity_code::lock::{check_state_dir, Lock, LockAttempt};
use velocity_code::ordmap::OrdMap;
use velocity_code::paths::{path_is_root_relative, TreePath};
use velocity_code::plan::{
    select_plan, Canon, MatchSelector, Plan, PlanForm, PlanRead, ResolvedEdit, WalkedFile,
};
use velocity_code::recover::{
    doctor, inspect_lock, restore_entry, status, DoctorAction, DoctorReport, DoctorStep, LockRead,
};
use velocity_code::resolve::{resolve_edits, EditRequest};
use velocity_code::root::{find_root, Look, Marker};
use velocity_code::walk::{lang_tag, skips_entry, walk_scoped};
use velocity_code::{ErrorKind, VcError, VcResult};

const ROOT: &str = "/r";

fn path(text: &str) -> TreePath {
    TreePath::from_text(text)
}

fn req(p: &str, old: &str, new: &str) -> EditRequest {
    EditRequest {
        path: path(p),
        old: old.as_bytes().to_vec(),
        new: new.as_bytes().to_vec(),
        line_hint: None,
    }
}

fn name(p: &TreePath) -> String {
    String::from_utf8(p.raw.clone()).unwrap()
}

/// A repository in memory, driven the way the command line drives one on disk.
struct Repo {
    files: BTreeMap<String, Vec<u8>>,
    links: BTreeMap<String, Vec<u8>>,
    entries: BTreeMap<String, JournalEntry>,
    committed: BTreeSet<String>,
    locked: bool,
    index: StatIndex,
    ticks: i128,
    mtimes: BTreeMap<String, i128>,
    crash_at: Option<FaultPoint>,
}

impl Repo {
    fn new(files: &[(&str, &str)]) -> Repo {
        let mut r = Repo {
            files: BTreeMap::new(),
            links: BTreeMap::new(),
            entries: BTreeMap::new(),
            committed: BTreeSet::new(),
            locked: false,
            index: StatIndex::empty(),
            ticks: 0,
            mtimes: BTreeMap::new(),
            crash_at: None,
        };
        for (n, c) in files {
            r.write(n, c.as_bytes());
        }
        r
    }

    fn write(&mut self, n: &str, bytes: &[u8]) {
        self.ticks += 1;
        self.files.insert(n.to_string(), bytes.to_vec());
        self.mtimes.insert(n.to_string(), self.ticks);
    }

    fn text(&self, n: &str) -> String {
        String::from_utf8(self.files[n].clone()).unwrap()
    }

    fn refresh(&mut self) -> String {
        let stats: Vec<FileStat> = self
            .files
            .iter()
            .map(|(n, c)| FileStat {
                path: path(n),
                size: c.len() as u64,
                mtime_ns: self.mtimes[n],
                hash: bytes_hash(c),
            })
            .collect();
        let (mut ix, epoch) = refresh(&self.index, &stats);
        ix.bump();
        self.index = ix;
        epoch
    }

    fn disk(&self) -> OrdMap<TreePath, Vec<u8>> {
        let mut m = OrdMap::new();
        for (n, c) in &self.files {
            m.insert(path(n), c.clone());
        }
        m
    }

    fn canon(&self, paths: &[TreePath]) -> OrdMap<TreePath, Canon> {
        let mut m = OrdMap::new();
        for p in paths {
            let full = if name(p).starts_with('/') {
                name(p)
            } else {
                format!("{}/{}", ROOT, name(p))
            };
            m.insert(p.copy(), Canon::Real(path(&full)));
        }
        m
    }

    fn build(&mut self, reqs: &[EditRequest]) -> VcResult<Plan> {
        let paths: Vec<TreePath> = reqs.iter().map(|q| q.path.copy()).collect();
        let canon = self.canon(&paths);
        let disk = self.disk();
        let epoch = self.refresh();
        Plan::build(path(ROOT), PlanForm::Edit, &reqs.to_vec(), &disk, &canon, Ok(epoch), 1)
    }

    fn plan(&mut self, edits: &[(&str, &str, &str)]) -> Plan {
        let reqs: Vec<EditRequest> = edits.iter().map(|(p, o, n)| req(p, o, n)).collect();
        self.build(&reqs).unwrap()
    }

    fn dir(&self) -> Vec<DirEntry> {
        let mut d = Vec::new();
        for id in self.entries.keys() {
            d.push(DirEntry { name: format!("{}.json", id).into_bytes(), is_file: true });
        }
        for id in &self.committed {
            d.push(DirEntry { name: format!("{}.committed", id).into_bytes(), is_file: true });
        }
        if self.locked {
            d.push(DirEntry { name: b"LOCK".to_vec(), is_file: true });
        }
        d
    }

    fn sighting(&self, p: &TreePath) -> Sighting {
        let n = name(p);
        if self.links.contains_key(&n) {
            return Sighting::Symlink;
        }
        match self.files.get(&n) {
            None => Sighting::Missing,
            Some(c) => {
                let parent = match n.rsplit_once('/') {
                    Some((d, _)) => format!("{}/{}", ROOT, d),
                    None => ROOT.to_string(),
                };
                Sighting::Present { parent: path(&parent), hash: Ok(bytes_hash(c)) }
            },
        }
    }

    fn read(&self, p: &TreePath) -> FileRead {
        match self.files.get(&name(p)).or_else(|| self.links.get(&name(p))) {
            Some(c) => FileRead::Bytes(c.clone()),
            None => FileRead::Failed("No such file or directory (os error 2)".to_string()),
        }
    }

    fn lock(&mut self) -> VcResult<()> {
        check_state_dir(Marker::Directory)?;
        let attempt = if self.locked { LockAttempt::Exists } else { LockAttempt::Created };
        let lock = Lock::acquire(&path(ROOT), Marker::Directory, &attempt)?;
        assert_eq!(name(&lock.path), "/r/.vc/journal/LOCK");
        self.locked = true;
        Ok(())
    }

    /// Carries changes to the files; the epoch after them, or nothing after a crash.
    fn commit(&mut self, entry: JournalEntry, changes: &Vec<Change>) -> Option<String> {
        let id = entry.id.clone();
        for step in commit_files(changes) {
            match step {
                CommitStep::WriteEntry => {
                    self.entries.insert(id.clone(), entry.clone());
                },
                CommitStep::WriteFile(i) => {
                    let c = changes[i].clone();
                    self.write(&name(&c.path), &c.post);
                },
                CommitStep::MarkCommitted => {
                    self.committed.insert(id.clone());
                },
                CommitStep::RefreshIndex => {},
                CommitStep::Fault(f) => {
                    if self.crash_at == Some(f) {
                        return None;
                    }
                },
            }
        }
        let epoch = self.refresh();
        self.locked = false;
        Some(epoch)
    }

    fn apply(&mut self, p: &Plan) -> VcResult<Option<ApplyReport>> {
        self.lock()?;
        let seen: Vec<Sighting> = p.files.entries.iter().map(|e| self.sighting(&e.0)).collect();
        let reads: Vec<FileRead> =
            group_edits_by_file(p).entries.iter().map(|e| self.read(&e.0)).collect();
        let (_, pending) = Journal::scan(&self.dir());
        let r = match apply_plan(p, "sha8sha8", &pending, &seen, &reads) {
            Ok(changes) => {
                let id = Journal::next_id(&self.dir());
                let entry = journal_entry(id.clone(), "plan".to_string(), 1, &changes);
                let done = self.commit(entry, &changes);
                Ok(done.map(|epoch| apply_report(id, changes.len(), p.edits.len(), Ok(epoch))))
            },
            Err(e) => Err(e),
        };
        if r.is_err() {
            self.locked = false;
        }
        r
    }

    fn undo(&mut self, id: Option<&str>) -> VcResult<ApplyReport> {
        self.lock()?;
        let r = self.undo_locked(id);
        self.locked = false;
        r
    }

    fn undo_locked(&mut self, id: Option<&str>) -> VcResult<ApplyReport> {
        let target = undo_target(id.map(|s| s.to_string()), &self.dir())?;
        let read = match self.entries.get(&target) {
            Some(e) => EntryRead::Parsed(e.clone()),
            None => EntryRead::Missing,
        };
        let entry = Journal::load(&target, read)?;
        let seen: Vec<Sighting> = entry.files.iter().map(|f| self.sighting(&f.path)).collect();
        let reads: Vec<FileRead> = entry.files.iter().map(|f| self.read(&f.path)).collect();
        let changes = undo(&entry, &path(ROOT), &seen, &reads)?;
        let id = Journal::next_id(&self.dir());
        let epoch = self.commit(undo_entry(id.clone(), &entry, 2, &changes), &changes).unwrap();
        Ok(undo_report(id, changes.len(), Ok(epoch)))
    }

    fn doctor(&mut self, action: DoctorAction, lock: LockRead, alive: bool) -> VcResult<DoctorReport> {
        let state = inspect_lock(&lock, alive);
        let plan = doctor(action, &state, &self.dir())?;
        for step in &plan.steps {
            match step {
                DoctorStep::Restore(id) => {
                    let (files, fault) = restore_entry(&self.entries[id]);
                    for f in files {
                        self.write(&name(&f.path), &f.bytes);
                    }
                    if let Some(e) = fault {
                        return Err(e);
                    }
                },
                DoctorStep::DeleteEntry(id) => {
                    self.entries.remove(id);
                },
                DoctorStep::RemoveLock => self.locked = false,
            }
        }
        Ok(plan.report)
    }
}

#[test]
fn display_uses_error_grammar() {
    let e = VcError::new(ErrorKind::Stale, "src/config.rs changed since plan".to_string())
        .with_next("vc plan --refresh 77bd02aa".to_string());
    assert_eq!(
        e.to_string(),
        "stale: src/config.rs changed since plan — next: vc plan --refresh 77bd02aa"
    );
    let e2 = VcError::new(ErrorKind::Io, "permission denied".to_string());
    assert_eq!(e2.to_string(), "io: permission denied");
}

#[test]
fn exit_codes_match_spec() {
    let code = |k: ErrorKind| VcError::new(k, String::new()).exit_code();
    assert_eq!(code(ErrorKind::Usage), 2);
    assert_eq!(code(ErrorKind::Stale), 3);
    assert_eq!(code(ErrorKind::ScopeDrift), 4);
    assert_eq!(code(ErrorKind::JournalBlocked), 5);
    for k in [
        ErrorKind::NotFound,
        ErrorKind::Ambiguous,
        ErrorKind::Overlap,
        ErrorKind::Malformed,
        ErrorKind::Toctou,
        ErrorKind::Io,
        ErrorKind::Budget,
    ] {
        assert_eq!(code(k), 1);
    }
}

#[test]
fn hashes_file_content_blake3_hex() {
    let h = file_hash(&vec![b"hello".to_vec()]);
    assert_eq!(h, blake3::hash(b"hello").to_hex().to_string());
}

#[test]
fn streamed_hash_equals_bytes_hash_across_buffer_boundaries() {
    let chunk = 64 * 1024;
    let content: Vec<u8> = (0..chunk * 3 + chunk / 2).map(|i: usize| (i % 251) as u8).collect();
    let chunks: Vec<Vec<u8>> = content.chunks(chunk).map(|c| c.to_vec()).collect();
    assert_eq!(chunks.len(), 4);
    assert_eq!(file_hash(&chunks), bytes_hash(&content));
    let mut h = ContentHasher::new();
    for c in &chunks {
        h.update(c);
    }
    assert_eq!(h.finish(), bytes_hash(&content));
}

#[test]
fn streamed_hash_of_an_empty_file_matches_the_empty_digest() {
    assert_eq!(file_hash(&vec![]), bytes_hash(b""));
    assert_eq!(
        bytes_hash(b""),
        "af1349b9f5f9a1a6a0404dea36dcc9499bcb25c9adc112b7cc9a93cae41f3262"
    );
}

#[test]
fn digests_and_encodings_have_their_published_values() {
    assert_eq!(
        sha256_hex(b"abc"),
        "ba7816bf8f01cfea414140de5dae2223b00361a396177a9cb410ff61f20015ad"
    );
    assert_eq!(hex_lower(&[0, 15, 16, 255]), "000f10ff");
    assert_eq!(b64e(b"one"), "b25l");
    assert_eq!(b64e(b"hello"), "aGVsbG8=");
    assert_eq!(b64d("aGVsbG8=").unwrap(), b"hello");
    let e = b64d("*").unwrap_err();
    assert_eq!(e.kind, ErrorKind::Malformed);
    assert!(e.message.starts_with("base64: "), "{}", e.message);
}

#[test]
fn refresh_builds_and_epoch_changes_only_on_content_change() {
    let mut r = Repo::new(&[("a.rs", "one")]);
    let e1 = r.refresh();
    assert_eq!(r.index.entries.entries.len(), 1);
    let e2 = r.refresh();
    assert_eq!(e1, e2, "no change -> same epoch");
    r.write("a.rs", b"two");
    let e3 = r.refresh();
    assert_ne!(e1, e3, "content change -> new epoch");
    assert_eq!(r.index.entries.get(&path("a.rs")).unwrap().hash, bytes_hash(b"two"));
    assert_eq!(epoch8(&e1), &e1[..8]);
}

#[test]
fn stat_fast_path_reuses_hash_but_detects_touch_with_same_size() {
    let mut r = Repo::new(&[("a.rs", "abc")]);
    let e1 = r.refresh();
    r.write("a.rs", b"abd");
    let e2 = r.refresh();
    assert_ne!(e1, e2);
    assert!(r.index.knows(&path("a.rs"), 3, r.mtimes["a.rs"]));
    assert!(!r.index.knows(&path("a.rs"), 3, r.mtimes["a.rs"] + 1));
    assert!(!r.index.knows(&path("b.rs"), 3, r.mtimes["a.rs"]));
    let stale = FileStat {
        path: path("a.rs"),
        size: 3,
        mtime_ns: r.mtimes["a.rs"],
        hash: "not looked at".to_string(),
    };
    let (ix, _) = refresh(&r.index, &vec![stale]);
    assert_eq!(ix.entries.get(&path("a.rs")).unwrap().hash, bytes_hash(b"abd"));
}

#[test]
fn v1_headerless_index_is_treated_as_absent_and_rebuilt() {
    assert!(StatIndex::load(b"garbage-or-old-bincode").is_none());
    assert!(StatIndex::load(b"VCI").is_none());
    assert!(StatIndex::load(b"VCIX\x01\x00\x00\x00body").is_none());
}

#[test]
fn v2_roundtrip_preserves_lang_and_generation_bumps_on_save() {
    let mut r = Repo::new(&[("a.rs", "fn a() {}\n"), ("b.py", "def b(): pass\n")]);
    r.refresh();
    assert_eq!(r.index.entries.get(&path("a.rs")).unwrap().lang, "rust");
    assert_eq!(r.index.entries.get(&path("b.py")).unwrap().lang, "python");
    let g1 = r.index.generation;
    r.refresh();
    assert!(r.index.generation > g1, "every save bumps generation");
    assert_eq!(StatIndex::load(&StatIndex::save(b"body")), Some(b"body".to_vec()));
    let list = r.index.entries.entries.clone();
    let again = StatIndex::collect(r.index.generation, list.clone());
    assert_eq!(format!("{:?}", again), format!("{:?}", r.index));
    let mut twice = list.clone();
    twice.reverse();
    twice.push((path("a.rs"), list[1].1.clone()));
    let later = StatIndex::collect(7, twice);
    assert_eq!(later.generation, 7);
    let names: Vec<String> = later.entries.entries.iter().map(|e| name(&e.0)).collect();
    assert_eq!(names, vec!["a.rs", "b.py"]);
    assert_eq!(later.entries.get(&path("a.rs")).unwrap().lang, "python");
    assert_eq!(lang_tag(&path("x/c.txt")), "");
}

fn entry(id: &str) -> JournalEntry {
    JournalEntry {
        id: id.to_string(),
        plan_id: "p".repeat(64),
        created_unix: 1,
        files: vec![FileImage {
            path: path("a.rs"),
            pre_b64: b64e(b"old"),
            pre_hash: bytes_hash(b"old"),
            post_hash: bytes_hash(b"new"),
        }],
    }
}

#[test]
fn ids_are_sequential() {
    let mut r = Repo::new(&[]);
    assert_eq!(Journal::next_id(&r.dir()), "j-000001");
    r.entries.insert("j-000001".to_string(), entry("j-000001"));
    assert_eq!(Journal::next_id(&r.dir()), "j-000002");
    r.entries.insert("j-1234567".to_string(), entry("j-1234567"));
    assert_eq!(Journal::next_id(&r.dir()), "j-1234568");
}

#[test]
fn scan_separates_committed_from_uncommitted() {
    let mut r = Repo::new(&[]);
    r.entries.insert("j-000001".to_string(), entry("j-000001"));
    r.committed.insert("j-000001".to_string());
    r.entries.insert("j-000002".to_string(), entry("j-000002"));
    let (c, u) = Journal::scan(&r.dir());
    assert_eq!(c, vec!["j-000001"]);
    assert_eq!(u, vec!["j-000002"]);
    assert_eq!(Journal::last_committed(&r.dir()), Some("j-000001".to_string()));
    let e = Journal::load("j-000001", EntryRead::Parsed(r.entries["j-000001"].clone())).unwrap();
    assert_eq!(e.files[0].path.raw, b"a.rs");
}

#[test]
fn load_missing_id_is_not_found() {
    let err = Journal::load("j-999999", EntryRead::Missing).unwrap_err();
    assert_eq!(err.kind, ErrorKind::NotFound);
    assert_eq!(err.to_string(), "not-found: no journal entry j-999999 — next: vc doctor");
    let err = Journal::load("j-1", EntryRead::Unparsed("eof".to_string())).unwrap_err();
    assert_eq!(err.to_string(), "malformed: journal j-1: eof");
    let err = Journal::load("j-1", EntryRead::Unreadable("denied".to_string())).unwrap_err();
    assert_eq!(err.to_string(), "io: denied");
}

#[test]
fn accepts_plain_relative_paths_only() {
    assert!(path_is_root_relative(&path("a.rs")));
    assert!(path_is_root_relative(&path("sub/a.rs")));
    assert!(!path_is_root_relative(&path("/etc/passwd")));
    assert!(!path_is_root_relative(&path("../escape.rs")));
    assert!(!path_is_root_relative(&path("sub/../../escape.rs")));
}

fn sample_plan() -> Plan {
    let mut files = OrdMap::new();
    files.insert(path("a.rs"), "h".repeat(64));
    let mut realpaths = OrdMap::new();
    realpaths.insert(path("a.rs"), path("/tmp/r/a.rs"));
    Plan {
        version: 1,
        form: PlanForm::Edit,
        root_real: path("/tmp/r"),
        epoch: "e".repeat(64),
        files,
        realpaths,
        edits: vec![ResolvedEdit {
            path: path("a.rs"),
            start: 0,
            end: 3,
            line_hint: None,
            old_b64: b64e(b"one"),
            new_b64: b64e(b"two"),
        }],
        expected_count: 1,
        created_unix: 1_756_400_000,
        selector: None,
        certificate: None,
        warnings: vec![],
    }
}

/// A text that tells plans apart, in the place of their stored form.
fn canonical(p: &Plan) -> Vec<u8> {
    format!("{:?}", p).into_bytes()
}

#[test]
fn digest_is_stable_and_ignores_nothing() {
    let p1 = sample_plan();
    let p2 = sample_plan();
    assert_eq!(Plan::id(&canonical(&p1)), Plan::id(&canonical(&p2)));
    let mut p3 = sample_plan();
    p3.edits[0].new_b64 = b64e(b"three");
    assert_ne!(Plan::id(&canonical(&p1)), Plan::id(&canonical(&p3)));
    assert_eq!(Plan::sha8(&canonical(&p1)).len(), 8);
    assert_eq!(Plan::id(b"abc"), sha256_hex(b"abc"));
}

#[test]
fn store_load_roundtrip_and_prefix_semantics() {
    let p = sample_plan();
    let json = canonical(&p);
    let id = Plan::id(&json);
    let file = format!("{}.json", id).into_bytes();
    let names = vec![b"README.md".to_vec(), file.clone()];
    assert_eq!(select_plan(&names, &Plan::sha8(&json)).unwrap(), 1);
    let loaded = Plan::load(PlanRead::Parsed(p, json.clone()), &id[..8], &file).unwrap();
    assert_eq!(Plan::id(&canonical(&loaded)), id);
    let e = select_plan(&names, "zzzzzzzz").unwrap_err();
    assert_eq!(e.kind, ErrorKind::NotFound);
    assert_eq!(e.to_string(), "not-found: no plan matches zzzzzzzz — next: vc status");
    let two = vec![b"abc1.json".to_vec(), b"abc2.json".to_vec()];
    let e = select_plan(&two, "abc").unwrap_err();
    assert_eq!(e.to_string(), "ambiguous: 2 plans match abc");
}

#[test]
fn load_refuses_a_plan_file_whose_content_was_tampered_after_storing() {
    let p = sample_plan();
    let id = Plan::id(&canonical(&p));
    let file = format!("{}.json", id).into_bytes();
    let mut tampered = sample_plan();
    tampered.edits[0].new_b64 = b64e(b"tampered");
    let json = canonical(&tampered);
    let err = Plan::load(PlanRead::Parsed(tampered, json), &id[..8], &file).unwrap_err();
    assert_eq!(err.kind, ErrorKind::Malformed);
    assert_eq!(err.message, "plan file does not match its id");
    let err = Plan::load(PlanRead::Unparsed("eof".to_string()), "8fc7", &file).unwrap_err();
    assert_eq!(err.to_string(), "malformed: plan 8fc7: eof");
}

#[test]
fn load_refuses_a_match_plan_without_its_certificate() {
    let mut p = sample_plan();
    p.form = PlanForm::Match;
    p.selector = Some(sample_selector(vec![]));
    let json = canonical(&p);
    let file = format!("{}.json", Plan::id(&json)).into_bytes();
    let err = Plan::load(PlanRead::Parsed(p, json), "p", &file).unwrap_err();
    assert_eq!(err.kind, ErrorKind::Malformed);
}

#[test]
fn preview_shows_header_and_prefixed_old_new_lines() {
    let p = sample_plan();
    assert_eq!(p.preview(), "--- a.rs @ 0..3\n-one\n+two\n");
}

#[test]
fn build_populates_files_realpaths_epoch_and_expected_count() {
    let mut r = Repo::new(&[("a.rs", "fn one() {}\n")]);
    let p = r.build(&[req("a.rs", "one", "uno")]).unwrap();
    assert_eq!(p.expected_count, 1);
    assert_eq!(p.edits.len(), 1);
    assert_eq!(p.files.get(&path("a.rs")), Some(&bytes_hash(b"fn one() {}\n")));
    assert_eq!(name(&p.root_real), ROOT);
    assert!(p.realpaths.contains_key(&path("a.rs")));
    assert!(!p.epoch.is_empty());
}

#[test]
fn build_dedupes_a_file_touched_by_multiple_edits() {
    let mut r = Repo::new(&[("a.rs", "one two\n")]);
    let p = r.build(&[req("a.rs", "one", "ONE"), req("a.rs", "two", "TWO")]).unwrap();
    assert_eq!(p.edits.len(), 2);
    assert_eq!(p.files.entries.len(), 1, "one entry per touched file, not per edit");
}

#[test]
fn build_refuses_an_edit_path_that_is_absolute() {
    let mut r = Repo::new(&[("/outside/secret.txt", "one\n")]);
    let err = r.build(&[req("/outside/secret.txt", "one", "ONE")]).unwrap_err();
    assert_eq!(err.kind, ErrorKind::Usage);
    assert_eq!(r.text("/outside/secret.txt"), "one\n");
}

#[test]
fn build_refuses_an_edit_path_containing_a_dotdot_component() {
    let mut r = Repo::new(&[("../escape.txt", "one\n")]);
    let err = r.build(&[req("../escape.txt", "one", "ONE")]).unwrap_err();
    assert_eq!(err.kind, ErrorKind::Usage);
}

#[test]
fn build_hash_reflects_the_single_read_resolve_saw() {
    let content = "fn one() { let v = 1; }\n";
    let mut r = Repo::new(&[("a.rs", content)]);
    let p = r.build(&[req("a.rs", "one", "uno")]).unwrap();
    assert_eq!(p.files.get(&path("a.rs")), Some(&bytes_hash(content.as_bytes())));
}

#[test]
fn build_propagates_resolve_errors() {
    let mut r = Repo::new(&[("a.rs", "one\n")]);
    let err = r.build(&[req("a.rs", "missing", "x")]).unwrap_err();
    assert_eq!(err.kind, ErrorKind::NotFound);
}

fn sample_selector(paths: Vec<TreePath>) -> MatchSelector {
    MatchSelector {
        pattern: "foo($$$ARGS)".to_string(),
        rewrite: "bar($$$ARGS)".to_string(),
        lang: "rust".to_string(),
        paths,
    }
}

fn match_plan(r: &mut Repo, paths: Vec<TreePath>, p: &str) -> VcResult<Plan> {
    let edit = ResolvedEdit {
        path: path(p),
        start: 3,
        end: 6,
        line_hint: None,
        old_b64: b64e(b"one"),
        new_b64: b64e(b"uno"),
    };
    let mut contents = OrdMap::new();
    contents.insert(path(p), r.files[p].clone());
    let canon = r.canon(&[path(p)]);
    let epoch = r.refresh();
    let generation = r.index.generation;
    let found: Vec<TreePath> = r.files.keys().map(|n| path(n)).collect();
    let walked: Vec<WalkedFile> = walk_scoped(found, &vec![])
        .iter()
        .map(|f| WalkedFile { path: f.copy(), hash: Ok(bytes_hash(&r.files[&name(f)])) })
        .collect();
    Plan::build_match(
        path(ROOT),
        sample_selector(paths),
        vec![edit],
        &contents,
        &canon,
        Ok((epoch, generation)),
        &walked,
        vec![],
        1,
    )
}

#[test]
fn build_match_populates_files_realpaths_edits_and_a_wider_certificate() {
    let mut r = Repo::new(&[("a.rs", "fn one() {}\n"), ("b.rs", "fn two() {}\n")]);
    let p = match_plan(&mut r, vec![], "a.rs").unwrap();
    assert_eq!(p.version, 2);
    assert_eq!(p.form, PlanForm::Match);
    assert_eq!(p.expected_count, 1);
    assert_eq!(p.edits.len(), 1);
    assert_eq!(name(&p.edits[0].path), "a.rs");
    assert_eq!((p.edits[0].start, p.edits[0].end), (3, 6));
    assert_eq!(p.edits[0].old_b64, b64e(b"one"));
    assert_eq!(p.edits[0].new_b64, b64e(b"uno"));
    assert_eq!(p.files.get(&path("a.rs")), Some(&bytes_hash(b"fn one() {}\n")));
    assert!(p.realpaths.contains_key(&path("a.rs")));
    assert!(!p.files.contains_key(&path("b.rs")));
    let cert = p.certificate.unwrap();
    assert_eq!(cert.scope_files.get(&path("a.rs")), Some(&bytes_hash(b"fn one() {}\n")));
    assert_eq!(cert.scope_files.get(&path("b.rs")), Some(&bytes_hash(b"fn two() {}\n")));
    assert!(!cert.epoch.is_empty());
    assert_eq!(cert.generation, 1);
    let sel = p.selector.unwrap();
    assert_eq!(sel.pattern, "foo($$$ARGS)");
    assert_eq!(sel.rewrite, "bar($$$ARGS)");
    assert_eq!(sel.lang, "rust");
}

#[test]
fn build_match_certificate_holds_the_files_of_the_language() {
    let mut r = Repo::new(&[("a.rs", "fn one() {}\n"), ("b.rs", "fn two() {}\n"), ("c.py", "x\n")]);
    let cert = match_plan(&mut r, vec![], "a.rs").unwrap().certificate.unwrap();
    assert!(cert.scope_files.contains_key(&path("b.rs")));
    assert!(!cert.scope_files.contains_key(&path("c.py")));
}

#[test]
fn build_match_certificate_respects_scoped_paths() {
    let mut r = Repo::new(&[("sub/a.rs", "fn one() {}\n"), ("top.rs", "fn top() {}\n")]);
    let p = match_plan(&mut r, vec![path("sub")], "sub/a.rs").unwrap();
    let cert = p.certificate.unwrap();
    assert!(cert.scope_files.contains_key(&path("sub/a.rs")));
    assert!(!cert.scope_files.contains_key(&path("top.rs")));
}

#[test]
fn build_match_refuses_an_edit_path_containing_a_dotdot_component() {
    let mut r = Repo::new(&[("../escape.txt", "one\n")]);
    let err = match_plan(&mut r, vec![], "../escape.txt").unwrap_err();
    assert_eq!(err.kind, ErrorKind::Usage);
    assert_eq!(r.text("../escape.txt"), "one\n");
}

fn pending_entry(id: &str, file: &str, pre: &str, post: &str) -> JournalEntry {
    JournalEntry {
        id: id.to_string(),
        plan_id: "p".repeat(64),
        created_unix: 1,
        files: vec![FileImage {
            path: path(file),
            pre_b64: b64e(pre.as_bytes()),
            pre_hash: bytes_hash(pre.as_bytes()),
            post_hash: bytes_hash(post.as_bytes()),
        }],
    }
}

#[test]
fn rollback_restores_pre_state_from_uncommitted_entry() {
    let mut r = Repo::new(&[("a.rs", "halfway-written")]);
    let e = pending_entry("j-000001", "a.rs", "original", "halfway-written");
    r.entries.insert("j-000001".to_string(), e);
    let rep = r.doctor(DoctorAction::Rollback, LockRead::Absent, false).unwrap();
    assert_eq!(rep.rolled_back, vec!["j-000001"]);
    assert_eq!(r.text("a.rs"), "original");
    let (c, u) = Journal::scan(&r.dir());
    assert!(c.is_empty() && u.is_empty());
}

#[test]
fn report_mutates_nothing_and_is_healthy_on_a_clean_repo() {
    let mut r = Repo::new(&[("a.rs", "content")]);
    let rep = r.doctor(DoctorAction::Report, LockRead::Absent, false).unwrap();
    assert!(rep.healthy);
    assert!(rep.rolled_back.is_empty());
    assert!(rep.discarded.is_empty());
    assert!(!rep.lock_removed);
    assert_eq!(r.text("a.rs"), "content");
    let rep = r.doctor(DoctorAction::Report, LockRead::Text("999999999".to_string()), false).unwrap();
    assert!(!rep.healthy, "a stale lock is reported");
    assert!(!rep.lock_removed, "and left alone");
}

#[test]
fn discard_removes_uncommitted_entry_without_touching_files() {
    let mut r = Repo::new(&[("a.rs", "halfway-written")]);
    let e = pending_entry("j-000001", "a.rs", "original", "halfway-written");
    r.entries.insert("j-000001".to_string(), e);
    let rep = r.doctor(DoctorAction::Discard, LockRead::Absent, false).unwrap();
    assert_eq!(rep.discarded, vec!["j-000001"]);
    assert!(rep.rolled_back.is_empty());
    assert_eq!(r.text("a.rs"), "halfway-written");
    let (c, u) = Journal::scan(&r.dir());
    assert!(c.is_empty() && u.is_empty());
}

#[test]
fn rollback_clears_a_stale_lock() {
    let mut r = Repo::new(&[]);
    r.locked = true;
    let rep =
        r.doctor(DoctorAction::Rollback, LockRead::Text("999999999".to_string()), false).unwrap();
    assert!(rep.lock_removed);
    assert!(rep.rolled_back.is_empty());
    assert!(rep.healthy);
    assert!(!r.locked);
}

#[test]
fn status_counts_plans_and_uncommitted_journal_entries() {
    let mut r = Repo::new(&[("a.rs", "one\n")]);
    let epoch = r.refresh();
    r.entries.insert("j-000001".to_string(), pending_entry("j-000001", "a.rs", "one\n", "one\n"));
    let plans = vec![b"8fc798fd.json".to_vec(), b"notes.txt".to_vec()];
    let st = status(&epoch, r.files.len(), &r.dir(), &plans, r.locked);
    assert_eq!(st.plans, 1);
    assert_eq!(st.files, 1);
    assert_eq!(st.uncommitted, vec!["j-000001"]);
    assert_eq!(st.journal_head, None);
    assert!(!st.lock_held);
    assert_eq!(st.epoch8, &epoch[..8]);
}

#[test]
fn rollback_processes_multiple_uncommitted_entries_newest_first() {
    let mut r = Repo::new(&[("a.rs", "a-mid"), ("b.rs", "b-mid")]);
    r.entries.insert("j-000001".to_string(), pending_entry("j-000001", "a.rs", "a-orig", "a-mid"));
    r.entries.insert("j-000002".to_string(), pending_entry("j-000002", "b.rs", "b-orig", "b-mid"));
    let rep = r.doctor(DoctorAction::Rollback, LockRead::Absent, false).unwrap();
    assert_eq!(rep.rolled_back, vec!["j-000002", "j-000001"]);
    assert_eq!(r.text("a.rs"), "a-orig");
    assert_eq!(r.text("b.rs"), "b-orig");
}

#[test]
fn rollback_refuses_when_lock_pid_is_alive() {
    let mut r = Repo::new(&[("a.rs", "untouched")]);
    r.locked = true;
    let err =
        r.doctor(DoctorAction::Rollback, LockRead::Text("4242\n".to_string()), true).unwrap_err();
    assert_eq!(err.kind, ErrorKind::JournalBlocked);
    assert_eq!(err.exit_code(), 5);
    assert!(err.message.contains("4242"), "{}", err.message);
    assert!(r.locked, "lock left in place");
    assert_eq!(r.text("a.rs"), "untouched");
}

fn resolve(files: &[(&str, &str)], reqs: &[EditRequest]) -> VcResult<Vec<ResolvedEdit>> {
    resolve_edits(&Repo::new(files).disk(), &reqs.to_vec())
}

#[test]
fn unique_match_resolves() {
    let r = resolve(
        &[("a.rs", "fn one() {}\nfn two() {}\n")],
        &[req("a.rs", "fn one()", "fn uno()")],
    )
    .unwrap();
    assert_eq!(r.len(), 1);
    assert_eq!((r[0].start, r[0].end), (0, 8));
}

#[test]
fn zero_matches_is_not_found_and_two_is_ambiguous() {
    let nf = resolve(&[("a.rs", "x\nx\n")], &[req("a.rs", "y", "z")]).unwrap_err();
    assert_eq!(nf.kind, ErrorKind::NotFound);
    let amb = resolve(&[("a.rs", "x\nx\n")], &[req("a.rs", "x", "z")]).unwrap_err();
    assert_eq!(amb.kind, ErrorKind::Ambiguous);
    let gone = resolve(&[], &[req("a.rs", "x", "z")]).unwrap_err();
    assert_eq!(gone.to_string(), "not-found: a.rs: no such file");
}

#[test]
fn line_hint_disambiguates() {
    let mut q = req("a.rs", "x", "z");
    q.line_hint = Some(2);
    let r = resolve(&[("a.rs", "x\nx\n")], &[q.clone()]).unwrap();
    assert_eq!(r[0].start, 2);
    q.line_hint = Some(3);
    let e = resolve(&[("a.rs", "x\nx\n")], &[q]).unwrap_err();
    assert_eq!(e.kind, ErrorKind::Ambiguous);
}

#[test]
fn overlapping_edits_refused() {
    let e = resolve(&[("a.rs", "abcdef")], &[req("a.rs", "abcd", "1"), req("a.rs", "cdef", "2")])
        .unwrap_err();
    assert_eq!(e.kind, ErrorKind::Overlap);
}

#[test]
fn walk_respects_gitignore_and_skips_vc_and_git() {
    assert!(skips_entry(b".git"));
    assert!(skips_entry(b".vc"));
    assert!(!skips_entry(b".gitignore"));
    assert!(!skips_entry(b".hidden"));
    let found = vec![path("kept.rs"), path(".hidden"), path("a/b.rs"), path("a.rs"), path(".gitignore")];
    let names: Vec<String> = walk_scoped(found, &vec![]).iter().map(name).collect();
    assert_eq!(names, vec![".gitignore", ".hidden", "a/b.rs", "a.rs", "kept.rs"]);
}

#[test]
fn walk_scoped_restricts_to_subdir_and_honors_ignores() {
    let found = vec![path("top.rs"), path("sub/kept.rs"), path("subway/x.rs")];
    let names: Vec<String> = walk_scoped(found, &vec![path("sub")]).iter().map(name).collect();
    assert_eq!(names, vec!["sub/kept.rs"]);
}

#[test]
fn walk_scoped_empty_equals_walk_files() {
    let found = || vec![path("top.rs"), path("sub/kept.rs")];
    let names: Vec<String> = walk_scoped(found(), &vec![]).iter().map(name).collect();
    assert_eq!(names, vec!["sub/kept.rs", "top.rs"]);
}

fn look(dir: &str, marker: Marker) -> Look {
    Look { dir: path(dir), marker }
}

#[test]
fn finds_nearest_ancestor_with_vc_dir() {
    let looks = vec![
        look("/t/repo/src/deep", Marker::Absent),
        look("/t/repo/src", Marker::Other),
        look("/t/repo", Marker::Directory),
        look("/t", Marker::Symlink),
    ];
    assert_eq!(name(&find_root(&path("/t/repo/src/deep"), &looks).unwrap()), "/t/repo");
    let looks = vec![look("/t/other", Marker::Absent), look("/t", Marker::Absent)];
    assert_eq!(name(&find_root(&path("/t/other"), &looks).unwrap()), "/t/other");
}

#[test]
fn refuses_a_symlinked_vc_directory() {
    let looks = vec![look("/t/repo", Marker::Symlink), look("/t", Marker::Directory)];
    let err = find_root(&path("/t/repo"), &looks).unwrap_err();
    assert_eq!(err.kind, ErrorKind::Toctou);
    assert_eq!(err.message, "/t/repo/.vc: refusing to follow symlink");
}

#[test]
fn acquire_refuses_when_vc_is_a_symlink() {
    assert_eq!(check_state_dir(Marker::Symlink).unwrap_err().kind, ErrorKind::Toctou);
    assert!(check_state_dir(Marker::Absent).is_ok());
    let err = Lock::acquire(&path(ROOT), Marker::Symlink, &LockAttempt::Created).unwrap_err();
    assert_eq!(err.to_string(), "toctou: .vc: refusing to follow symlink");
    let err = Lock::acquire(&path(ROOT), Marker::Directory, &LockAttempt::Exists).unwrap_err();
    assert_eq!(
        err.to_string(),
        "journal-blocked: apply in progress or stale lock — next: vc doctor"
    );
    let denied = LockAttempt::Failed("denied".to_string());
    let err = Lock::acquire(&path(ROOT), Marker::Directory, &denied).unwrap_err();
    assert_eq!(err.to_string(), "io: denied");
}

#[test]
fn second_acquire_while_held_is_journal_blocked() {
    let mut r = Repo::new(&[]);
    r.lock().unwrap();
    let err = r.lock().unwrap_err();
    assert_eq!(err.kind, ErrorKind::JournalBlocked);
    assert_eq!(err.exit_code(), 5);
}

#[test]
fn clean_apply_patches_and_journals() {
    let mut r = Repo::new(&[("a.rs", "fn old() {}\n"), ("b.rs", "call_old();\n")]);
    let p = r.plan(&[("a.rs", "old", "new"), ("b.rs", "call_old", "call_new")]);
    let rep = r.apply(&p).unwrap().unwrap();
    assert_eq!(rep.files, 2);
    assert_eq!(rep.edits, 2);
    assert_eq!(rep.journal_id, "j-000001");
    assert_eq!(r.text("a.rs"), "fn new() {}\n");
    assert_eq!(r.text("b.rs"), "call_new();\n");
}

#[test]
fn stale_file_refuses_with_exit3_kind_and_writes_nothing() {
    let mut r = Repo::new(&[("a.rs", "one\n"), ("b.rs", "two\n")]);
    let p = r.plan(&[("a.rs", "one", "ONE"), ("b.rs", "two", "TWO")]);
    r.write("b.rs", b"two changed\n");
    let err = r.apply(&p).unwrap_err();
    assert_eq!(err.kind, ErrorKind::Stale);
    assert_eq!(err.exit_code(), 3);
    assert_eq!(
        err.to_string(),
        "stale: changed since plan: b.rs — next: vc plan refresh sha8sha8"
    );
    assert_eq!(r.text("a.rs"), "one\n");
    assert!(r.entries.is_empty(), "nothing journaled");
}

#[test]
fn undo_restores_bytes_exactly() {
    let mut r = Repo::new(&[("a.rs", "alpha\n")]);
    let p = r.plan(&[("a.rs", "alpha", "beta")]);
    r.apply(&p).unwrap();
    assert_eq!(r.text("a.rs"), "beta\n");
    r.undo(None).unwrap();
    assert_eq!(r.text("a.rs"), "alpha\n");
}

#[test]
fn the_ritual_plan_apply_stale_undo() {
    let mut r = Repo::new(&[("a.rs", "fn old_name() {}\n")]);
    let p = r.plan(&[("a.rs", "old_name", "new_name")]);
    r.write("a.rs", b"fn old_name() { /* drifted */ }\n");
    assert_eq!(r.apply(&p).unwrap_err().exit_code(), 3);
    r.write("a.rs", b"fn old_name() {}\n");
    let p = r.plan(&[("a.rs", "old_name", "new_name")]);
    r.apply(&p).unwrap();
    assert_eq!(r.text("a.rs"), "fn new_name() {}\n");
    r.undo(None).unwrap();
    assert_eq!(r.text("a.rs"), "fn old_name() {}\n");
}

#[test]
fn symlinked_target_is_refused() {
    let mut r = Repo::new(&[("real.rs", "x\n")]);
    let p = r.plan(&[("real.rs", "x", "y")]);
    r.files.remove("real.rs");
    r.links.insert("real.rs".to_string(), b"127.0.0.1\n".to_vec());
    let err = r.apply(&p).unwrap_err();
    assert!(matches!(err.kind, ErrorKind::Toctou | ErrorKind::Stale));
}

#[test]
fn undo_with_nothing_committed_is_not_found() {
    let mut r = Repo::new(&[]);
    let err = r.undo(None).unwrap_err();
    assert_eq!(err.kind, ErrorKind::NotFound);
}

#[test]
fn undo_by_explicit_id_targets_that_entry_independent_of_later_entries() {
    let mut r = Repo::new(&[("a.rs", "alpha\n"), ("b.rs", "bravo\n")]);
    let plan_a = r.plan(&[("a.rs", "alpha", "ALPHA")]);
    let rep_a = r.apply(&plan_a).unwrap().unwrap();
    let plan_b = r.plan(&[("b.rs", "bravo", "BRAVO")]);
    r.apply(&plan_b).unwrap();
    assert_eq!(r.text("a.rs"), "ALPHA\n");
    assert_eq!(r.text("b.rs"), "BRAVO\n");
    r.undo(Some(&rep_a.journal_id)).unwrap();
    assert_eq!(r.text("a.rs"), "alpha\n");
    assert_eq!(r.text("b.rs"), "BRAVO\n");
}

#[test]
fn tampered_expected_count_is_refused_as_malformed() {
    let mut r = Repo::new(&[("a.rs", "one\n")]);
    let mut p = r.plan(&[("a.rs", "one", "ONE")]);
    p.expected_count = 99;
    let err = r.apply(&p).unwrap_err();
    assert_eq!(err.kind, ErrorKind::Malformed);
    assert_eq!(r.text("a.rs"), "one\n");
}

#[test]
fn tampered_edit_range_is_refused_as_malformed_not_a_panic() {
    let mut r = Repo::new(&[("a.rs", "one\n")]);
    let mut p = r.plan(&[("a.rs", "one", "ONE")]);
    p.edits[0].end = 9_999;
    let err = r.apply(&p).unwrap_err();
    assert_eq!(err.kind, ErrorKind::Malformed);
    assert_eq!(r.text("a.rs"), "one\n");
}

#[test]
fn apply_refuses_when_lock_already_held() {
    let mut r = Repo::new(&[("a.rs", "one\n")]);
    let p = r.plan(&[("a.rs", "one", "ONE")]);
    r.lock().unwrap();
    let err = r.apply(&p).unwrap_err();
    assert_eq!(err.kind, ErrorKind::JournalBlocked);
    assert_eq!(err.exit_code(), 5);
}

#[test]
fn target_replaced_by_symlink_after_plan_is_refused() {
    let mut r = Repo::new(&[("t.rs", "inside")]);
    let p = r.plan(&[("t.rs", "inside", "PWNED")]);
    r.files.remove("t.rs");
    r.links.insert("t.rs".to_string(), b"outside".to_vec());
    let err = r.apply(&p).unwrap_err();
    assert!(matches!(err.kind, ErrorKind::Toctou | ErrorKind::Stale));
    assert_eq!(r.links["t.rs"], b"outside");
}

#[test]
fn concurrent_apply_is_serialized_by_lock() {
    let mut r = Repo::new(&[("a.rs", "x")]);
    let p = r.plan(&[("a.rs", "x", "y")]);
    r.lock().unwrap();
    let err = r.apply(&p).unwrap_err();
    assert_eq!(err.kind, ErrorKind::JournalBlocked);
    assert_eq!(err.exit_code(), 5);
    assert_eq!(r.text("a.rs"), "x");
}

#[test]
fn undo_target_replaced_by_symlink_is_refused() {
    let mut r = Repo::new(&[("t.rs", "inside")]);
    let p = r.plan(&[("t.rs", "inside", "PWNED")]);
    r.apply(&p).unwrap();
    assert_eq!(r.text("t.rs"), "PWNED");
    r.files.remove("t.rs");
    r.links.insert("t.rs".to_string(), b"PWNED".to_vec());
    let err = r.undo(None).unwrap_err();
    assert_eq!(err.kind, ErrorKind::Toctou);
    assert_eq!(r.links["t.rs"], b"PWNED");
}

#[test]
fn undo_refuses_when_lock_already_held() {
    let mut r = Repo::new(&[("a.rs", "x")]);
    let p = r.plan(&[("a.rs", "x", "y")]);
    r.apply(&p).unwrap();
    r.lock().unwrap();
    let err = r.undo(None).unwrap_err();
    assert_eq!(err.kind, ErrorKind::JournalBlocked);
    assert_eq!(err.exit_code(), 5);
}

#[test]
fn apply_then_undo_is_byte_identical() {
    let mut seed: u64 = 0x2545_f491_4f6c_dd1d;
    let mut next = move |n: usize| -> usize {
        seed ^= seed << 13;
        seed ^= seed >> 7;
        seed ^= seed << 17;
        (seed % n as u64) as usize
    };
    let mut ran = 0;
    for _ in 0..200 {
        let size = 1 + next(2000);
        let content: Vec<u8> = (0..size).map(|_| next(256) as u8).collect();
        let start = next(1000) % content.len();
        let end = (start + 4 + next(46)).min(content.len());
        let old = content[start..end].to_vec();
        let wide = next(80);
        let replacement: Vec<u8> = (0..wide).map(|_| next(256) as u8).collect();
        if content.windows(old.len()).filter(|w| *w == &old[..]).count() != 1 {
            continue;
        }
        let mut r = Repo::new(&[]);
        r.write("f.bin", &content);
        let q = EditRequest { path: path("f.bin"), old, new: replacement, line_hint: None };
        let p = r.build(&[q]).unwrap();
        r.apply(&p).unwrap();
        r.undo(None).unwrap();
        assert_eq!(r.files["f.bin"], content);
        ran += 1;
    }
    assert!(ran > 150, "ran {}", ran);
}

const PRE_A: &str = "fn old() {}\n";
const POST_A: &str = "fn new() {}\n";
const PRE_B: &str = "fn call() {\n    old();\n}\n";
const POST_B: &str = "fn call() {\n    new();\n}\n";

/// Crashes an apply at a point, checks what is left, and recovers by rolling back.
fn crash_and_recover(point: FaultPoint) {
    let mut r = Repo::new(&[("a.rs", PRE_A), ("b.rs", PRE_B)]);
    let p = r.plan(&[("a.rs", "old", "new"), ("b.rs", "old", "new")]);
    r.crash_at = Some(point);
    assert!(r.apply(&p).unwrap().is_none(), "the process is gone");
    r.crash_at = None;

    let expected = match point {
        FaultPoint::PreJournal => (PRE_A, PRE_B, false, false),
        FaultPoint::PostJournalEntry => (PRE_A, PRE_B, true, false),
        FaultPoint::MidFiles => (POST_A, PRE_B, true, false),
        FaultPoint::PreCommitMarker => (POST_A, POST_B, true, false),
        FaultPoint::PostCommitMarker => (POST_A, POST_B, true, true),
    };
    assert_eq!(r.text("a.rs"), expected.0);
    assert_eq!(r.text("b.rs"), expected.1);
    assert_eq!(r.entries.contains_key("j-000001"), expected.2);
    assert_eq!(r.committed.contains("j-000001"), expected.3);
    assert!(r.locked, "the lock is left behind");

    let blocked = r.apply(&p).unwrap_err();
    assert_eq!(blocked.exit_code(), 5);

    let rep = r.doctor(DoctorAction::Rollback, LockRead::Text("77".to_string()), false).unwrap();
    assert!(rep.lock_removed && rep.healthy);
    let after = if point == FaultPoint::PostCommitMarker { (POST_A, POST_B) } else { (PRE_A, PRE_B) };
    assert_eq!(r.text("a.rs"), after.0);
    assert_eq!(r.text("b.rs"), after.1);
    let (_, pending) = Journal::scan(&r.dir());
    assert!(pending.is_empty());
}

#[test]
fn kill_at_pre_journal_recovers_to_pre() {
    crash_and_recover(FaultPoint::PreJournal);
}

#[test]
fn kill_at_post_journal_entry_recovers_to_pre() {
    crash_and_recover(FaultPoint::PostJournalEntry);
}

#[test]
fn kill_at_mid_files_recovers_to_pre() {
    crash_and_recover(FaultPoint::MidFiles);
}

#[test]
fn kill_at_pre_commit_marker_recovers_to_pre() {
    crash_and_recover(FaultPoint::PreCommitMarker);
}

#[test]
fn kill_at_post_commit_marker_stays_post() {
    crash_and_recover(FaultPoint::PostCommitMarker);
}

#[test]
fn a_pending_entry_blocks_the_next_apply() {
    let mut r = Repo::new(&[("a.rs", "one\n")]);
    let p = r.plan(&[("a.rs", "one", "ONE")]);
    r.entries.insert("j-000001".to_string(), pending_entry("j-000001", "a.rs", "zero\n", "one\n"));
    let err = r.apply(&p).unwrap_err();
    assert_eq!(err.exit_code(), 5);
    assert_eq!(
        err.to_string(),
        "journal-blocked: pending journal entry j-000001 — next: vc doctor --rollback"
    );
}

#[test]
fn fault_points_have_their_names() {
    assert_eq!(FaultPoint::PreJournal.name(), "pre_journal");
    assert_eq!(FaultPoint::PostJournalEntry.name(), "post_journal_entry");
    assert_eq!(FaultPoint::MidFiles.name(), "mid_files");
    assert_eq!(FaultPoint::PreCommitMarker.name(), "pre_commit_marker");
    assert_eq!(FaultPoint::PostCommitMarker.name(), "post_commit_marker");
}

#[test]
fn a_failed_refresh_after_the_commit_is_a_warning() {
    let e = VcError::new(ErrorKind::Io, "disk full".to_string());
    let rep = apply_report("j-000001".to_string(), 1, 2, Err(e));
    assert_eq!(rep.epoch_after, "");
    assert_eq!(
        rep.warning.as_deref(),
        Some("index refresh failed after commit (io: disk full) — run vc status")
    );
}

#[test]
fn a_restored_path_cannot_leave_the_root() {
    let e = pending_entry("j-000001", "../a.rs", "zero\n", "one\n");
    let (files, fault) = restore_entry(&e);
    assert!(files.is_empty());
    assert_eq!(fault.unwrap().kind, ErrorKind::Malformed);
    let mut bad = pending_entry("j-000001", "a.rs", "zero\n", "one\n");
    bad.files[0].pre_b64 = "*".to_string();
    assert_eq!(restore_entry(&bad).1.unwrap().kind, ErrorKind::Malformed);
}

#[test]
fn an_undo_belongs_to_the_plan_it_takes_back_and_can_be_undone() {
    let mut r = Repo::new(&[("a.rs", "one two\n"), ("b.rs", "one\n"), ("c.rs", "same\n")]);
    let p = r.plan(&[("a.rs", "one", "uno"), ("b.rs", "one", "1")]);
    let before = r.files.clone();
    let applied = r.apply(&p).unwrap().unwrap();
    let after = r.files.clone();
    assert_ne!(before, after);
    let undone = r.undo(None).unwrap();
    assert_eq!(r.files, before);
    assert_eq!((undone.files, undone.edits), (applied.files, 0));
    let redone = r.undo(None).unwrap();
    assert_eq!(r.files, after);
    assert_eq!((redone.files, redone.edits), (2, 0));
    for id in [&applied.journal_id, &undone.journal_id, &redone.journal_id] {
        assert_eq!(r.entries[id].plan_id, "plan");
    }
    assert_eq!(undone.journal_id, "j-000002");
}

#[test]
fn the_order_of_edit_requests_does_not_matter() {
    let files = [("a.rs", "one two three"), ("b.rs", "one")];
    let reqs =
        [req("b.rs", "one", "1"), req("a.rs", "two ", "2 "), req("a.rs", "one ", ""), req("a.rs", "three", "3")];
    let shape = |reqs: &[EditRequest]| -> Vec<(String, usize, usize, String)> {
        let edits = resolve(&files, reqs).unwrap();
        edits.iter().map(|e| (name(&e.path), e.start, e.end, e.new_b64.clone())).collect()
    };
    let sorted = shape(&reqs);
    assert_eq!(sorted[0], ("a.rs".to_string(), 0, 4, b64e(b"")));
    assert_eq!(sorted[3], ("b.rs".to_string(), 0, 3, b64e(b"1")));
    for turn in 0..4 {
        let mut other = reqs.to_vec();
        other.rotate_left(turn);
        assert_eq!(shape(&other), sorted);
        other.reverse();
        assert_eq!(shape(&other), sorted);
    }
    for pair in [["e tw", "two"], ["two", "e tw"], ["two", "two"]] {
        let clash: Vec<EditRequest> = pair.iter().map(|old| req("a.rs", old, "x")).collect();
        assert_eq!(resolve(&files, &clash).unwrap_err().kind, ErrorKind::Overlap);
    }
}

#[test]
fn a_second_refresh_of_an_unchanged_tree_gives_the_same_index() {
    let stat = |n: &str, size: u64, hash: &str| FileStat {
        path: path(n),
        size,
        mtime_ns: 7,
        hash: hash.to_string(),
    };
    let (first, epoch) =
        refresh(&StatIndex::empty(), &vec![stat("b.rs", 2, "hb"), stat("a.txt", 1, "ha")]);
    let (second, again) = refresh(&first, &vec![stat("b.rs", 2, ""), stat("a.txt", 1, "")]);
    assert_eq!(epoch, again);
    let shape = |ix: &StatIndex| -> Vec<(String, u64, i128, String, String)> {
        let row = |e: &(TreePath, velocity_code::index::IndexEntry)| {
            (name(&e.0), e.1.size, e.1.mtime_ns, e.1.hash.clone(), e.1.lang.clone())
        };
        ix.entries.entries.iter().map(row).collect()
    };
    assert_eq!(shape(&first), shape(&second));
    assert_eq!(shape(&first)[0].0, "a.txt");
    assert_eq!(shape(&first)[1], ("b.rs".into(), 2, 7, "hb".into(), "rust".into()));
    let (_, other) = refresh(&first, &vec![stat("b.rs", 3, "hc"), stat("a.txt", 1, "")]);
    assert_ne!(epoch, other);
}

#[test]
fn a_scoped_walk_is_the_whole_walk_filtered_by_whole_components() {
    let found = || vec![path("subway/x"), path("sub/b"), path("a"), path("sub/a"), path("sub.rs")];
    let walked = |scope: &[&str]| -> Vec<String> {
        let scope = scope.iter().map(|s| path(s)).collect();
        walk_scoped(found(), &scope).iter().map(name).collect()
    };
    assert_eq!(walked(&[]), vec!["a", "sub/a", "sub/b", "sub.rs", "subway/x"]);
    assert_eq!(walked(&["sub"]), vec!["sub/a", "sub/b"]);
    assert_eq!(walked(&["sub/b", "sub", "sub/"]), vec!["sub/a", "sub/b"]);
    assert_eq!(walked(&["gone"]), Vec::<String>::new());
}

#[test]
fn a_rollback_over_several_entries_goes_back_to_the_oldest_record() {
    let mut r = Repo::new(&[("a.rs", "third"), ("b.rs", "kept")]);
    for (id, pre, post) in [("j-000001", "first", "second"), ("j-000002", "second", "third")] {
        r.entries.insert(id.to_string(), pending_entry(id, "a.rs", pre, post));
    }
    r.doctor(DoctorAction::Rollback, LockRead::Absent, false).unwrap();
    assert_eq!(r.text("a.rs"), "first");
    assert_eq!(r.text("b.rs"), "kept");
    assert!(r.entries.is_empty());
}

#[test]
fn an_undo_without_an_id_takes_the_newest_committed_entry() {
    let file = |n: &str| DirEntry { name: n.as_bytes().to_vec(), is_file: true };
    let mut dir: Vec<DirEntry> = vec![];
    for _ in 0..12 {
        let id = Journal::next_id(&dir);
        dir.insert(0, file(&format!("{}.json", id)));
        dir.insert(0, file(&format!("{}.committed", id)));
        assert_eq!(undo_target(None, &dir).unwrap(), id);
    }
    assert_eq!(undo_target(None, &dir).unwrap(), "j-000012");
}
