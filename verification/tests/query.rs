use velocity_code::apply::FileRead;
use velocity_code::index::{refresh, FileStat, StatIndex};
use velocity_code::ordmap::OrdMap;
use velocity_code::paths::TreePath;
use velocity_code::query::{
    clamp_line_window, compile_pattern, is_binary, is_oversize, is_utf8_boundary, nothing_found,
    nudge_end, nudge_start, read_capped_source, read_for_search, render_hits, scan_literal,
    search_literal, search_regex, Candidate, Found, Probe, QueryHit, SourceProbe,
    BINARY_SNIFF_LEN, MAX_LINE_TEXT_BYTES, MAX_TOTAL_HITS,
};
use velocity_code::render::{render_budgeted, tokens_est};
use velocity_code::sites::{check_expected, check_sites, search_ast, site_edits, MatchSite};
use velocity_code::symbol_search::{
    render_symbol_hits, search_symbol, symbol_sources, symbol_tier, Source, SymbolAnswer, Tier,
};
use velocity_code::walk::MAX_SEARCH_FILE_BYTES;
use velocity_code::{ErrorKind, VcResult};

fn path(text: &str) -> TreePath {
    TreePath::from_text(text)
}

fn shown(p: &TreePath) -> String {
    String::from_utf8(p.raw.clone()).unwrap()
}

fn probe(bytes: &[u8]) -> Probe {
    let cut = bytes.len().min(BINARY_SNIFF_LEN);
    Probe::Opened {
        len: bytes.len() as u64,
        head: FileRead::Bytes(bytes[..cut].to_vec()),
        rest: FileRead::Bytes(bytes[cut..].to_vec()),
    }
}

fn oversized() -> Probe {
    Probe::Opened {
        len: MAX_SEARCH_FILE_BYTES + 1,
        head: FileRead::Bytes(vec![]),
        rest: FileRead::Bytes(vec![]),
    }
}

fn candidates(files: &[(&str, &[u8])]) -> Vec<Candidate> {
    files.iter().map(|(n, c)| Candidate { path: path(n), probe: probe(c) }).collect()
}

fn literal(files: &[(&str, &[u8])], needle: &str) -> VcResult<Found> {
    search_literal(needle, &candidates(files), MAX_TOTAL_HITS)
}

fn regex(files: &[(&str, &[u8])], pattern: &str) -> VcResult<Found> {
    search_regex(pattern, &candidates(files), MAX_TOTAL_HITS)
}

fn places(hits: &[QueryHit]) -> Vec<(String, usize)> {
    hits.iter().map(|h| (shown(&h.path), h.line)).collect()
}

#[test]
fn literal_search_finds_hits_across_files_in_deterministic_order() {
    let f = literal(
        &[("b.rs", b"let alpha = 1;\nlet beta = alpha;\n"), ("a.rs", b"fn alpha() {}\n")],
        "alpha",
    )
    .unwrap();
    assert!(f.warnings.is_empty());
    assert_eq!(
        places(&f.hits),
        vec![("a.rs".into(), 1), ("b.rs".into(), 1), ("b.rs".into(), 2)]
    );
    assert_eq!(f.hits[0].line_text, "fn alpha() {}");
    assert_eq!((f.hits[0].col, f.hits[1].col, f.hits[2].col), (4, 5, 12));
}

#[test]
fn binary_files_are_skipped() {
    let f = literal(&[("bin.dat", b"alpha\0 more alpha")], "alpha").unwrap();
    assert!(f.warnings.is_empty());
    assert!(f.hits.is_empty());
}

#[test]
fn regex_search_finds_alternation_across_files_in_deterministic_order() {
    let f = regex(&[("a.rs", b"fn alpha() {}\n"), ("b.rs", b"fn beta() {}\n")], "fn (alpha|beta)")
        .unwrap();
    let got: Vec<(String, usize, usize)> =
        f.hits.iter().map(|h| (shown(&h.path), h.line, h.col)).collect();
    assert_eq!(got, vec![("a.rs".into(), 1, 1), ("b.rs".into(), 1, 1)]);
    assert_eq!(f.hits[0].line_text, "fn alpha() {}");
    assert_eq!(f.hits[1].line_text, "fn beta() {}");
}

#[test]
fn regex_search_one_hit_per_match_on_a_repeated_pattern() {
    let f = regex(&[("a.rs", b"aa aa\n")], "aa").unwrap();
    assert_eq!(f.hits.len(), 2);
    assert_eq!(f.hits[0].col, 1);
    assert_eq!(f.hits[1].col, 4);
}

#[test]
fn regex_search_anchors_per_line_like_rgs_default_mode() {
    let files: &[(&str, &[u8])] = &[("a.rs", b"fn alpha() {}\nlet x = 1;\nfn beta() {}\n")];
    let lines = |p: &str| -> Vec<usize> { regex(files, p).unwrap().hits.iter().map(|h| h.line).collect() };
    assert_eq!(lines("^fn"), vec![1, 3]);
    assert_eq!(lines(";$"), vec![2]);
}

#[test]
fn invalid_regex_pattern_is_a_usage_error() {
    let err = regex(&[("a.rs", b"fn alpha() {}\n")], "(").unwrap_err();
    assert_eq!(err.kind, ErrorKind::Usage);
    assert!(!err.message.is_empty());
    assert!(compile_pattern("(").is_err());
    assert!(compile_pattern("a+").is_ok());
}

#[test]
fn regex_search_skips_binary_files_same_as_literal() {
    let f = regex(&[("bin.dat", b"alpha\0 more alpha")], "alpha").unwrap();
    assert!(f.hits.is_empty());
}

#[test]
fn budget_elides_whole_hits_and_reports_count() {
    let mut content = String::new();
    for i in 0..100 {
        content.push_str(&format!("hit {}\n", i));
    }
    let f = literal(&[("many.rs", content.as_bytes())], "hit").unwrap();
    assert_eq!(f.hits.len(), 100);
    let three: String = f.hits[..3]
        .iter()
        .map(|h| format!("{}:{}:{}: {}", shown(&h.path), h.line, h.col, h.line_text))
        .collect::<Vec<_>>()
        .join("\n");
    let b = render_hits(&f.hits, Some(tokens_est(three.len())));
    assert_eq!(b.text, three);
    assert_eq!(b.elided, 97);
    let all = render_hits(&f.hits, None);
    assert_eq!(all.elided, 0);
    assert_eq!(all.text.lines().count(), 100);
}

#[test]
fn a_hit_on_a_very_long_line_clamps_its_text_and_marks_it() {
    let line = format!("{}NEEDLE{}\n", "x".repeat(1000), "y".repeat(1000));
    let f = literal(&[("min.js", line.as_bytes())], "NEEDLE").unwrap();
    assert_eq!(f.hits.len(), 1);
    let h = &f.hits[0];
    assert_eq!(h.line, 1);
    assert_eq!(h.col, 1001);
    assert!(h.line_text.ends_with('…'));
    assert!(h.line_text.contains("NEEDLE"));
    assert!(h.line_text.len() <= MAX_LINE_TEXT_BYTES + '…'.len_utf8());
    let f = literal(&[("short.rs", b"let NEEDLE = 1;\n")], "let NEEDLE").unwrap();
    assert_eq!(f.hits[0].line_text, "let NEEDLE = 1;");
}

#[test]
fn the_clamp_window_never_splits_a_multibyte_character() {
    let filler = "あ".repeat(400);
    let text = format!("{}NEEDLE{}\n", filler, filler);
    let f = literal(&[("wide.txt", text.as_bytes())], "NEEDLE").unwrap();
    assert_eq!(f.hits.len(), 1);
    assert!(!f.hits[0].line_text.contains('\u{FFFD}'));
    assert!(f.hits[0].line_text.contains("NEEDLE"));
}

#[test]
fn a_search_past_the_hit_cap_refuses_instead_of_answering_partially() {
    let content = "tok\n".repeat(20);
    let files = candidates(&[("many.rs", content.as_bytes())]);
    for err in [
        search_literal("tok", &files, 5).unwrap_err(),
        search_regex("tok", &files, 5).unwrap_err(),
    ] {
        assert_eq!(err.kind, ErrorKind::Usage);
        assert!(err.message.contains("too many hits (>5)"), "{}", err.message);
        assert!(err.next.is_some());
    }
    assert_eq!(search_literal("tok", &files, 20).unwrap().hits.len(), 20);
    assert_eq!(MAX_TOTAL_HITS, 100_000);
}

#[test]
fn empty_literal_pattern_is_refused_not_amplified() {
    let files: &[(&str, &[u8])] = &[("a.rs", b"fn alpha() {}\n")];
    let err = literal(files, "").unwrap_err();
    assert_eq!(err.kind, ErrorKind::Usage);
    assert!(err.message.contains("empty pattern"), "{}", err.message);
    assert!(!literal(files, "f").unwrap().hits.is_empty());
}

#[test]
fn regex_matching_the_empty_string_is_refused_not_amplified() {
    let files: &[(&str, &[u8])] = &[("a.rs", b"fn alpha() {}\n")];
    for pattern in ["", "a*", "(alpha)?", "x{0,3}"] {
        let err = regex(files, pattern).unwrap_err();
        assert_eq!(err.kind, ErrorKind::Usage, "pattern {:?} must be refused", pattern);
        assert!(err.message.contains("empty string"), "pattern {:?}: {}", pattern, err.message);
    }
    assert!(!regex(files, "a+").unwrap().hits.is_empty());
}

fn nul_at_offset_fixture(nul_at: usize) -> Vec<u8> {
    let mut v = vec![b'a'; 8100];
    v.push(b'\n');
    assert!(nul_at > v.len());
    while v.len() < nul_at {
        v.push(b'b');
    }
    v.push(0u8);
    assert_eq!(v.len() - 1, nul_at);
    v.push(b'\n');
    v.extend_from_slice(b"NEEDLE here\n");
    v
}

#[test]
fn the_binary_sniff_boundary_is_exactly_8192_bytes() {
    let inside = nul_at_offset_fixture(8191);
    assert_eq!(read_for_search(&path("inside.dat"), &probe(&inside)).unwrap_err(), None);
    let content = nul_at_offset_fixture(8192);
    assert_eq!(read_for_search(&path("outside.dat"), &probe(&content)).unwrap(), content);
    let f = literal(&[("outside.dat", &content)], "NEEDLE").unwrap();
    assert!(f.warnings.is_empty());
    assert_eq!(f.hits.len(), 1);
    assert_eq!(f.hits[0].line, 3);
    assert_eq!(f.hits[0].col, 1);
    assert_eq!(f.hits[0].line_text, "NEEDLE here");
    assert!(is_binary(&[1, 0]));
    assert!(!is_binary(&[1, 2]));
}

#[test]
fn read_for_search_never_returns_more_than_the_cap() {
    let bytes = read_for_search(&path("a.rs"), &probe(b"fn alpha() {}\n")).unwrap();
    assert!(bytes.len() as u64 <= MAX_SEARCH_FILE_BYTES);
    let w = read_for_search(&path("big.rs"), &oversized()).unwrap_err().unwrap();
    assert_eq!(w, "big.rs: skipped — 16777217 bytes exceeds the 16777216-byte size limit");
    let grown = Probe::Opened {
        len: 1,
        head: FileRead::Bytes(vec![b'x'; 8192]),
        rest: FileRead::Bytes(vec![b'x'; MAX_SEARCH_FILE_BYTES as usize - 8191]),
    };
    let w = read_for_search(&path("big.rs"), &grown).unwrap_err().unwrap();
    assert_eq!(w, "big.rs: skipped — grew past the 16777216-byte size limit while being read");
    assert!(is_oversize(MAX_SEARCH_FILE_BYTES + 1));
    assert!(!is_oversize(MAX_SEARCH_FILE_BYTES));
}

#[test]
fn oversized_file_is_skipped_with_a_warning() {
    let mut files = candidates(&[("small.rs", b"fn alpha() {}\n")]);
    files.push(Candidate { path: path("big.rs"), probe: oversized() });
    for f in [
        search_literal("alpha", &files, MAX_TOTAL_HITS).unwrap(),
        search_regex("alpha", &files, MAX_TOTAL_HITS).unwrap(),
    ] {
        assert_eq!(f.hits.len(), 1);
        assert_eq!(f.warnings.len(), 1);
        assert!(f.warnings[0].contains("big.rs") && f.warnings[0].contains("exceeds"));
    }
}

#[test]
fn unreadable_file_yields_a_warning_not_silence() {
    let mut files = candidates(&[("readable.rs", b"fn alpha() {}\n")]);
    let denied = "Permission denied (os error 13)".to_string();
    files.push(Candidate { path: path("locked.rs"), probe: Probe::Failed(denied.clone()) });
    for f in [
        search_literal("alpha", &files, MAX_TOTAL_HITS).unwrap(),
        search_regex("alpha", &files, MAX_TOTAL_HITS).unwrap(),
    ] {
        assert_eq!(f.hits.len(), 1);
        assert_eq!(f.warnings, vec![format!("locked.rs: skipped — {}", denied)]);
    }
}

#[test]
fn a_search_can_be_fed_file_by_file() {
    let mut found = nothing_found();
    found = scan_literal(found, "b", &path("z.rs"), &probe(b"abc\nb\n"), 10).unwrap();
    found = scan_literal(found, "b", &path("y.rs"), &probe(b"bb"), 10).unwrap();
    assert_eq!(places(&found.hits), vec![
        ("z.rs".into(), 1),
        ("z.rs".into(), 2),
        ("y.rs".into(), 1),
        ("y.rs".into(), 1),
    ]);
    assert!(scan_literal(found, "b", &path("x.rs"), &probe(b"bbbbbbb"), 10).is_err());
}

fn source(name: &str, text: &str) -> Source {
    let ix = indexed(&[name]);
    let mut files = symbol_sources(&ix, &vec![]);
    assert_eq!(files.len(), 1);
    Source {
        file: files.remove(0),
        probe: SourceProbe::Opened {
            len: text.len() as u64,
            bytes: FileRead::Bytes(text.as_bytes().to_vec()),
        },
    }
}

fn indexed(names: &[&str]) -> StatIndex {
    let stats: Vec<FileStat> = names
        .iter()
        .map(|n| FileStat { path: path(n), size: 1, mtime_ns: 1, hash: "h".to_string() })
        .collect();
    refresh(&StatIndex::empty(), &stats).0
}

fn symbol_names(a: &SymbolAnswer) -> Vec<String> {
    a.hits.iter().map(|h| h.symbol.name.clone()).collect()
}

#[test]
fn exact_name_match_wins_over_fuzzy_substring_matches() {
    let a = search_symbol("id", &vec![source("a.rs", "fn id() {}\nfn identify() {}\n")], MAX_TOTAL_HITS).unwrap();
    assert!(a.warnings.is_empty());
    assert!(!a.fuzzy);
    assert_eq!(symbol_names(&a), vec!["id"]);
}

#[test]
fn fuzzy_substring_match_used_and_flagged_when_no_exact_name_matches() {
    for name in ["id", "ID"] {
        let files = vec![source("a.rs", "fn identify() {}\nfn other() {}\n")];
        let a = search_symbol(name, &files, MAX_TOTAL_HITS).unwrap();
        assert!(a.warnings.is_empty());
        assert!(a.fuzzy);
        assert_eq!(symbol_names(&a), vec!["identify"]);
    }
    let a = search_symbol("id", &vec![source("a.rs", "fn IDENTIFY() {}\n")], MAX_TOTAL_HITS).unwrap();
    assert_eq!(symbol_names(&a), vec!["IDENTIFY"]);
}

#[test]
fn malformed_file_is_skipped_with_warning_not_fatal() {
    let files = vec![
        source("good.rs", "fn target() {}\n"),
        source("bad.rs", "this is not rust code at all, just prose."),
    ];
    let a = search_symbol("target", &files, MAX_TOTAL_HITS).unwrap();
    assert!(!a.fuzzy);
    assert_eq!(symbol_names(&a), vec!["target"]);
    assert_eq!(a.warnings, vec!["bad.rs: rust: source did not parse"]);
}

#[test]
fn unsupported_language_files_are_never_parsed() {
    let ix = indexed(&["a.rs", "notes.txt", "b.py", "sub/c.rs"]);
    let names = |scope: Vec<TreePath>| -> Vec<String> {
        symbol_sources(&ix, &scope).iter().map(|f| shown(&f.path)).collect()
    };
    assert_eq!(names(vec![]), vec!["a.rs", "sub/c.rs"]);
    assert_eq!(names(vec![path("sub")]), vec!["sub/c.rs"]);
    let a = search_symbol("prose", &vec![], MAX_TOTAL_HITS).unwrap();
    assert!(a.hits.is_empty() && a.warnings.is_empty());
}

#[test]
fn an_over_cap_file_is_skipped_by_symbol_search_with_a_warning() {
    let mut big = source("big.rs", "");
    big.probe = SourceProbe::Opened {
        len: MAX_SEARCH_FILE_BYTES + 1,
        bytes: FileRead::Bytes(vec![]),
    };
    let a = search_symbol("target", &vec![source("a.rs", "fn target() {}\n"), big], MAX_TOTAL_HITS).unwrap();
    assert!(!a.fuzzy);
    assert_eq!(a.hits.len(), 1);
    assert_eq!(shown(&a.hits[0].path), "a.rs");
    assert_eq!(a.warnings.len(), 1);
    assert!(a.warnings[0].contains("big.rs") && a.warnings[0].contains("exceeds"));
}

#[test]
fn hits_within_a_tier_are_ordered_by_path_then_start_line() {
    let files =
        vec![source("b.rs", "fn dup() {}\n"), source("a.rs", "fn other() {}\nfn dup() {}\n")];
    let a = search_symbol("dup", &files, MAX_TOTAL_HITS).unwrap();
    assert!(!a.fuzzy);
    let got: Vec<(String, usize)> =
        a.hits.iter().map(|h| (shown(&h.path), h.symbol.start_line)).collect();
    assert_eq!(got, vec![("a.rs".into(), 2), ("b.rs".into(), 1)]);
}

#[test]
fn a_source_that_is_not_text_is_a_warning() {
    let p = SourceProbe::Opened { len: 2, bytes: FileRead::Bytes(vec![0xff, 0xfe]) };
    let w = read_capped_source(&path("x.rs"), &p).unwrap_err();
    assert_eq!(w, "x.rs: skipped — not valid utf-8");
    let p = SourceProbe::Opened { len: 2, bytes: FileRead::Failed("boom".to_string()) };
    assert_eq!(read_capped_source(&path("x.rs"), &p).unwrap_err(), "x.rs: skipped — boom");
    let p = SourceProbe::Failed("gone".to_string());
    assert_eq!(read_capped_source(&path("x.rs"), &p).unwrap_err(), "x.rs: skipped — gone");
    let p = SourceProbe::Opened { len: 5, bytes: FileRead::Bytes("a↦b".into()) };
    assert_eq!(read_capped_source(&path("x.rs"), &p).unwrap(), "a↦b");
}

#[test]
fn symbol_tiers_and_blank_names() {
    assert_eq!(symbol_tier("id", "id", "id", "id"), Tier::Exact);
    assert_eq!(symbol_tier("id", "id", "Gadget", "gadget"), Tier::Other);
    assert_eq!(symbol_tier("ID", "id", "hidden", "hidden"), Tier::Near);
    for name in ["", "   "] {
        let e = search_symbol(name, &vec![], MAX_TOTAL_HITS).unwrap_err();
        assert_eq!(e.kind, ErrorKind::Usage);
        assert!(e.message.starts_with("empty symbol name"), "{}", e.message);
    }
}

#[test]
fn symbol_hits_render_with_kind_and_signature() {
    let src = "struct S;\nimpl S {\n    fn go(&self) {}\n}\n";
    let a = search_symbol("go", &vec![source("a.rs", src)], MAX_TOTAL_HITS).unwrap();
    let b = render_symbol_hits(&a.hits, None);
    assert_eq!(b.text, "a.rs:3: [method] fn go(&self)");
    let none = render_symbol_hits(&a.hits, Some(0));
    assert_eq!((none.text.as_str(), none.elided), ("", 1));
}

fn sites_of(name: &str, text: &str, needle: &str, rewrite: &str) -> Vec<MatchSite> {
    text.match_indices(needle)
        .map(|(at, m)| MatchSite {
            path: path(name),
            start: at,
            end: at + m.len(),
            old: m.as_bytes().to_vec(),
            new: rewrite.as_bytes().to_vec(),
        })
        .collect()
}

fn contents_of(files: &[(&str, &str)]) -> OrdMap<TreePath, Vec<u8>> {
    let mut m = OrdMap::new();
    for (n, c) in files {
        m.insert(path(n), c.as_bytes().to_vec());
    }
    m
}

#[test]
fn ast_search_finds_call_site_and_locates_it_via_newline_index() {
    let src = "fn main() {\n    fetch_config(a);\n}\n";
    let contents = contents_of(&[("a.rs", src)]);
    let sites = sites_of("a.rs", src, "fetch_config(a)", "");
    assert!(check_sites(&contents, &sites));
    let hits = search_ast(&contents, &sites, MAX_TOTAL_HITS).unwrap();
    assert_eq!(hits.len(), 1);
    assert_eq!(shown(&hits[0].path), "a.rs");
    assert_eq!(hits[0].line, 2);
    assert_eq!(hits[0].col, 5);
    assert_eq!(hits[0].line_text, "    fetch_config(a);");
}

#[test]
fn ast_search_finds_every_call_site_across_files() {
    let a = "fn main() { fetch_config(a); fetch_config(b); }\n";
    let b = "fn other() { fetch_config(c); }\n";
    let contents = contents_of(&[("a.rs", a), ("b.rs", b)]);
    let mut sites = sites_of("b.rs", b, "fetch_config", "");
    sites.extend(sites_of("a.rs", a, "fetch_config", ""));
    let hits = search_ast(&contents, &sites, MAX_TOTAL_HITS).unwrap();
    assert_eq!(
        places(&hits),
        vec![("a.rs".into(), 1), ("a.rs".into(), 1), ("b.rs".into(), 1)]
    );
    sites[0].path = path("never_read.rs");
    assert_eq!(search_ast(&contents, &sites, MAX_TOTAL_HITS).unwrap().len(), 2);
    sites[1].start = usize::MAX;
    assert!(!check_sites(&contents, &sites));
}

#[test]
fn an_ast_search_past_the_hit_cap_refuses_instead_of_answering_partially() {
    let src = "fetch_config(a);\n".repeat(20);
    let contents = contents_of(&[("many.rs", &src)]);
    let sites = sites_of("many.rs", &src, "fetch_config", "");
    let err = search_ast(&contents, &sites, 5).unwrap_err();
    assert_eq!(err.kind, ErrorKind::Usage);
    assert!(err.message.contains("too many hits (>5)"), "{}", err.message);
    assert_eq!(search_ast(&contents, &sites, 20).unwrap().len(), 20);
}

#[test]
fn a_symbol_search_past_the_hit_cap_refuses_instead_of_answering_partially() {
    let files = || vec![source("many.rs", &"fn dup() {}\n".repeat(20)), source("b.rs", "fn dups() {}\n")];
    for name in ["dup", "DU"] {
        let err = search_symbol(name, &files(), 5).unwrap_err();
        assert_eq!(err.kind, ErrorKind::Usage);
        assert!(err.message.contains("too many hits (>5)"), "{}", err.message);
        assert!(err.next.is_some());
    }
    let a = search_symbol("dup", &files(), 20).unwrap();
    assert_eq!((a.hits.len(), a.fuzzy), (20, false), "near names do not count where one is exact");
    assert_eq!(search_symbol("DU", &files(), 20).unwrap_err().exit_code(), 2);
    assert_eq!(search_symbol("DU", &files(), 21).unwrap().hits.len(), 21);
    assert!(search_symbol(" ", &files(), 0).unwrap_err().message.starts_with("empty symbol name"));
}

#[test]
fn the_sniffed_window_is_fixed_however_the_file_was_read() {
    let read = |head: &[u8], rest: FileRead| {
        let probe = Probe::Opened { len: 1, head: FileRead::Bytes(head.to_vec()), rest };
        read_for_search(&path("x"), &probe)
    };
    let mut bytes = vec![b'x'; 8200];
    bytes[8192] = 0;
    assert_eq!(read(&bytes, FileRead::Bytes(vec![])).unwrap(), bytes);
    assert_eq!(read(&bytes[..1], FileRead::Bytes(bytes[1..].to_vec())).unwrap(), bytes);
    bytes[8191] = 0;
    assert_eq!(read(&bytes, FileRead::Bytes(vec![])).unwrap_err(), None);
    assert_eq!(read(&bytes[..1], FileRead::Bytes(bytes[1..].to_vec())).unwrap_err(), None);
    let failed = || FileRead::Failed("boom".to_string());
    assert_eq!(read(b"a\0", failed()).unwrap_err(), None);
    assert_eq!(read(b"a", failed()).unwrap_err().unwrap(), "x: skipped — boom");
}

#[test]
fn sites_become_edits_and_the_expected_count_is_checked() {
    let sites = sites_of("a.rs", "x = one + one", "one", "uno");
    let edits = site_edits(&sites);
    assert_eq!((edits[0].start, edits[0].end, edits[1].start), (4, 7, 10));
    assert_eq!(edits[0].old_b64, "b25l");
    assert_eq!(edits[0].new_b64, "dW5v");
    assert_eq!(edits[0].line_hint, None);
    assert!(check_expected(None, 7).is_ok());
    assert!(check_expected(Some(2), 2).is_ok());
    let e = check_expected(Some(3), 2).unwrap_err();
    assert_eq!(e.to_string(), "usage: expected 3 sites, found 2 — plan not stored");
}

#[test]
fn the_clamp_window_survives_bytes_that_are_not_utf8_at_all() {
    let mut content = vec![0x80u8; 1000];
    content.extend_from_slice(b"NEEDLE");
    content.extend_from_slice(&[0x80u8; 1000]);
    content.push(b'\n');
    let f = literal(&[("latin.txt", &content)], "NEEDLE").unwrap();
    assert_eq!(f.hits.len(), 1);
    assert!(f.hits[0].line_text.contains("NEEDLE"));
    assert_ne!(f.hits[0].line_text, "…");
    assert_eq!(f.hits[0].col, 1001);
}

#[test]
fn windows_are_bounded_at_every_edge_of_a_line() {
    let line = vec![b'z'; 1200];
    for off in [0usize, 1, 249, 250, 251, 700, 1199, 1200] {
        let (w, cut) = clamp_line_window(&line, off);
        assert!(cut);
        assert_eq!(w.len(), 500, "off {}", off);
    }
    let (w, cut) = clamp_line_window(&line[..500], 3);
    assert_eq!((w.len(), cut), (500, false));
    let wide = "aあ".as_bytes();
    assert_eq!(nudge_start(wide, 2, 4), 2);
    assert_eq!(nudge_start(wide, 0, 4), 0);
    assert_eq!(nudge_end(wide, 0, 2), 1);
    assert_eq!(nudge_end(wide, 0, 4), 4);
    assert!(is_utf8_boundary(b'a') && is_utf8_boundary(0xe3) && !is_utf8_boundary(0x81));
}

#[test]
fn overlapping_occurrences_are_reported_once_each() {
    let f = literal(&[("a.txt", b"aaaa\nbaaa\n")], "aa").unwrap();
    let got: Vec<(usize, usize)> = f.hits.iter().map(|h| (h.line, h.col)).collect();
    assert_eq!(got, vec![(1, 1), (1, 3), (2, 2)]);
}

#[test]
fn rendering_takes_whole_lines_while_they_fit() {
    let lines = vec!["abcd".to_string(), "efgh".to_string(), "i".to_string()];
    let b = render_budgeted(&lines, Some(3));
    assert_eq!((b.text.as_str(), b.elided), ("abcd\nefgh\ni", 0));
    let b = render_budgeted(&lines, Some(2));
    assert_eq!((b.text.as_str(), b.elided), ("abcd", 2));
    assert_eq!(tokens_est(0), 0);
    assert_eq!(tokens_est(1), 1);
    assert_eq!(tokens_est(8), 2);
}
