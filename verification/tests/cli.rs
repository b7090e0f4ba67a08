use std::collections::BTreeMap;

use velocity_code::answers::{
    hit_files, naive_bytes_for_files, query_hits_outcome, query_mode, query_symbol_outcome,
    symbol_hit_files, QueryMode,
};
use velocity_code::apply::{
    apply_plan, apply_report, group_edits_by_file, undo_report, ApplyReport, FileRead, Sighting,
};
use velocity_code::codec::bytes_hash;
use velocity_code::drift::{check_scope_drift, Given, HashRead, Need, Suspect};
use velocity_code::json::Json;
use velocity_code::metrics::{aggregate, MetricRecord};
use velocity_code::ordmap::OrdMap;
use velocity_code::output::{
    emit, error_json, error_kind_label, join_warnings, CmdOutcome, Emission, Printed,
};
use velocity_code::paths::TreePath;
use velocity_code::plan::{Canon, MatchSelector, Plan, PlanForm, WalkedFile};
use velocity_code::query::{search_literal, search_regex, Candidate, Probe, MAX_TOTAL_HITS};
use velocity_code::reading::{
    check_range, cmd_read_budget_check, cmd_read_path, cmd_read_symbol, parse_range_suffix,
    pick_symbol, read_mode, ReadMode,
};
use velocity_code::recover::{DoctorAction, DoctorReport, RepoStatus};
use velocity_code::resolve::{resolve_edits, EditRequest};
use velocity_code::root::{meant_path, rebase_user_path, strip_root, Located};
use velocity_code::scope::{
    describe_scope, infer_scope_lang, langs_in, refuse_oversized, SizedFile,
};
use velocity_code::sites::{plan_match_pipeline, MatchSite};
use velocity_code::steps::{
    apply_step, match_step, ApplyGiven, ApplyNeed, MatchGiven, MatchNeed,
};
use velocity_code::symbol_search::{search_symbol, Source, SourceFile, SymbolAnswer};
use velocity_code::query::SourceProbe;
use velocity_code::verbs::{
    apply_outcome, cmd_outline, cmd_plan, doctor_action, doctor_outcome, gain_outcome,
    metric_event, outline_outcome, plan_outcome, refresh_requests, show_outcome, status_outcome,
    undo_outcome, verb_name, MatchOrder, PlanCmd, PlanStep, Verb,
};
use velocity_code::walk::{walk_scoped, MAX_SEARCH_FILE_BYTES};
use velocity_code::{ErrorKind, VcError, VcResult};

const EPOCH: &str = "8a6ace23";

fn path(text: &str) -> TreePath {
    TreePath::from_text(text)
}

fn shown(p: &TreePath) -> String {
    String::from_utf8(p.raw.clone()).unwrap()
}

fn text_at<'a>(j: &'a Json, key: &str) -> &'a str {
    match j.get(key) {
        Some(Json::Text(t)) => t,
        other => panic!("{}: {:?}", key, other),
    }
}

fn number_at(j: &Json, key: &str) -> u64 {
    match j.get(key) {
        Some(Json::Number(n)) => *n,
        other => panic!("{}: {:?}", key, other),
    }
}

fn list_at<'a>(j: &'a Json, key: &str) -> &'a Vec<Json> {
    match j.get(key) {
        Some(Json::List(l)) => l,
        other => panic!("{}: {:?}", key, other),
    }
}

/// Reads as the command line does: the range, then the lines.
fn read(arg: &str, content: &str, budget: Option<usize>) -> VcResult<CmdOutcome> {
    let (file, range) = parse_range_suffix(arg);
    check_range(range)?;
    cmd_read_path(&file, content, range, EPOCH, budget)
}

#[test]
fn read_range_returns_exact_lines_with_prefixes_and_epoch_header() {
    let out = read("a.txt:2-3", "one\ntwo\nthree\nfour\n", None).unwrap();
    let mut lines = out.human.lines();
    assert_eq!(lines.next().unwrap(), "epoch 8a6ace23 — a.txt:2-3");
    let rest: Vec<&str> = lines.collect();
    assert_eq!(rest, vec!["2: two", "3: three"]);
    assert_eq!(out.naive_bytes, Some(19));
    assert_eq!(out.bytes_out, Some(out.human.len() as u64));
}

#[test]
fn read_whole_file_returns_every_line() {
    let out = read("a.txt", "one\ntwo\n", None).unwrap();
    assert!(out.human.contains("1: one"));
    assert!(out.human.contains("2: two"));
}

#[test]
fn read_invalid_ranges_are_usage_errors() {
    for arg in ["a.txt:0-2", "a.txt:3-1"] {
        let e = read(arg, "one\ntwo\nthree\n", None).unwrap_err();
        assert_eq!(e.exit_code(), 2);
    }
    assert_eq!(
        check_range(Some((3, 1))).unwrap_err().to_string(),
        "usage: read: invalid range 3-1"
    );
}

#[test]
fn read_range_beyond_eof_clamps_to_true_end() {
    let out = read("a.txt:2-999", "one\ntwo\nthree\n", None).unwrap();
    assert_eq!(number_at(&out.json, "start"), 2);
    assert_eq!(number_at(&out.json, "end"), 3);
    assert_eq!(text_at(&out.json, "text"), "2: two\n3: three");
}

#[test]
fn read_range_start_beyond_eof_is_not_found_not_silent_empty_success() {
    let content: String = (1..=10).map(|i| format!("line {}\n", i)).collect();
    let e = read("file.txt:11-12", &content, None).unwrap_err();
    assert_eq!(e.exit_code(), 1);
    assert_eq!(
        e.to_string(),
        "not-found: file.txt:11-12: start beyond EOF (10 lines) — next: vc read file.txt:1-10"
    );
}

fn numbered_content(n: usize) -> String {
    (0..n).map(|i| format!("line number {} has some real content in it\n", i)).collect()
}

#[test]
fn read_over_budget_refuses_with_budget_kind_and_outline_hint() {
    let e = read("big.txt", &numbered_content(200), Some(5)).unwrap_err();
    assert_eq!(e.exit_code(), 1);
    let line = e.to_string();
    assert!(line.starts_with("budget:"), "{}", line);
    assert!(line.contains("tokens (budget 5)"), "{}", line);
    assert!(line.ends_with("next: vc outline big.txt"), "{}", line);
}

#[test]
fn a_whole_file_is_refused_by_its_size_before_its_lines() {
    let content = "x\n".repeat(20);
    let told = |budget| read("b.txt", &content, Some(budget)).unwrap_err().to_string();
    assert_eq!(told(5), "budget: b.txt is ~10 tokens (budget 5) — next: vc outline b.txt");
    assert_eq!(told(9), "budget: b.txt is ~10 tokens (budget 9) — next: vc outline b.txt");
    assert_eq!(told(10), "budget: b.txt is ~28 tokens (budget 10) — next: vc outline b.txt");
    assert!(read("b.txt", &content, Some(28)).is_ok());
    let line = read("b.txt:1-20", &content, Some(5)).unwrap_err().to_string();
    assert_eq!(line, "budget: b.txt is ~28 tokens (budget 5) — next: vc outline b.txt");
    assert!(cmd_read_budget_check("b.txt", 40, Some(10)).is_ok());
    assert_eq!(cmd_read_budget_check("b.txt", 41, Some(10)).unwrap_err().kind, ErrorKind::Budget);
}

#[test]
fn read_json_shape_matches_contract() {
    let out = read("a.txt", "one\ntwo\n", None).unwrap();
    assert_eq!(text_at(&out.json, "epoch8").len(), 8);
    assert_eq!(text_at(&out.json, "path"), "a.txt");
    assert_eq!(number_at(&out.json, "start"), 1);
    assert_eq!(number_at(&out.json, "end"), 2);
    assert_eq!(text_at(&out.json, "text"), "1: one\n2: two");
}

fn sources(files: &[(&str, &str)]) -> Vec<Source> {
    files
        .iter()
        .map(|(n, c)| Source {
            file: SourceFile { path: path(n), lang: "rust".to_string() },
            probe: SourceProbe::Opened {
                len: c.len() as u64,
                bytes: FileRead::Bytes(c.as_bytes().to_vec()),
            },
        })
        .collect()
}

/// Reads the body of a symbol as the command line does.
fn read_symbol(files: &[(&str, &str)], name: &str) -> VcResult<CmdOutcome> {
    let a: SymbolAnswer = search_symbol(name, &sources(files), MAX_TOTAL_HITS)?;
    let hit = pick_symbol(name, &a)?;
    let content = files.iter().find(|(n, _)| *n == shown(&hit.path)).unwrap().1;
    cmd_read_symbol(hit, content, EPOCH, None, &a.warnings)
}

#[test]
fn read_symbol_unique_prints_full_body() {
    let src = "impl Plan {\n    pub fn id(&self) -> String {\n        String::new()\n    }\n}\n";
    let out = read_symbol(&[("plan.rs", src)], "id").unwrap();
    assert!(out.human.contains("2: "), "{}", out.human);
    assert!(out.human.contains("pub fn id(&self) -> String {"));
    assert!(out.human.contains("String::new()"));
    assert!(out.human.contains("4:     }"));
    assert!(!out.human.contains("1: impl"));
}

#[test]
fn read_symbol_ambiguous_lists_candidates_as_path_colon_line() {
    let e = read_symbol(&[("a.rs", "fn dup() {}\n"), ("b.rs", "fn dup() {}\n")], "dup").unwrap_err();
    assert_eq!(e.to_string(), "ambiguous: dup: 2 symbols match: a.rs:1, b.rs:1");
}

#[test]
fn read_symbol_zero_hits_is_not_found() {
    let e = read_symbol(&[("a.rs", "fn other() {}\n")], "zzz").unwrap_err();
    assert_eq!(e.exit_code(), 1);
    assert_eq!(e.to_string(), "not-found: zzz: no symbol found — next: vc query zzz --symbol");
}

#[test]
fn read_symbol_fuzzy_only_match_refuses_instead_of_serving_a_near_miss() {
    let src = "fn load_configuration_from_disk() {\n    let v = 1;\n}\n";
    let e = read_symbol(&[("config.rs", src)], "load_config").unwrap_err();
    let line = e.to_string();
    assert!(line.starts_with("not-found:"), "{}", line);
    assert!(line.contains("load_config:"), "{}", line);
    assert!(line.contains("config.rs:1 load_configuration_from_disk"), "{}", line);
    assert!(line.contains("next: vc query load_config --symbol"), "{}", line);
}

#[test]
fn read_symbol_exact_match_still_reads_even_with_fuzzy_neighbours() {
    let src = "fn load_config() {\n    let exact = 1;\n}\nfn load_config_from_disk() {\n    let near = 2;\n}\n";
    let out = read_symbol(&[("config.rs", src)], "load_config").unwrap();
    assert!(out.human.contains("let exact = 1"));
    assert!(!out.human.contains("let near = 2"));
}

#[test]
fn read_of_a_crlf_file_returns_lines_with_carriage_returns_stripped() {
    let out = read("crlf.txt", "one\r\ntwo\r\nthree\r\n", None).unwrap();
    assert_eq!(number_at(&out.json, "start"), 1);
    assert_eq!(number_at(&out.json, "end"), 3);
    assert_eq!(text_at(&out.json, "text"), "1: one\n2: two\n3: three");
}

#[test]
fn read_of_a_file_without_a_trailing_newline_keeps_the_last_line() {
    let out = read("no_eol.txt", "one\ntwo\nlast line, no newline", None).unwrap();
    assert_eq!(number_at(&out.json, "end"), 3);
    assert_eq!(text_at(&out.json, "text"), "1: one\n2: two\n3: last line, no newline");
}

#[test]
fn budget_gates_a_whole_file_read_but_not_a_small_range_of_a_large_one() {
    let content = numbered_content(500);
    assert_eq!(read("big.txt", &content, Some(50)).unwrap_err().exit_code(), 1);
    let out = read("big.txt:1-2", &content, Some(50)).unwrap();
    assert_eq!(number_at(&out.json, "start"), 1);
    assert_eq!(number_at(&out.json, "end"), 2);
}

#[test]
fn read_requires_a_path_or_symbol() {
    assert_eq!(read_mode(None, None).unwrap_err().exit_code(), 2);
}

#[test]
fn read_path_and_symbol_together_is_usage_error() {
    let e = read_mode(Some("a.rs".to_string()), Some("other".to_string())).unwrap_err();
    assert_eq!(e.exit_code(), 2);
    assert!(matches!(read_mode(Some("a".to_string()), None), Ok(ReadMode::Path(p)) if p == "a"));
    assert!(matches!(read_mode(None, Some("s".to_string())), Ok(ReadMode::Symbol(s)) if s == "s"));
}

#[test]
fn a_range_is_only_what_parses_as_one() {
    assert_eq!(parse_range_suffix("a:b.rs:2-3"), ("a:b.rs".to_string(), Some((2, 3))));
    assert_eq!(parse_range_suffix("a:b.rs"), ("a:b.rs".to_string(), None));
    assert_eq!(parse_range_suffix("a.rs:2-x"), ("a.rs:2-x".to_string(), None));
    assert_eq!(parse_range_suffix("a.rs:2"), ("a.rs:2".to_string(), None));
    assert_eq!(parse_range_suffix("a.rs:1-2-3"), ("a.rs:1-2-3".to_string(), None));
    assert_eq!(parse_range_suffix(""), (String::new(), None));
}

#[test]
fn an_empty_file_reads_as_no_lines() {
    let out = read("empty.txt", "", Some(0)).unwrap();
    assert_eq!(out.human, "epoch 8a6ace23 — empty.txt:1-0\n");
    assert_eq!(text_at(&out.json, "text"), "");
}

#[test]
fn outline_unsupported_language_is_usage_error_with_a_runnable_next_hint() {
    let e = cmd_outline("notes.txt", "hello\n", "", EPOCH, None).unwrap_err();
    assert_eq!(
        e.to_string(),
        "usage: outline: unsupported language — next: vc read notes.txt"
    );
    let broken = Err(VcError::new(ErrorKind::Malformed, "boom".to_string()));
    let e = outline_outcome("a.rs", "rust", 1, broken, EPOCH).unwrap_err();
    assert_eq!(e.to_string(), "malformed: boom — next: vc read a.rs");
}

#[test]
fn outline_budget_elides_nested_lines_and_reports_count() {
    let src = "impl Plan {\n    pub fn id(&self) -> String { String::new() }\n}\n";
    let out = cmd_outline("plan.rs", src, "rust", EPOCH, Some(5)).unwrap();
    assert!(number_at(&out.json, "elided") > 0);
    let full = cmd_outline("plan.rs", src, "rust", EPOCH, None).unwrap();
    assert_eq!(
        full.human,
        "epoch 8a6ace23 — 0 elided\n1: impl Plan { … 3 lines }\n  2: pub fn id(&self) -> String { … 1 lines }\n"
    );
    assert_eq!(full.naive_bytes, Some(src.len() as u64));
}

#[test]
fn outline_renders_skeleton_with_collapse_markers_and_epoch_header() {
    let src = "\n/// doc\npub struct Plan { pub version: u32 }\n\nimpl Plan {\n    pub fn id(&self) -> String { String::new() }\n}\n\nfn free() {}\n";
    let text = cmd_outline("plan.rs", src, "rust", EPOCH, None).unwrap().human;
    assert!(text.starts_with("epoch "));
    assert!(text.contains("3: pub struct Plan { … 1 lines }"));
    assert!(text.contains("5: impl Plan { … 3 lines }"));
    assert!(text.contains("  6: pub fn id(&self) -> String { … 1 lines }"), "{}", text);
    assert!(text.contains("9: fn free() { … 1 lines }"));
}

#[test]
fn outline_json_shape_matches_contract() {
    let out = cmd_outline("a.rs", "fn free() {}\n", "rust", EPOCH, None).unwrap();
    assert_eq!(text_at(&out.json, "epoch8").len(), 8);
    assert_eq!(text_at(&out.json, "outline"), "1: fn free() { … 1 lines }");
    assert_eq!(number_at(&out.json, "elided"), 0);
}

fn probe(c: &str) -> Probe {
    Probe::Opened {
        len: c.len() as u64,
        head: FileRead::Bytes(c.as_bytes().to_vec()),
        rest: FileRead::Bytes(vec![]),
    }
}

/// Queries as the command line does.
fn query(files: &[(&str, &str)], pattern: &str, regex: bool, budget: Option<usize>) -> VcResult<CmdOutcome> {
    let cands: Vec<Candidate> =
        files.iter().map(|(n, c)| Candidate { path: path(n), probe: probe(c) }).collect();
    let found = if regex {
        search_regex(pattern, &cands, MAX_TOTAL_HITS)?
    } else {
        search_literal(pattern, &cands, MAX_TOTAL_HITS)?
    };
    let sizes: Vec<u64> = hit_files(&found.hits)
        .entries
        .iter()
        .map(|e| files.iter().find(|(n, _)| *n == shown(&e.0)).unwrap().1.len() as u64)
        .collect();
    let naive = naive_bytes_for_files(&sizes);
    Ok(query_hits_outcome(&found.hits, budget, EPOCH, &found.warnings, naive))
}

#[test]
fn query_literal_prints_epoch_header_and_deterministic_hits() {
    let files = [("b.rs", "let alpha = 1;\nlet beta = alpha;\n"), ("a.rs", "fn alpha() {}\n")];
    let out = query(&files, "alpha", false, None).unwrap();
    assert_eq!(
        out.human,
        "epoch 8a6ace23 — 3 hits\na.rs:1:4: fn alpha() {}\nb.rs:1:5: let alpha = 1;\nb.rs:2:12: let beta = alpha;\n"
    );
    assert_eq!((out.files, out.edits), (2, 3));
    assert_eq!(out.naive_bytes, Some(47));
}

#[test]
fn query_zero_hits_exits_zero_with_zero_hits_header() {
    let out = query(&[("a.rs", "fn alpha() {}\n")], "zzz", false, None).unwrap();
    assert_eq!(out.human, "epoch 8a6ace23 — 0 hits\n");
    assert!(list_at(&out.json, "hits").is_empty());
    assert_eq!(emit(false, Ok(out)).code, 0);
}

#[test]
fn query_regex_mode_matches_alternation_across_files() {
    let files = [("a.rs", "fn alpha() {}\n"), ("b.rs", "fn beta() {}\n")];
    let text = query(&files, "fn (alpha|beta)", true, None).unwrap().human;
    assert!(text.contains("a.rs:1:1: fn alpha() {}"), "{}", text);
    assert!(text.contains("b.rs:1:1: fn beta() {}"), "{}", text);
    assert!(text.contains("2 hits"), "{}", text);
}

#[test]
fn query_invalid_regex_is_usage_error() {
    let e = query(&[("a.rs", "fn alpha() {}\n")], "(", true, None).unwrap_err();
    assert_eq!(e.exit_code(), 2);
    assert!(e.to_string().starts_with("usage:"), "{}", e.to_string());
    assert_eq!(emit(false, Err(e)).code, 2);
}

#[test]
fn query_json_shape_matches_contract() {
    let out = query(&[("a.rs", "fn alpha() {}\n")], "alpha", false, None).unwrap();
    assert_eq!(text_at(&out.json, "epoch8"), EPOCH);
    assert_eq!(number_at(&out.json, "elided"), 0);
    let hits = list_at(&out.json, "hits");
    assert_eq!(hits.len(), 1);
    assert_eq!(text_at(&hits[0], "path"), "a.rs");
    assert_eq!(number_at(&hits[0], "line"), 1);
    assert_eq!(number_at(&hits[0], "col"), 4);
    assert_eq!(text_at(&hits[0], "text"), "fn alpha() {}");
}

#[test]
fn query_budget_elides_hits_and_reports_count_in_both_modes() {
    let content: String = (0..50).map(|i| format!("hit {}\n", i)).collect();
    for budget in [5, 10] {
        let out = query(&[("many.rs", &content)], "hit", false, Some(budget)).unwrap();
        let hits = list_at(&out.json, "hits").len() as u64;
        let elided = number_at(&out.json, "elided");
        assert!(elided > 0);
        assert_eq!(hits + elided, 50);
        assert!(out.human.contains(&format!("… elided {} hits (budget)", elided)));
        assert!(out.human.contains("50 hits"));
    }
}

const PLAN: &str = "impl Plan {\n    pub fn id(&self) -> String { String::new() }\n}\n";

/// Queries for a symbol as the command line does.
fn query_symbol(files: &[(&str, &str)], name: &str) -> VcResult<CmdOutcome> {
    let a = search_symbol(name, &sources(files), MAX_TOTAL_HITS)?;
    let sizes: Vec<u64> = symbol_hit_files(&a.hits)
        .entries
        .iter()
        .map(|e| files.iter().find(|(n, _)| *n == shown(&e.0)).unwrap().1.len() as u64)
        .collect();
    Ok(query_symbol_outcome(&a, None, EPOCH, naive_bytes_for_files(&sizes)))
}

#[test]
fn query_symbol_mode_finds_a_method_by_exact_name() {
    let out = query_symbol(&[("plan.rs", PLAN)], "id").unwrap();
    assert!(out.human.contains("plan.rs:2: [method]"), "{}", out.human);
    assert!(out.human.contains("pub fn id(&self) -> String"), "{}", out.human);
    assert_eq!(
        out.human,
        "epoch 8a6ace23 — 1 hits\nplan.rs:2: [method] pub fn id(&self) -> String\n"
    );
    assert_eq!((out.files, out.edits, out.naive_bytes), (1, 1, Some(PLAN.len() as u64)));
}

#[test]
fn query_symbol_json_shape_carries_kind_signature_and_fuzzy() {
    let v = query_symbol(&[("plan.rs", PLAN)], "id").unwrap().json;
    assert!(matches!(v.get("fuzzy"), Some(Json::Bool(false))));
    assert_eq!(number_at(&v, "elided"), 0);
    let hits = list_at(&v, "hits");
    assert_eq!(hits.len(), 1);
    assert_eq!(text_at(&hits[0], "path"), "plan.rs");
    assert_eq!(number_at(&hits[0], "line"), 2);
    assert_eq!(text_at(&hits[0], "kind"), "method");
    assert!(text_at(&hits[0], "signature").contains("pub fn id(&self) -> String"));
    assert!(hits[0].get("fuzzy_source").is_none(), "{:?}", hits[0]);
}

#[test]
fn a_near_miss_names_its_source_in_json() {
    let v = query_symbol(&[("a.rs", "fn identify() {}\n")], "id").unwrap().json;
    assert!(matches!(v.get("fuzzy"), Some(Json::Bool(true))));
    let hit = &list_at(&v, "hits")[0];
    assert_eq!(text_at(hit, "kind"), "function");
    assert_eq!(text_at(hit, "signature"), "fn identify()");
    assert_eq!(text_at(hit, "fuzzy_source"), "identify");
}

#[test]
fn query_symbol_human_header_marks_a_fuzzy_only_result() {
    let header = |src: &str, name: &str| -> String {
        let out = query_symbol(&[("a.rs", src)], name).unwrap();
        out.human.lines().next().unwrap().to_string()
    };
    let near = header("fn load_configuration() {}\n", "load_config");
    assert!(near.ends_with(" — 1 hits (fuzzy: no exact match)"), "{}", near);
    let exact = header("fn load_config() {}\n", "load_config");
    assert!(exact.ends_with(" — 1 hits"), "{}", exact);
    assert_eq!(header("fn load_config() {}\n", "zzz"), "epoch 8a6ace23 — 0 hits");
}

#[test]
fn query_mode_flags_are_mutually_exclusive_in_every_pairing() {
    for (r, s, a) in [(true, true, false), (true, false, true), (false, true, true), (true, true, true)] {
        let e = query_mode(r, s, a, false).unwrap_err();
        assert_eq!(
            e.to_string(),
            "usage: query: --symbol, --regex, and --ast are mutually exclusive"
        );
    }
    assert_eq!(query_mode(false, false, false, false).unwrap(), QueryMode::Literal);
    assert_eq!(query_mode(true, false, false, false).unwrap(), QueryMode::Regex);
    assert_eq!(query_mode(false, true, false, false).unwrap(), QueryMode::Symbol);
    assert_eq!(query_mode(false, false, true, false).unwrap(), QueryMode::Ast);
}

#[test]
fn lang_without_ast_is_refused_as_ast_only() {
    for (r, s) in [(false, false), (true, false), (false, true)] {
        let line = query_mode(r, s, false, true).unwrap_err().to_string();
        assert!(line.starts_with("usage: ") && line.contains("--lang applies only to --ast"));
    }
    assert_eq!(query_mode(false, false, true, true).unwrap(), QueryMode::Ast);
}

#[test]
fn empty_and_empty_matching_patterns_are_refused() {
    let files = [("a.rs", "fn alpha() {}\n")];
    let e = query(&files, "", false, None).unwrap_err();
    assert_eq!(e.exit_code(), 2);
    let line = e.to_string();
    assert!(line.starts_with("usage:"), "{}", line);
    assert!(line.contains("empty pattern"), "{}", line);
    for pattern in ["", "a*"] {
        let e = query(&files, pattern, true, None).unwrap_err();
        assert_eq!(e.exit_code(), 2);
        assert!(e.to_string().contains("empty string"), "{}", e.to_string());
    }
}

#[test]
fn an_empty_symbol_name_is_refused_by_query_and_read() {
    let files = [("a.rs", "fn alpha() {}\nfn beta() {}\n")];
    for name in ["", "   "] {
        let e = query_symbol(&files, name).unwrap_err();
        assert_eq!(e.exit_code(), 2);
        assert!(e.to_string().starts_with("usage: "), "{}", e.to_string());
        assert_eq!(read_symbol(&files, name).unwrap_err().exit_code(), 2);
    }
    assert!(query_symbol(&files, "alpha").is_ok());
}

#[test]
fn query_symbol_mode_surfaces_a_warning_for_a_malformed_file_without_failing() {
    let files = [("good.rs", "fn target() {}\n"), ("bad.rs", "this is not rust code at all, just prose.")];
    let e: Emission = emit(false, query_symbol(&files, "target"));
    assert_eq!(e.code, 0);
    assert!(matches!(&e.stdout, Printed::Text(t) if t.contains("target")));
    assert_eq!(
        e.stderr.as_deref(),
        Some("warning: bad.rs: rust: source did not parse")
    );
}

#[test]
fn query_content_modes_warn_about_a_skipped_file() {
    let none = || FileRead::Bytes(vec![]);
    let big = || Probe::Opened { len: MAX_SEARCH_FILE_BYTES + 1, head: none(), rest: none() };
    let files = || {
        vec![
            Candidate { path: path("small.rs"), probe: probe("fn alpha() {}\n") },
            Candidate { path: path("big.rs"), probe: big() },
        ]
    };
    for found in [
        search_literal("alpha", &files(), MAX_TOTAL_HITS).unwrap(),
        search_regex("alpha", &files(), MAX_TOTAL_HITS).unwrap(),
    ] {
        let out = query_hits_outcome(&found.hits, None, EPOCH, &found.warnings, 14);
        let e = emit(false, Ok(out));
        assert!(matches!(&e.stdout, Printed::Text(t) if t.contains("1 hits")));
        let told = e.stderr.unwrap();
        assert!(told.contains("warning:") && told.contains("big.rs"), "{}", told);
    }
}

#[test]
fn error_kind_label_matches_error_grammar_spelling() {
    let e = VcError::new(ErrorKind::Stale, "x".to_string());
    assert!(e.to_string().starts_with("stale:"));
    assert_eq!(error_kind_label(ErrorKind::Stale), "stale");
    assert_eq!(error_kind_label(ErrorKind::JournalBlocked), "journal-blocked");
    assert_eq!(error_kind_label(ErrorKind::ScopeDrift), "scope-drift");
    assert_eq!(error_kind_label(ErrorKind::NotFound), "not-found");
    assert_eq!(error_kind_label(ErrorKind::Budget), "budget");
}

#[test]
fn json_error_envelope_carries_kind_message_next() {
    let e = VcError::new(ErrorKind::Stale, "boom".to_string()).with_next("vc status".to_string());
    let v = error_json(&e);
    let body = v.get("error").unwrap();
    assert_eq!(text_at(body, "kind"), "stale");
    assert_eq!(text_at(body, "message"), "boom");
    assert_eq!(text_at(body, "next"), "vc status");
}

#[test]
fn json_error_envelope_next_is_null_when_absent() {
    let v = error_json(&VcError::new(ErrorKind::Io, "boom".to_string()));
    assert!(matches!(v.get("error").unwrap().get("next"), Some(Json::Null)));
}

fn outcome(warning: Option<&str>) -> CmdOutcome {
    CmdOutcome {
        human: "human\n".to_string(),
        json: Json::object().with("a", Json::Number(1)),
        files: 0,
        edits: 0,
        epoch8: String::new(),
        warning: warning.map(|w| w.to_string()),
        bytes_out: None,
        naive_bytes: None,
    }
}

#[test]
fn emit_success_json_prints_json_not_human() {
    let e = emit(true, Ok(outcome(None)));
    assert_eq!(e.code, 0);
    assert!(matches!(&e.stdout, Printed::Value(v) if number_at(v, "a") == 1));
    assert_eq!(e.stderr, None);
    let e = emit(false, Ok(outcome(Some("careful"))));
    assert!(matches!(&e.stdout, Printed::Text(t) if t == "human\n"));
    assert_eq!(e.stderr.as_deref(), Some("warning: careful"));
}

#[test]
fn emit_error_returns_mapped_exit_code() {
    let err = |k| VcError::new(k, "boom".to_string());
    let e = emit(false, Err(err(ErrorKind::Stale)));
    assert_eq!(e.code, 3);
    assert_eq!(e.stderr.as_deref(), Some("stale: boom"));
    assert!(matches!(e.stdout, Printed::Nothing));
    let e = emit(true, Err(err(ErrorKind::Usage)));
    assert_eq!(e.code, 2);
    assert!(matches!(e.stdout, Printed::Value(_)));
    assert_eq!(e.stderr, None);
}

#[test]
fn warnings_join_and_none_is_none() {
    assert_eq!(join_warnings(&vec![]), None);
    let two = vec!["a".to_string(), "b".to_string()];
    assert_eq!(join_warnings(&two).as_deref(), Some("a; b"));
}

#[test]
fn doctor_both_flags_is_usage_error() {
    let e = doctor_action(true, true).unwrap_err();
    assert_eq!(e.exit_code(), 2);
    assert!(matches!(doctor_action(false, false), Ok(DoctorAction::Report)));
    assert!(matches!(doctor_action(true, false), Ok(DoctorAction::Rollback)));
    assert!(matches!(doctor_action(false, true), Ok(DoctorAction::Discard)));
}

#[test]
fn doctor_and_status_answers_have_their_lines() {
    let rep = DoctorReport {
        rolled_back: vec!["j-000002".to_string(), "j-\"1".to_string()],
        discarded: vec![],
        lock_removed: true,
        healthy: false,
    };
    let out = doctor_outcome(rep);
    assert_eq!(
        out.human,
        "doctor: rolled_back=[\"j-000002\", \"j-\\\"1\"] discarded=[] lock_removed=true healthy=false\n"
    );
    assert_eq!(list_at(&out.json, "rolled_back").len(), 2);
    let st = RepoStatus {
        epoch8: EPOCH.to_string(),
        files: 3,
        plans: 1,
        journal_head: None,
        uncommitted: vec!["j-1".to_string(), "j-2".to_string()],
        lock_held: false,
    };
    let out = status_outcome(st);
    assert_eq!(
        out.human,
        "epoch8: 8a6ace23\nfiles: 3\nplans: 1\njournal_head: none\nuncommitted: j-1,j-2\nlock_held: false\n"
    );
    assert!(matches!(out.json.get("journal_head"), Some(Json::Null)));
}

#[test]
fn json_shape_for_clean_apply_and_undo() {
    let mut t = Workdir::new(&[("a.rs", "fn old_name() {}\n")]);
    let p = t.edit("a.rs", "old_name", "new_name").unwrap();
    let files = t.apply(&p).unwrap();
    let epoch = "e3480178aabb".to_string();
    let report = apply_report("j-000001".to_string(), files, p.edits.len(), Ok(epoch.clone()));
    let v = apply_outcome(report).json;
    assert_eq!(number_at(&v, "files"), 1);
    assert_eq!(number_at(&v, "edits"), 1);
    assert!(text_at(&v, "journal_id").starts_with("j-"));
    assert_eq!(text_at(&v, "epoch8_after").len(), 8);
    assert!(matches!(v.get("warning"), Some(Json::Null)));
    let v = undo_outcome(undo_report("j-000002".to_string(), files, Ok(epoch))).json;
    assert_eq!(number_at(&v, "files"), 1);
    assert_eq!(number_at(&v, "edits"), 0);
    assert!(text_at(&v, "journal_id").starts_with("j-"));
    assert!(matches!(v.get("warning"), Some(Json::Null)));
}

#[test]
fn apply_and_undo_answers_have_their_lines() {
    let report = || ApplyReport {
        journal_id: "j-000001".to_string(),
        files: 2,
        edits: 3,
        epoch_after: "e3480178aabb".to_string(),
        warning: None,
    };
    let out = apply_outcome(report());
    assert_eq!(out.human, "applied: 3 edits, 2 files. journal j-000001. undo: vc undo\n");
    assert_eq!(text_at(&out.json, "epoch8_after"), "e3480178");
    assert_eq!(out.bytes_out, None);
    let out = undo_outcome(report());
    assert_eq!(out.human, "undone: journal j-000001. files: 2\n");
    let gone = ApplyReport { epoch_after: String::new(), warning: Some("w".to_string()), ..report() };
    let out = apply_outcome(gone);
    assert_eq!((out.epoch8.as_str(), out.warning.as_deref()), ("", Some("w")));
}

#[test]
fn gain_on_empty_metrics_does_not_error() {
    let out = gain_outcome(&aggregate(&vec![], false));
    assert!(out.human.starts_with("(no metrics recorded yet)"));
    assert_eq!(emit(false, Ok(out)).code, 0);
}

#[test]
fn non_read_verb_omits_read_gain_fields() {
    let e = metric_event(Verb::Status, 5, &Ok(outcome(None)));
    assert_eq!((e.verb.as_str(), e.ms), ("status", 5));
    assert_eq!((e.bytes_out, e.naive_bytes, e.refusal), (None, None, None));
    let refused = Err(VcError::new(ErrorKind::ScopeDrift, "x".to_string()));
    let e = metric_event(Verb::Apply, 1, &refused);
    assert_eq!(e.refusal.as_deref(), Some("scope-drift"));
    assert_eq!((e.files, e.edits, e.epoch8.as_str()), (0, 0, ""));
    assert_eq!(verb_name(Verb::Outline), "outline");
}

#[test]
fn query_invocation_writes_bytes_out_and_naive_bytes() {
    let out = query(&[("a.rs", "fn alpha() {}\n")], "alpha", false, None);
    let e = metric_event(Verb::Query, 1, &out);
    assert_eq!(e.verb, "query");
    assert_eq!(e.naive_bytes, Some(14));
    assert!(e.bytes_out.unwrap() > 0);
}

#[test]
fn outline_and_read_invocations_also_write_read_gain_fields() {
    let src = "fn alpha() {\n    1\n}\n";
    let e = metric_event(Verb::Outline, 1, &cmd_outline("a.rs", src, "rust", EPOCH, None));
    assert_eq!(e.verb, "outline");
    assert!(e.bytes_out.is_some() && e.naive_bytes.is_some());
    let e = metric_event(Verb::Read, 1, &read("a.rs", src, None));
    assert_eq!(e.verb, "read");
    assert!(e.bytes_out.is_some() && e.naive_bytes.is_some());
}

#[test]
fn query_invocation_feeds_gain_read_savings_line() {
    let e = metric_event(Verb::Query, 1, &query(&[("a.rs", "fn alpha() {}\n")], "alpha", false, None));
    let records = vec![MetricRecord {
        date: "2026-08-28".to_string(),
        verb: e.verb,
        ms: e.ms,
        refusal: e.refusal,
        bytes_out: e.bytes_out,
        naive_bytes: e.naive_bytes,
    }];
    let out = gain_outcome(&aggregate(&records, false));
    assert!(out.human.contains("read savings:") && out.human.contains("read-verb calls"));
    let savings = out.json.get("read_savings").unwrap();
    assert_eq!(number_at(savings, "calls"), 1);
    assert!(number_at(savings, "naive") > 0);
}

fn rebase(cwd: &str, user: &str, real: Option<&str>) -> VcResult<TreePath> {
    let located = match real {
        Some(p) => Located::Real(path(p)),
        None => Located::Missing,
    };
    assert_eq!(shown(&meant_path(&path(cwd), &path(user))), if user.starts_with('/') {
        user.to_string()
    } else {
        format!("{}/{}", cwd, user)
    });
    rebase_user_path(&path("/r"), &Ok(path("/r")), &path(user), &located)
}

#[test]
fn plan_edit_from_subdirectory_resolves_subdirectory_file_not_root_twin() {
    let rel = rebase("/r/sub", "note.txt", Some("/r/sub/note.txt")).unwrap();
    assert_eq!(shown(&rel), "sub/note.txt");
    let mut t = Workdir::new(&[("note.txt", "root version\n"), ("sub/note.txt", "sub version\n")]);
    let p = t.edit(&shown(&rel), "sub version", "SUB VERSION").unwrap();
    t.apply(&p).unwrap();
    assert_eq!(t.files["sub/note.txt"], "SUB VERSION\n");
    assert_eq!(t.files["note.txt"], "root version\n");
    assert_eq!(shown(&rebase("/r", "note.txt", Some("/r/note.txt")).unwrap()), "note.txt");
    assert_eq!(shown(&rebase("/r", ".", Some("/r")).unwrap()), "");
}

#[test]
fn plan_edit_absolute_path_outside_root_is_usage_error() {
    let e = rebase("/r", "/etc/hosts", Some("/etc/hosts")).unwrap_err();
    assert_eq!(e.to_string(), "usage: path outside repo root");
    assert!(rebase("/r", "/rubbish/x", Some("/rubbish/x")).is_err());
    assert_eq!(shown(&strip_root(&path("/"), &path("/a/b")).unwrap()), "a/b");
}

#[test]
fn plan_edit_missing_file_is_not_found_with_users_relative_path() {
    let e = rebase("/r", "ghost.txt", None).unwrap_err();
    assert_eq!(e.exit_code(), 1);
    assert_eq!(e.to_string(), "not-found: ghost.txt: no such file");
    let failed = Located::Failed("denied".to_string());
    let e = rebase_user_path(&path("/r"), &Ok(path("/r")), &path("x"), &failed).unwrap_err();
    assert_eq!(e.to_string(), "io: x: denied");
    let e = rebase_user_path(&path("/r"), &Err("gone".to_string()), &path("x"), &Located::Missing)
        .unwrap_err();
    assert_eq!(e.to_string(), "io: /r: gone");
}

#[test]
fn mixed_language_scope_without_lang_is_usage() {
    let mut t =
        Workdir::new(&[("a.rs", CALLS), ("b.py", "def f():\n    fetch_config(a)\n")]);
    let e = t.store(t.plan(None)).unwrap_err();
    assert_eq!(e.exit_code(), 2);
    let v = error_json(&e);
    assert_eq!(text_at(v.get("error").unwrap(), "kind"), "usage");
    assert!(text_at(v.get("error").unwrap(), "message").contains("pass --lang"));
    assert_eq!(t.stored.len(), 0);
}

#[test]
fn the_language_of_a_scope_is_asked_for_or_the_only_one() {
    let walked = vec![path("a.rs"), path("b.py"), path("c.txt")];
    let e = infer_scope_lang(&walked, &vec![], None).unwrap_err();
    assert_eq!(e.to_string(), "usage: scope spans rust+python — pass --lang");
    let s = infer_scope_lang(&walked, &vec![], Some("python")).unwrap();
    assert_eq!(s.files.iter().map(shown).collect::<Vec<_>>(), vec!["b.py"]);
    let s = infer_scope_lang(&walked[..1].to_vec(), &vec![], None).unwrap();
    assert_eq!(s.lang, "rust");
    let e = infer_scope_lang(&vec![path("c.txt")], &vec![path("x"), path("y")], None).unwrap_err();
    assert_eq!(e.to_string(), "usage: x, y: scope has no supported language — nothing to match");
    assert_eq!(describe_scope(&vec![]), ".");
    assert_eq!(langs_in(&vec![path("b.py")]), vec!["python"]);
}

#[test]
fn an_oversized_scope_file_refuses_the_match_plan_rather_than_skipping_it() {
    let files = vec![
        SizedFile { path: path("a.rs"), len: 31 },
        SizedFile { path: path("big.rs"), len: MAX_SEARCH_FILE_BYTES + 1 },
    ];
    let e = refuse_oversized(&files).unwrap_err();
    let text = e.to_string();
    assert!(text.starts_with("usage: "), "{}", text);
    assert!(text.contains("big.rs"), "{}", text);
    assert!(text.contains(&(MAX_SEARCH_FILE_BYTES + 1).to_string()), "{}", text);
    assert!(text.contains(".vcignore"), "{}", text);
    assert!(refuse_oversized(&files[..1].to_vec()).is_ok());
    let mut t = Workdir::new(&[("a.rs", CALLS), ("big.rs", ""), ("big.txt", "")]);
    assert!(t.plan(None).is_ok());
    t.huge = vec!["big.txt".to_string()];
    assert!(t.plan(None).is_ok(), "a file of another language is not in scope");
    t.huge = vec!["big.rs".to_string()];
    for expect in [None, Some(1), Some(7)] {
        assert_eq!(t.plan(expect).unwrap_err().to_string(), text);
    }
}

#[test]
fn a_rewrite_settles_language_sizes_and_count_in_that_order() {
    let order = |lang: Option<&str>, expect: Option<usize>| MatchOrder {
        scope: vec![path("src")],
        lang: lang.map(|l| l.to_string()),
        pattern: "a".to_string(),
        rewrite: "b".to_string(),
        expect,
    };
    let any = order(None, None);
    assert!(matches!(match_step(&any, MatchGiven::Nothing), Ok(MatchNeed::Walk)));
    let walked = vec![path("src/a.rs"), path("src/b.py")];
    let e = match_step(&any, MatchGiven::Walked(walked.clone())).unwrap_err();
    assert_eq!(e.to_string(), "usage: scope spans rust+python — pass --lang");
    let scope = match match_step(&order(Some("python"), None), MatchGiven::Walked(walked)) {
        Ok(MatchNeed::Sizes(scope)) => scope,
        other => panic!("{:?}", other),
    };
    assert_eq!(scope.lang, "python");
    assert_eq!(scope.files.iter().map(shown).collect::<Vec<_>>(), vec!["src/b.py"]);
    let sized = |len| vec![SizedFile { path: path("src/b.py"), len }];
    let big = MatchGiven::Sized(scope.clone(), sized(MAX_SEARCH_FILE_BYTES + 1));
    assert!(match_step(&any, big).unwrap_err().message.starts_with("src/b.py: 16777217 bytes"));
    let fits = MatchGiven::Sized(scope, sized(MAX_SEARCH_FILE_BYTES));
    assert!(matches!(match_step(&any, fits), Ok(MatchNeed::Sites(s)) if s.lang == "python"));
    assert!(matches!(match_step(&any, MatchGiven::Found(0)), Ok(MatchNeed::Build)));
    let two = order(None, Some(2));
    assert!(matches!(match_step(&two, MatchGiven::Found(2)), Ok(MatchNeed::Build)));
    let e = match_step(&two, MatchGiven::Found(3)).unwrap_err();
    assert_eq!(e.to_string(), "usage: expected 2 sites, found 3 — plan not stored");
}

#[test]
fn an_apply_checks_drift_takes_the_lock_and_checks_files_in_that_order() {
    let mut asked = vec![apply_step(ApplyGiven::Nothing).unwrap()];
    asked.push(apply_step(ApplyGiven::Drift(Ok(()))).unwrap());
    asked.push(apply_step(ApplyGiven::Lock(Ok(()))).unwrap());
    asked.push(apply_step(ApplyGiven::Files(Ok(()))).unwrap());
    assert_eq!(
        asked,
        vec![
            ApplyNeed::CheckDrift,
            ApplyNeed::TakeLock,
            ApplyNeed::CheckFiles,
            ApplyNeed::Commit
        ]
    );
    let refused = |k: ErrorKind| Err(VcError::new(k, "no".to_string()));
    for (given, kind) in [
        (ApplyGiven::Drift(refused(ErrorKind::ScopeDrift)), ErrorKind::ScopeDrift),
        (ApplyGiven::Lock(refused(ErrorKind::JournalBlocked)), ErrorKind::JournalBlocked),
        (ApplyGiven::Files(refused(ErrorKind::Stale)), ErrorKind::Stale),
    ] {
        let e = apply_step(given).unwrap_err();
        assert_eq!((e.kind, e.message.as_str()), (kind, "no"));
    }
}

/// A short name that tells plans apart.
fn sha8(p: &Plan) -> String {
    Plan::sha8(format!("{:?}", p).as_bytes())
}

fn keys(j: &Json) -> Vec<&str> {
    match j {
        Json::Object(fields) => {
            let mut keys: Vec<&str> = fields.iter().map(|f| f.key.as_str()).collect();
            keys.sort_unstable();
            keys
        },
        other => panic!("{:?}", other),
    }
}

/// A tree of Rust files, and a matcher for calls of one function by name.
struct Workdir {
    files: BTreeMap<String, String>,
    unreadable: Vec<String>,
    huge: Vec<String>,
    /// What a file holds once the matcher has read it.
    late: BTreeMap<String, String>,
    stored: Vec<Plan>,
}

impl Workdir {
    fn new(files: &[(&str, &str)]) -> Workdir {
        Workdir {
            files: files.iter().map(|(n, c)| (n.to_string(), c.to_string())).collect(),
            unreadable: vec![],
            huge: vec![],
            late: BTreeMap::new(),
            stored: vec![],
        }
    }

    fn sized(&self, files: &[TreePath]) -> Vec<SizedFile> {
        let len = |n: &String| match self.huge.contains(n) {
            true => MAX_SEARCH_FILE_BYTES + 1,
            false => self.files[n].len() as u64,
        };
        files.iter().map(|f| SizedFile { path: f.copy(), len: len(&shown(f)) }).collect()
    }

    fn set(&mut self, n: &str, c: &str) {
        self.files.insert(n.to_string(), c.to_string());
    }

    fn walked(&self) -> Vec<TreePath> {
        walk_scoped(self.files.keys().map(|n| path(n)).collect(), &vec![])
    }

    /// Every call of `fetch_config` in the files, and a warning for a file that does not parse.
    fn matched(&self, files: &[TreePath]) -> (Vec<MatchSite>, Vec<String>) {
        let mut sites = vec![];
        let mut warnings = vec![];
        for f in files {
            let text = &self.files[&shown(f)];
            if text.contains("]]]") {
                warnings.push(format!("{}: source did not parse", shown(f)));
                continue;
            }
            for (at, _) in text.match_indices("fetch_config(") {
                let end = at + text[at..].find(')').unwrap() + 1;
                let old = &text[at..end];
                sites.push(MatchSite {
                    path: f.copy(),
                    start: at,
                    end,
                    old: old.as_bytes().to_vec(),
                    new: old.replace("fetch", "load").into_bytes(),
                });
            }
        }
        (sites, warnings)
    }

    fn plan(&self, expect: Option<usize>) -> VcResult<Plan> {
        let walked = self.walked();
        let scope = infer_scope_lang(&walked, &vec![], None)?;
        let (sites, warnings) = self.matched(&scope.files);
        let mut contents = OrdMap::new();
        let mut canon = OrdMap::new();
        for f in &scope.files {
            contents.insert(f.copy(), self.files[&shown(f)].as_bytes().to_vec());
            canon.insert(f.copy(), Canon::Real(path(&format!("/r/{}", shown(f)))));
        }
        let seen: Vec<WalkedFile> = walked
            .iter()
            .map(|f| WalkedFile {
                path: f.copy(),
                hash: Ok(bytes_hash(
                    self.late.get(&shown(f)).unwrap_or(&self.files[&shown(f)]).as_bytes(),
                )),
            })
            .collect();
        let selector = MatchSelector {
            pattern: "fetch_config($$$A)".to_string(),
            rewrite: "load_config($$$A)".to_string(),
            lang: scope.lang.clone(),
            paths: vec![],
        };
        plan_match_pipeline(
            path("/r"),
            selector,
            &self.sized(&scope.files),
            expect,
            &sites,
            &contents,
            &canon,
            Ok(("4c806cbf".repeat(8), 1)),
            &seen,
            warnings,
            1,
        )
    }

    /// Plans and stores what was planned.
    fn store(&mut self, plan: VcResult<Plan>) -> VcResult<String> {
        let plan = plan?;
        let sha8 = sha8(&plan);
        self.stored.push(plan);
        Ok(sha8)
    }

    /// A plan of replacements.
    fn resolve(&self, form: PlanForm, reqs: &Vec<EditRequest>) -> VcResult<Plan> {
        let mut disk = OrdMap::new();
        let mut canon = OrdMap::new();
        for q in reqs {
            if let Some(c) = self.files.get(&shown(&q.path)) {
                disk.insert(q.path.copy(), c.as_bytes().to_vec());
            }
            canon.insert(q.path.copy(), Canon::Real(path(&format!("/r/{}", shown(&q.path)))));
        }
        Plan::build(path("/r"), form, reqs, &disk, &canon, Ok("4c806cbf".repeat(8)), 1)
    }

    fn edit(&self, file: &str, old: &str, new: &str) -> VcResult<Plan> {
        let cmd =
            PlanCmd::Edit { path: path(file), old: old.to_string(), new: new.to_string() };
        match cmd_plan(cmd)? {
            PlanStep::Resolve(form, reqs) => self.resolve(form, &reqs),
            other => panic!("{:?}", other),
        }
    }

    fn refresh(&self, plan: Plan) -> VcResult<Plan> {
        match cmd_plan(PlanCmd::Refresh(plan))? {
            PlanStep::Resolve(form, reqs) => self.resolve(form, &reqs),
            PlanStep::Match(order) => self.plan(order.expect),
        }
    }

    fn drift(&self, p: &Plan) -> VcResult<()> {
        let mut given = Given::Nothing;
        loop {
            given = match check_scope_drift(p, "c3bbc99e", &given)? {
                Need::Nothing => return Ok(()),
                Need::Walk => Given::Walked(self.walked()),
                Need::Hash(files) => Given::Hashed(
                    files
                        .iter()
                        .map(|f| Suspect { path: f.copy(), hash: self.hash(f) })
                        .collect(),
                ),
                Need::Match(files) => {
                    let (sites, warnings) = self.matched(&files);
                    Given::Matched(sites, warnings)
                },
            };
        }
    }

    fn hash(&self, f: &TreePath) -> HashRead {
        if self.unreadable.contains(&shown(f)) {
            return HashRead::Failed("Permission denied (os error 13)".to_string());
        }
        match self.files.get(&shown(f)) {
            Some(c) => HashRead::Digest(bytes_hash(c.as_bytes())),
            None => HashRead::Missing,
        }
    }

    fn apply(&mut self, p: &Plan) -> VcResult<usize> {
        self.drift(p)?;
        let seen: Vec<Sighting> = p
            .files
            .entries
            .iter()
            .map(|e| Sighting::Present {
                parent: path("/r"),
                hash: Ok(bytes_hash(self.files[&shown(&e.0)].as_bytes())),
            })
            .collect();
        let reads: Vec<FileRead> = group_edits_by_file(p)
            .entries
            .iter()
            .map(|e| FileRead::Bytes(self.files[&shown(&e.0)].as_bytes().to_vec()))
            .collect();
        let changes = apply_plan(p, "c3bbc99e", &vec![], &seen, &reads)?;
        for c in &changes {
            self.set(&shown(&c.path), std::str::from_utf8(&c.post).unwrap());
        }
        Ok(changes.len())
    }
}

const CALLS: &str = "fn main() { fetch_config(a); }\n";

#[test]
fn a_new_match_outside_the_named_set_refuses_scope_drift_exit_4() {
    let mut t = Workdir::new(&[("a.rs", CALLS), ("b.rs", "fn other() {}\n")]);
    let p = t.plan(None).unwrap();
    assert_eq!(p.edits.len(), 1);
    assert_eq!(p.files.entries.len(), 1);
    t.set("b.rs", "fn other() { fetch_config(x); }\n");
    let e = t.apply(&p).unwrap_err();
    assert_eq!(e.exit_code(), 4);
    assert_eq!(
        e.to_string(),
        "scope-drift: b.rs gained a match since plan (1 new site(s)) — next: vc plan refresh c3bbc99e"
    );
    assert_eq!(t.files["a.rs"], CALLS);
}

#[test]
fn unrelated_change_outside_named_set_does_not_refuse() {
    let mut t = Workdir::new(&[("a.rs", CALLS), ("b.rs", "fn other() {}\n")]);
    let p = t.plan(None).unwrap();
    t.set("b.rs", "fn other() { println!(\"hi\"); }\n");
    t.apply(&p).unwrap();
    assert_eq!(t.files["a.rs"], "fn main() { load_config(a); }\n");
}

#[test]
fn change_to_a_named_file_is_stale_not_drift() {
    let mut t = Workdir::new(&[("a.rs", CALLS)]);
    let p = t.plan(None).unwrap();
    t.set("a.rs", "fn main() { fetch_config(a); }\n// drifted\n");
    let e = t.apply(&p).unwrap_err();
    assert_eq!(e.exit_code(), 3);
    assert!(e.to_string().starts_with("stale:"));
}

#[test]
fn new_file_that_matches_is_drift() {
    let mut t = Workdir::new(&[("a.rs", CALLS)]);
    let p = t.plan(None).unwrap();
    t.set("c.rs", "fn c() { fetch_config(z); }\n");
    let e = t.apply(&p).unwrap_err();
    assert_eq!(e.exit_code(), 4);
    assert!(e.to_string().contains("scope-drift: c.rs"));
}

#[test]
fn candidate_file_that_fails_to_parse_is_drift() {
    let mut t = Workdir::new(&[("a.rs", CALLS), ("b.rs", "fn other() {}\n")]);
    let p = t.plan(None).unwrap();
    t.set("b.rs", "fn broken( { fetch_config(a) ]]]\n");
    let e = t.apply(&p).unwrap_err();
    assert_eq!(e.exit_code(), 4);
    assert_eq!(
        e.message,
        "b.rs: source did not parse — could not be verified against the selector since plan"
    );
}

#[test]
fn after_refresh_the_refreshed_plan_applies_cleanly() {
    let mut t = Workdir::new(&[("a.rs", CALLS), ("b.rs", "fn other() {}\n")]);
    let p = t.plan(None).unwrap();
    t.set("b.rs", "fn other() { fetch_config(x); }\n");
    assert_eq!(t.apply(&p).unwrap_err().exit_code(), 4);
    let order = match cmd_plan(PlanCmd::Refresh(p)).unwrap() {
        PlanStep::Match(order) => order,
        other => panic!("{:?}", other),
    };
    assert_eq!(order.pattern, "fetch_config($$$A)");
    assert_eq!((order.lang.as_deref(), order.expect), (Some("rust"), None));
    let again = t.plan(order.expect).unwrap();
    assert_eq!(again.edits.len(), 2);
    t.apply(&again).unwrap();
    assert_eq!(t.files["a.rs"], "fn main() { load_config(a); }\n");
    assert_eq!(t.files["b.rs"], "fn other() { load_config(x); }\n");
}

#[test]
fn unreadable_candidate_fails_closed_scope_drift_exit_4() {
    let mut t = Workdir::new(&[("a.rs", CALLS), ("b.rs", "fn other() {}\n")]);
    let p = t.plan(None).unwrap();
    t.unreadable.push("b.rs".to_string());
    let e = t.apply(&p).unwrap_err();
    assert_eq!(e.exit_code(), 4);
    assert!(e.to_string().contains("b.rs: Permission denied"));
}

#[test]
fn deleted_candidate_is_benign_apply_still_succeeds() {
    let mut t = Workdir::new(&[("a.rs", CALLS), ("b.rs", "fn other() {}\n")]);
    let p = t.plan(None).unwrap();
    t.files.remove("b.rs");
    t.apply(&p).unwrap();
    assert_eq!(t.files["a.rs"], "fn main() { load_config(a); }\n");
    let gone = Given::Hashed(vec![Suspect { path: path("b.rs"), hash: HashRead::Missing }]);
    assert!(matches!(check_scope_drift(&p, "x", &gone), Ok(Need::Nothing)));
}

#[test]
fn multi_file_drift_attributes_site_count_per_file() {
    let mut t = Workdir::new(&[("a.rs", CALLS), ("b.rs", "fn other() {}\n"), ("c.rs", "fn third() {}\n")]);
    let p = t.plan(None).unwrap();
    t.set("b.rs", "fn other() { fetch_config(x); }\n");
    t.set("c.rs", "fn third() { fetch_config(y); fetch_config(z); }\n");
    let e = t.apply(&p).unwrap_err();
    assert_eq!(
        e.message,
        "b.rs gained a match since plan (1 new site(s)) (+1 more file(s))"
    );
}

#[test]
fn match_form_plan_stripped_of_selector_and_certificate_refuses() {
    let mut t = Workdir::new(&[("a.rs", CALLS)]);
    let mut p = t.plan(None).unwrap();
    p.selector = None;
    p.certificate = None;
    let e = t.apply(&p).unwrap_err();
    assert_eq!(e.kind, ErrorKind::Malformed);
    assert_eq!(
        e.to_string(),
        "malformed: plan c3bbc99e: match-form plan has no selector or certificate — next: vc show c3bbc99e"
    );
    assert_eq!(t.files["a.rs"], CALLS);
}

#[test]
fn edit_form_plan_skips_the_drift_check_entirely() {
    let mut t = Workdir::new(&[("a.rs", "fn old_name() {}\n")]);
    let p = t.edit("a.rs", "old_name", "new_name").unwrap();
    t.set("b.rs", "fn other() {}\n");
    assert!(matches!(check_scope_drift(&p, "x", &Given::Nothing), Ok(Need::Nothing)));
    t.apply(&p).unwrap();
    assert_eq!(t.files["a.rs"], "fn new_name() {}\n");
}

#[test]
fn plan_match_reports_true_site_count() {
    let mut t = Workdir::new(&[
        ("a.rs", "fn main() { fetch_config(a); fetch_config(b); }\n"),
        ("b.rs", "fn other() { fetch_config(c); }\n"),
    ]);
    let sha8 = t.store(t.plan(None)).unwrap();
    assert_eq!(sha8.len(), 8);
    let out = plan_outcome(&t.stored[0], &sha8);
    assert_eq!(
        out.human,
        format!("plan {0} — 3 sites, 2 files @ epoch 4c806cbf   (preview: vc show {0})\n", sha8)
    );
    assert_eq!(number_at(&out.json, "sites"), 3);
    assert_eq!(number_at(&out.json, "files"), 2);
    assert_eq!(text_at(&out.json, "sha8"), sha8);
    assert_eq!((out.files, out.edits), (2, 3));
    assert_eq!(t.stored.len(), 1);
}

#[test]
fn expect_mismatch_exits_2_and_stores_nothing() {
    let mut t = Workdir::new(&[("a.rs", CALLS)]);
    let before = t.stored.len();
    let e = t.store(t.plan(Some(99))).unwrap_err();
    assert_eq!(e.exit_code(), 2);
    let v = error_json(&e);
    assert_eq!(text_at(v.get("error").unwrap(), "kind"), "usage");
    let message = text_at(v.get("error").unwrap(), "message");
    assert!(message.contains("expected 99 sites, found 1"), "{}", message);
    assert!(message.contains("plan not stored"), "{}", message);
    assert_eq!(t.stored.len(), before);
    t.store(t.plan(Some(1))).unwrap();
    assert_eq!(t.stored.len(), before + 1);
}

#[test]
fn vc_show_previews_the_rewrite() {
    let t = Workdir::new(&[("a.rs", CALLS)]);
    let text = show_outcome(&t.plan(None).unwrap(), "c3bbc99e").human;
    assert!(text.contains("-fetch_config(a)"), "{}", text);
    assert!(text.contains("+load_config(a)"), "{}", text);
    assert_eq!(text, "--- a.rs @ 12..27\n-fetch_config(a)\n+load_config(a)\n");
}

#[test]
fn refresh_of_match_plan_after_change_produces_new_sha8_with_current_content() {
    let mut t = Workdir::new(&[("a.rs", CALLS)]);
    let p = t.plan(None).unwrap();
    assert_eq!(p.edits.len(), 1);
    t.set("a.rs", "fn main() { fetch_config(a); fetch_config(b); }\n");
    let q = t.refresh(p.clone()).unwrap();
    assert_ne!(sha8(&q), sha8(&p));
    assert_eq!(q.edits.len(), 2);
    t.apply(&q).unwrap();
    assert_eq!(t.files["a.rs"], "fn main() { load_config(a); load_config(b); }\n");
}

const BROKEN: &str = "fn broken( { fetch_config(a) ]]]\n";

#[test]
fn match_plan_with_skipped_file_stores_warning_and_show_prints_it() {
    let t = Workdir::new(&[("good.rs", CALLS), ("bad.rs", BROKEN)]);
    let p = t.plan(None).unwrap();
    assert_eq!(p.warnings, vec!["bad.rs: source did not parse"]);
    let told = emit(true, Ok(plan_outcome(&p, "x"))).stderr.unwrap();
    assert!(told.contains("warning:") && told.contains("bad.rs"), "{}", told);
    let out = show_outcome(&p, "x");
    assert!(out.human.contains("warning: bad.rs"), "{}", out.human);
    assert!(out.human.ends_with("did not parse\n"), "{}", out.human);
    assert_eq!(out.warning, None);
}

#[test]
fn show_json_omits_warnings_key_when_plan_has_none() {
    let t = Workdir::new(&[("a.rs", CALLS)]);
    let out = show_outcome(&t.plan(None).unwrap(), "x");
    assert_eq!(keys(&out.json), vec!["preview", "sha8"]);
}

#[test]
fn show_json_includes_warnings_key_when_plan_has_some() {
    let t = Workdir::new(&[("good.rs", CALLS), ("bad.rs", BROKEN)]);
    let out = show_outcome(&t.plan(None).unwrap(), "x");
    assert_eq!(keys(&out.json), vec!["preview", "sha8", "warnings"]);
    let warnings = list_at(&out.json, "warnings");
    assert_eq!(warnings.len(), 1);
    assert!(matches!(&warnings[0], Json::Text(w) if w.contains("bad.rs")));
}

#[test]
fn refresh_of_edit_plan_still_works() {
    let mut t = Workdir::new(&[("a.rs", "fn old_name() {}\n")]);
    let p = t.edit("a.rs", "old_name", "new_name").unwrap();
    t.set("a.rs", "fn old_name() {}\n// drifted\n");
    assert_eq!(t.apply(&p).unwrap_err().exit_code(), 3);
    let q = t.refresh(p.clone()).unwrap();
    assert_ne!(sha8(&q), sha8(&p));
    t.apply(&q).unwrap();
    assert_eq!(t.files["a.rs"], "fn new_name() {}\n// drifted\n");
}

#[test]
fn a_refresh_keeps_the_line_hint_of_an_imported_edit() {
    let mut disk = OrdMap::new();
    disk.insert(path("a.rs"), b"x\ny\nx\n".to_vec());
    let reqs = vec![EditRequest {
        path: path("a.rs"),
        old: b"x".to_vec(),
        new: b"z".to_vec(),
        line_hint: Some(3),
    }];
    let edits = resolve_edits(&disk, &reqs).unwrap();
    let again = refresh_requests(&edits).unwrap();
    assert_eq!((again[0].old.as_slice(), again[0].line_hint), (&b"x"[..], Some(3)));
    let same = resolve_edits(&disk, &again).unwrap();
    assert_eq!((same[0].start, same[0].end), (edits[0].start, edits[0].end));
}

#[test]
fn json_error_shape_on_stale_apply() {
    let mut t = Workdir::new(&[("a.rs", "fn old_name() {}\n")]);
    let p = t.edit("a.rs", "old_name", "new_name").unwrap();
    t.set("a.rs", "fn old_name() { /* drifted */ }\n");
    let e = emit(true, Err(t.apply(&p).unwrap_err()));
    assert_eq!(e.code, 3);
    assert_eq!(e.stderr, None);
    match &e.stdout {
        Printed::Value(v) => {
            assert_eq!(text_at(v.get("error").unwrap(), "kind"), "stale");
            assert!(!text_at(v.get("error").unwrap(), "message").is_empty());
        },
        other => panic!("{:?}", other),
    }
}

#[test]
fn stale_apply_hint_names_plan_refresh_which_recovers() {
    let mut t = Workdir::new(&[("a.rs", "fn old_name() {}\n")]);
    let p = t.edit("a.rs", "old_name", "new_name").unwrap();
    t.set("a.rs", "fn old_name() {}\n// drifted\n");
    let e = t.apply(&p).unwrap_err();
    assert_eq!(e.exit_code(), 3);
    assert_eq!(e.kind, ErrorKind::Stale);
    assert_eq!(e.next.as_deref(), Some("vc plan refresh c3bbc99e"));
    let q = t.refresh(p.clone()).unwrap();
    assert_ne!(sha8(&q), sha8(&p));
    t.apply(&q).unwrap();
    assert_eq!(t.files["a.rs"], "fn new_name() {}\n// drifted\n");
}

#[test]
fn a_plan_command_says_how_it_is_planned() {
    let cmd = PlanCmd::Edit {
        path: path("a.rs"),
        old: "é".to_string(),
        new: String::new(),
    };
    match cmd_plan(cmd).unwrap() {
        PlanStep::Resolve(form, reqs) => {
            assert_eq!(form, PlanForm::Edit);
            assert_eq!(reqs.len(), 1);
            assert_eq!(reqs[0].old, "é".as_bytes());
            assert_eq!((reqs[0].new.len(), reqs[0].line_hint), (0, None));
        },
        other => panic!("{:?}", other),
    }
    let order = MatchOrder {
        scope: vec![],
        lang: None,
        pattern: "p".to_string(),
        rewrite: "r".to_string(),
        expect: Some(2),
    };
    assert!(matches!(cmd_plan(PlanCmd::Match(order)), Ok(PlanStep::Match(o)) if o.expect == Some(2)));
    assert!(matches!(
        cmd_plan(PlanCmd::Import(vec![])),
        Ok(PlanStep::Resolve(PlanForm::Import, reqs)) if reqs.is_empty()
    ));
}

#[test]
fn certificate_baselines_the_match_pass_read_not_a_later_one() {
    let before = "fn other() {}\n";
    let after = "fn other() { changed_between_the_two_reads(); }\n";
    let mut t = Workdir::new(&[("a.rs", CALLS), ("b.rs", before)]);
    t.late.insert("b.rs".to_string(), after.to_string());
    let p = t.plan(None).unwrap();
    assert_eq!(p.edits.len(), 1, "only a.rs matches");
    assert!(p.warnings.is_empty());
    let cert = p.certificate.unwrap();
    assert_eq!(cert.scope_files.get(&path("b.rs")), Some(&bytes_hash(before.as_bytes())));
    assert_ne!(cert.scope_files.get(&path("b.rs")), Some(&bytes_hash(after.as_bytes())));
}

#[test]
fn unmatched_scope_file_is_covered_by_the_certificate() {
    let t = Workdir::new(&[("a.rs", CALLS), ("b.rs", "fn other() {}\n")]);
    let p = t.plan(None).unwrap();
    assert!(p.certificate.unwrap().scope_files.contains_key(&path("b.rs")));
    assert!(!p.files.contains_key(&path("b.rs")));
}
