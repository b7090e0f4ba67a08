use velocity_code::outline::{build_forest, outline, render_line};
use velocity_code::symbols::{
    collapse_whitespace, extract_from, symbol_kind, symbol_kind_label, symbols, text_range,
    NodeFacts, Symbol, SymbolKind, SynNode,
};
use velocity_code::ErrorKind;

const SAMPLE: &str = "\n/// doc\npub struct Plan { pub version: u32 }\n\nimpl Plan {\n    pub fn id(&self) -> String { String::new() }\n}\n\nfn free() {}\n";

#[test]
fn extracts_functions_methods_structs_and_impls_with_lines() {
    let syms = symbols(SAMPLE, "rust").unwrap();
    let find = |n: &str| syms.iter().find(|s| s.name == n).unwrap();
    assert_eq!(find("Plan").kind, SymbolKind::Struct);
    assert_eq!(find("id").kind, SymbolKind::Method);
    assert_eq!(find("free").kind, SymbolKind::Function);
    assert!(find("id").signature.contains("pub fn id(&self) -> String"));
    assert!(find("id").start_line <= find("id").end_line);
    assert!(syms.iter().all(|s| !s.syntax_inferred));
    assert_eq!((find("free").start_line, find("free").end_line), (9, 9));
}

#[test]
fn broken_region_does_not_kill_other_symbols() {
    let src = "fn ok() {}\nfn broken( {\nfn after() {}\n";
    let syms = symbols(src, "rust").unwrap();
    assert!(syms.iter().any(|s| s.name == "ok"));
}

#[test]
fn unknown_language_yields_empty() {
    assert!(symbols("x", "").unwrap().is_empty());
}

#[test]
fn prose_is_refused_and_a_blank_source_is_not() {
    let e = symbols("this is not rust code at all, just prose.", "rust").unwrap_err();
    assert_eq!(e.to_string(), "malformed: rust: source did not parse");
    assert!(symbols("  \n\n", "rust").unwrap().is_empty());
}

#[test]
fn every_kind_of_item_is_a_symbol() {
    let src = "mod m { const C: u8 = 1; static S: u8 = 2; }\nenum E { A }\ntrait T { type X; }\ntype A = u8;\nimpl T for E { type X = u8; }\n";
    let got: Vec<(String, SymbolKind)> =
        symbols(src, "rust").unwrap().iter().map(|s| (s.name.clone(), s.kind)).collect();
    for want in [
        ("m", SymbolKind::Module),
        ("C", SymbolKind::Const),
        ("S", SymbolKind::Static),
        ("E", SymbolKind::Enum),
        ("T", SymbolKind::Trait),
        ("A", SymbolKind::TypeAlias),
    ] {
        assert!(got.contains(&(want.0.to_string(), want.1)), "{:?} in {:?}", want, got);
    }
    assert!(got.iter().any(|(_, k)| *k == SymbolKind::Impl));
}

#[test]
fn skeleton_shape_preserves_line_numbers_and_nests_impl_methods() {
    let (text, elided) = outline(SAMPLE, "rust", None).unwrap();
    assert_eq!(elided, 0);
    assert_eq!(
        text,
        "3: pub struct Plan { … 1 lines }\n\
         5: impl Plan { … 3 lines }\n\
         \x20 6: pub fn id(&self) -> String { … 1 lines }\n\
         9: fn free() { … 1 lines }"
    );
}

#[test]
fn bodyless_trait_method_renders_bare_default_bodied_gets_brace_suffix() {
    let src = "\ntrait Greeter {\n    fn name(&self) -> String;\n    fn greet(&self) -> String { format!(\"hi {}\", self.name()) }\n}\n";
    let (text, elided) = outline(src, "rust", None).unwrap();
    assert_eq!(elided, 0);
    assert_eq!(
        text,
        "2: trait Greeter { … 4 lines }\n\
         \x20 3: fn name(&self) -> String;\n\
         \x20 4: fn greet(&self) -> String { … 1 lines }"
    );
}

#[test]
fn budget_elides_the_nested_method_before_any_top_level_symbol() {
    let (full, elided_full) = outline(SAMPLE, "rust", None).unwrap();
    assert_eq!(elided_full, 0);
    let without_method = "3: pub struct Plan { … 1 lines }\n\
         5: impl Plan { … 3 lines }\n\
         9: fn free() { … 1 lines }";
    assert!(full.contains("pub fn id"));
    let budget = without_method.len().div_ceil(4);
    let (budgeted, elided) = outline(SAMPLE, "rust", Some(budget)).unwrap();
    assert_eq!(elided, 1);
    assert_eq!(budgeted, without_method);
    assert!(!budgeted.contains("pub fn id"));
}

#[test]
fn unsupported_language_is_a_usage_refusal_pointing_at_read() {
    let err = outline("x = 1", "python", None).unwrap_err();
    assert_eq!(err.kind, ErrorKind::Usage);
    assert_eq!(
        err.message,
        "outline: unsupported language — vc read the file instead"
    );
}

#[test]
fn symbol_kind_labels_are_stable_lowercase_names() {
    for (kind, label) in [
        (SymbolKind::Function, "function"),
        (SymbolKind::Method, "method"),
        (SymbolKind::Struct, "struct"),
        (SymbolKind::Enum, "enum"),
        (SymbolKind::Trait, "trait"),
        (SymbolKind::Impl, "impl"),
        (SymbolKind::Const, "const"),
        (SymbolKind::Static, "static"),
        (SymbolKind::Module, "module"),
        (SymbolKind::TypeAlias, "typealias"),
    ] {
        assert_eq!(symbol_kind_label(&kind), label, "for {:?}", kind);
    }
}

#[test]
fn an_outline_with_no_room_drops_everything_and_counts_it() {
    let (text, elided) = outline(SAMPLE, "rust", Some(0)).unwrap();
    assert_eq!(text, "");
    assert_eq!(elided, 4);
}

fn sym(start: usize, end: usize) -> Symbol {
    Symbol {
        name: "n".to_string(),
        kind: SymbolKind::Function,
        start_line: start,
        end_line: end,
        signature: "fn n()".to_string(),
        syntax_inferred: false,
    }
}

#[test]
fn nesting_follows_line_spans() {
    let syms = vec![sym(1, 10), sym(2, 5), sym(3, 4), sym(6, 9), sym(11, 12)];
    assert_eq!(build_forest(&syms), vec![0, 1, 2, 1, 0]);
    assert_eq!(render_line(&sym(2, 5), 1), "  2: fn n() { … 4 lines }");
}

#[test]
fn texts_of_nodes_are_cut_and_squeezed() {
    assert_eq!(collapse_whitespace("  pub   fn\n\t x ( )  "), "pub fn x ( )");
    assert_eq!(text_range(b"hello world", 6, 11), "world");
    assert_eq!(symbol_kind("function_item", true), Some(SymbolKind::Method));
    assert_eq!(symbol_kind("function_item", false), Some(SymbolKind::Function));
    assert_eq!(symbol_kind("line_comment", false), None);
}

#[test]
fn symbols_follow_from_a_given_tree() {
    let src = "fn a() {}";
    let leaf = |kind: &str, named: bool| NodeFacts {
        kind: kind.to_string(),
        named,
        has_error: false,
        span: (0, 9),
        start_row: 0,
        end_row: 0,
        name_field: None,
        type_field: None,
        trait_field: None,
        body_field: None,
    };
    let mut item = leaf("function_item", true);
    item.name_field = Some((3, 4));
    item.body_field = Some((7, 9));
    let tree = SynNode {
        facts: leaf("source_file", true),
        children: vec![SynNode { facts: item, children: vec![] }],
    };
    let found = extract_from(src, &Some(tree)).unwrap();
    assert_eq!(found.len(), 1);
    assert_eq!(found[0].name, "a");
    assert_eq!(found[0].signature, "fn a()");
    assert_eq!(found[0].start_line, 1);
    assert_eq!(extract_from(src, &None).unwrap_err().kind, ErrorKind::Malformed);
}

#[test]
fn an_impl_is_named_by_its_trait_and_its_type() {
    let src = "struct S;\ntrait T { fn go(&self); }\nimpl T for S {\n    fn go(&self) {}\n}\nimpl S {}\n";
    let syms = symbols(src, "rust").unwrap();
    let impls: Vec<(&str, &str)> = syms
        .iter()
        .filter(|s| s.kind == SymbolKind::Impl)
        .map(|s| (s.name.as_str(), s.signature.as_str()))
        .collect();
    assert_eq!(impls, vec![("T for S", "impl T for S"), ("S", "impl S")]);
}
