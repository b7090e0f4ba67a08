//! Symbols of a source file, read off its syntax tree.

use crate::errors::{refusal, ErrorKind, ErrorView, VcError, VcResult};
use crate::order::views;
use crate::text::{
    char_is_white, chars_of, is_white, law_trimming_takes_white_space_off_both_ends, same_text,
    slice_copy, trim, trimmed, utf8_text,
};
use vstd::prelude::*;
use vstd::string::*;
use vstd::utf8::*;

verus! {

/// A byte range.
pub type Span = (usize, usize);

/// What a syntax node is: its kind, where it stands, and where its named fields stand.
pub struct NodeFacts {
    pub kind: String,
    pub named: bool,
    /// Whether there is a syntax error in the node.
    pub has_error: bool,
    pub span: Span,
    pub start_row: usize,
    pub end_row: usize,
    pub name_field: Option<Span>,
    pub type_field: Option<Span>,
    pub trait_field: Option<Span>,
    pub body_field: Option<Span>,
}

/// What [`NodeFacts`] say.
pub struct FactsOfNode {
    pub kind: Seq<char>,
    pub named: bool,
    pub has_error: bool,
    pub span: Span,
    pub start_row: usize,
    pub end_row: usize,
    pub name_field: Option<Span>,
    pub type_field: Option<Span>,
    pub trait_field: Option<Span>,
    pub body_field: Option<Span>,
}

impl View for NodeFacts {
    type V = FactsOfNode;

    open spec fn view(&self) -> FactsOfNode {
        FactsOfNode {
            kind: self.kind@,
            named: self.named,
            has_error: self.has_error,
            span: self.span,
            start_row: self.start_row,
            end_row: self.end_row,
            name_field: self.name_field,
            type_field: self.type_field,
            trait_field: self.trait_field,
            body_field: self.body_field,
        }
    }
}

/// A syntax tree: what its root is, and the subtrees.
pub struct SyntaxTree {
    pub facts: FactsOfNode,
    pub children: Seq<SyntaxTree>,
}

/// A syntax tree as plain values.
pub struct SynNode {
    pub facts: NodeFacts,
    pub children: Vec<SynNode>,
}

impl SynNode {
    /// The tree that it stands for.
    pub open spec fn tree(&self) -> SyntaxTree
        decreases self, self.children@.len() + 1,
    {
        SyntaxTree { facts: self.facts@, children: self.subtrees(self.children@.len()) }
    }

    /// The trees that its first `n` children stand for.
    pub open spec fn subtrees(&self, n: nat) -> Seq<SyntaxTree>
        decreases self, n,
    {
        if n == 0 || n > self.children@.len() {
            seq![]
        } else {
            self.subtrees((n - 1) as nat).push(self.children@[n - 1].tree())
        }
    }
}

/// The subtrees stand in the order of the children.
proof fn lemma_subtrees(node: SynNode, n: nat)
    requires
        n <= node.children@.len(),
    ensures
        node.subtrees(n).len() == n,
        forall|i: int| 0 <= i < n ==> #[trigger] node.subtrees(n)[i] == node.children@[i].tree(),
    decreases n,
{
    if n > 0 {
        lemma_subtrees(node, (n - 1) as nat);
    }
}

/// A place in a syntax tree: the subtree there, and the way up. Each step up is a subtree
/// and which of its children was taken.
pub struct TreePlace {
    pub here: SyntaxTree,
    pub above: Seq<(SyntaxTree, int)>,
}

/// The syntax tree of a Rust source; none when the parser gives up.
pub uninterp spec fn rust_tree(src: Seq<char>) -> Option<SyntaxTree>;

/// The tree that a parsed tree holds.
pub uninterp spec fn held_tree(t: tree_sitter::Tree) -> SyntaxTree;

/// The place that a cursor stands at.
pub uninterp spec fn cursor_place(c: tree_sitter::TreeCursor<'_>) -> TreePlace;

/// A parsed tree of the `tree-sitter` crate.
#[verifier::external_type_specification]
#[verifier::external_body]
pub struct ExTree(tree_sitter::Tree);

/// A cursor over a parsed tree of the `tree-sitter` crate.
#[verifier::external_type_specification]
#[verifier::external_body]
pub struct ExTreeCursor<'a>(tree_sitter::TreeCursor<'a>);

/// A tree that was made, as the result of a parse.
pub open spec fn made(t: SyntaxTree) -> Option<SyntaxTree> {
    Some(t)
}

/// `Parser::parse` of tree-sitter with the Rust grammar: the tree is a function of the
/// source.
#[verifier::external_body]
fn parse_rust(src: &str) -> (tree: Option<tree_sitter::Tree>)
    ensures
        match tree {
            Some(t) => rust_tree(src@) == made(held_tree(t)),
            None => rust_tree(src@) is None,
        },
{
    let mut parser = tree_sitter::Parser::new();
    parser
        .set_language(&tree_sitter_rust::LANGUAGE.into())
        .expect("tree-sitter-rust grammar failed to load");
    parser.parse(src, None)
}

/// `Tree::walk`: a cursor at the root of the tree.
#[verifier::external_body]
fn tree_walk<'a>(tree: &'a tree_sitter::Tree) -> (c: tree_sitter::TreeCursor<'a>)
    ensures
        cursor_place(c).here == held_tree(*tree),
        cursor_place(c).above.len() == 0,
{
    tree.walk()
}

/// The place of the first child.
pub open spec fn first_child(p: TreePlace) -> TreePlace {
    TreePlace { here: p.here.children[0], above: p.above.push((p.here, 0)) }
}

/// Whether there is a sibling behind the place.
pub open spec fn has_next(p: TreePlace) -> bool {
    p.above.len() > 0 && p.above.last().1 + 1 < p.above.last().0.children.len()
}

/// The place of the next sibling.
pub open spec fn next_sibling(p: TreePlace) -> TreePlace {
    let (parent, i) = p.above.last();
    TreePlace { here: parent.children[i + 1], above: p.above.drop_last().push((parent, i + 1)) }
}

/// The place of the parent.
pub open spec fn parent_of(p: TreePlace) -> TreePlace {
    TreePlace { here: p.above.last().0, above: p.above.drop_last() }
}

/// `TreeCursor::goto_first_child`: moves to the first child and says whether there is one.
#[verifier::external_body]
fn to_first_child(c: &mut tree_sitter::TreeCursor<'_>) -> (moved: bool)
    ensures
        moved == (cursor_place(*old(c)).here.children.len() > 0),
        moved ==> cursor_place(*final(c)) == first_child(cursor_place(*old(c))),
        !moved ==> cursor_place(*final(c)) == cursor_place(*old(c)),
{
    c.goto_first_child()
}

/// `TreeCursor::goto_next_sibling`: moves to the next sibling and says whether there is one.
#[verifier::external_body]
fn to_next_sibling(c: &mut tree_sitter::TreeCursor<'_>) -> (moved: bool)
    ensures
        moved == has_next(cursor_place(*old(c))),
        moved ==> cursor_place(*final(c)) == next_sibling(cursor_place(*old(c))),
        !moved ==> cursor_place(*final(c)) == cursor_place(*old(c)),
{
    c.goto_next_sibling()
}

/// `TreeCursor::goto_parent`: moves to the parent, except from where the cursor started.
#[verifier::external_body]
fn to_parent(c: &mut tree_sitter::TreeCursor<'_>) -> (moved: bool)
    ensures
        moved == (cursor_place(*old(c)).above.len() > 0),
        moved ==> cursor_place(*final(c)) == parent_of(cursor_place(*old(c))),
        !moved ==> cursor_place(*final(c)) == cursor_place(*old(c)),
{
    c.goto_parent()
}

/// What a syntax node is, but for its fields.
pub struct NodeHead {
    pub kind: String,
    pub named: bool,
    pub has_error: bool,
    pub span: Span,
    pub start_row: usize,
    pub end_row: usize,
}

/// `TreeCursor::node` and the accessors of `Node`: what the node at the cursor is, but for its
/// fields.
#[verifier::external_body]
fn node_head(c: &tree_sitter::TreeCursor<'_>) -> (head: NodeHead)
    ensures
        head.kind@ == cursor_place(*c).here.facts.kind,
        head.named == cursor_place(*c).here.facts.named,
        head.has_error == cursor_place(*c).here.facts.has_error,
        head.span == cursor_place(*c).here.facts.span,
        head.start_row == cursor_place(*c).here.facts.start_row,
        head.end_row == cursor_place(*c).here.facts.end_row,
{
    let n = c.node();
    NodeHead {
        kind: n.kind().to_string(),
        named: n.is_named(),
        has_error: n.has_error(),
        span: (n.start_byte(), n.end_byte()),
        start_row: n.start_position().row,
        end_row: n.end_position().row,
    }
}

/// Whether symbols are read from the grammar's field of this name.
pub open spec fn is_read_field(field: Seq<char>) -> bool {
    field == "name"@ || field == "type"@ || field == "trait"@ || field == "body"@
}

/// Where the grammar's field of this name stands in a node, for the fields that are read.
pub open spec fn field_span(n: FactsOfNode, field: Seq<char>) -> Option<Span> {
    if field == "name"@ {
        n.name_field
    } else if field == "type"@ {
        n.type_field
    } else if field == "trait"@ {
        n.trait_field
    } else {
        n.body_field
    }
}

/// `Node::child_by_field_name` at the cursor's node: where the child in the field of this name
/// stands, if there is one.
#[verifier::external_body]
fn node_field(c: &tree_sitter::TreeCursor<'_>, field: &str) -> (span: Option<Span>)
    requires
        is_read_field(field@),
    ensures
        span == field_span(cursor_place(*c).here.facts, field@),
{
    c.node().child_by_field_name(field).map(|x| (x.start_byte(), x.end_byte()))
}

/// What the node at the cursor is.
fn node_facts(c: &tree_sitter::TreeCursor<'_>) -> (facts: NodeFacts)
    ensures
        facts@ == cursor_place(*c).here.facts,
{
    proof {
        reveal_strlit("name");
        reveal_strlit("type");
        reveal_strlit("trait");
        reveal_strlit("body");
        assert("name"@[0] != "type"@[0]);
        assert("trait"@.len() != "type"@.len());
        assert("trait"@.len() != "name"@.len());
        assert("body"@[0] != "name"@[0]);
        assert("body"@[0] != "type"@[0]);
        assert("body"@.len() != "trait"@.len());
    }
    let head = node_head(c);
    NodeFacts {
        kind: head.kind,
        named: head.named,
        has_error: head.has_error,
        span: head.span,
        start_row: head.start_row,
        end_row: head.end_row,
        name_field: node_field(c, "name"),
        type_field: node_field(c, "type"),
        trait_field: node_field(c, "trait"),
        body_field: node_field(c, "body"),
    }
}

/// What a symbol is.
#[derive(Debug, Clone, Copy, PartialEq, Eq, Structural)]
pub enum SymbolKind {
    Function,
    Method,
    Struct,
    Enum,
    Trait,
    Impl,
    Const,
    Static,
    Module,
    TypeAlias,
}

/// A named item of a source file.
#[derive(Debug, Clone)]
pub struct Symbol {
    pub name: String,
    pub kind: SymbolKind,
    /// 1-based, inclusive.
    pub start_line: usize,
    /// 1-based, inclusive.
    pub end_line: usize,
    /// The header up to the body, on one line.
    pub signature: String,
    /// Whether the symbol was guessed rather than parsed.
    pub syntax_inferred: bool,
}

/// What a [`Symbol`] says.
pub struct SymbolView {
    pub name: Seq<char>,
    pub kind: SymbolKind,
    pub start_line: usize,
    pub end_line: usize,
    pub signature: Seq<char>,
    pub syntax_inferred: bool,
}

impl View for Symbol {
    type V = SymbolView;

    open spec fn view(&self) -> SymbolView {
        SymbolView {
            name: self.name@,
            kind: self.kind,
            start_line: self.start_line,
            end_line: self.end_line,
            signature: self.signature@,
            syntax_inferred: self.syntax_inferred,
        }
    }
}

/// The kind of symbol that a node of this kind is; a function inside an `impl` is a method.
pub open spec fn kind_of_node(kind: Seq<char>, in_impl: bool) -> Option<SymbolKind> {
    if kind == "function_item"@ || kind == "function_signature_item"@ {
        if in_impl {
            Some(SymbolKind::Method)
        } else {
            Some(SymbolKind::Function)
        }
    } else if kind == "struct_item"@ {
        Some(SymbolKind::Struct)
    } else if kind == "enum_item"@ {
        Some(SymbolKind::Enum)
    } else if kind == "trait_item"@ {
        Some(SymbolKind::Trait)
    } else if kind == "impl_item"@ {
        Some(SymbolKind::Impl)
    } else if kind == "const_item"@ {
        Some(SymbolKind::Const)
    } else if kind == "static_item"@ {
        Some(SymbolKind::Static)
    } else if kind == "mod_item"@ {
        Some(SymbolKind::Module)
    } else if kind == "type_item"@ {
        Some(SymbolKind::TypeAlias)
    } else {
        None
    }
}

/// The kind of symbol that a node of this kind is.
pub fn symbol_kind(node_kind: &str, in_impl: bool) -> (kind: Option<SymbolKind>)
    ensures
        kind == kind_of_node(node_kind@, in_impl),
{
    if same_text(node_kind, "function_item") || same_text(node_kind, "function_signature_item") {
        if in_impl {
            Some(SymbolKind::Method)
        } else {
            Some(SymbolKind::Function)
        }
    } else if same_text(node_kind, "struct_item") {
        Some(SymbolKind::Struct)
    } else if same_text(node_kind, "enum_item") {
        Some(SymbolKind::Enum)
    } else if same_text(node_kind, "trait_item") {
        Some(SymbolKind::Trait)
    } else if same_text(node_kind, "impl_item") {
        Some(SymbolKind::Impl)
    } else if same_text(node_kind, "const_item") {
        Some(SymbolKind::Const)
    } else if same_text(node_kind, "static_item") {
        Some(SymbolKind::Static)
    } else if same_text(node_kind, "mod_item") {
        Some(SymbolKind::Module)
    } else if same_text(node_kind, "type_item") {
        Some(SymbolKind::TypeAlias)
    } else {
        None
    }
}

/// The text of a byte range; empty when it is not one of `src`, or cuts a character.
pub open spec fn text_in(src: Seq<u8>, start: usize, end: usize) -> Seq<char> {
    if start <= end && end <= src.len() && valid_utf8(src.subrange(start as int, end as int)) {
        decode_utf8(src.subrange(start as int, end as int))
    } else {
        seq![]
    }
}

/// The text of a byte range.
pub fn text_range(src: &[u8], start: usize, end: usize) -> (text: String)
    ensures
        text@ == text_in(src@, start, end),
{
    let none: String = String::new();
    assert(none@ =~= Seq::<char>::empty());
    if start > end || end > src.len() {
        return none;
    }
    match utf8_text(slice_copy(src, start, end)) {
        Some(t) => t,
        None => none,
    }
}

/// The first `n` characters with every run of white space made one space.
pub open spec fn squeezed(s: Seq<char>, n: nat) -> Seq<char>
    decreases n,
{
    if n == 0 {
        seq![]
    } else {
        let before = squeezed(s, (n - 1) as nat);
        if !is_white(s[n - 1]) {
            before.push(s[n - 1])
        } else if n >= 2 && is_white(s[n - 2]) {
            before
        } else {
            before.push(' ')
        }
    }
}

/// The text on one line: every run of white space one space, none at the ends.
pub open spec fn collapsed(s: Seq<char>) -> Seq<char> {
    trimmed(squeezed(s, s.len()))
}

/// The text on one line.
pub fn collapse_whitespace(s: &str) -> (out: String)
    ensures
        out@ == collapsed(s@),
{
    let chars = chars_of(s);
    let mut out: String = String::new();
    let mut prev: bool = false;
    let mut i: usize = 0;
    while i < chars.len()
        invariant
            i <= chars.len(),
            chars@ == s@,
            out@ == squeezed(chars@, i as nat),
            prev == (i >= 1 && is_white(chars@[i - 1])),
        decreases chars.len() - i,
    {
        let c = chars[i];
        if char_is_white(c) {
            if !prev {
                out.push(' ');
            }
            prev = true;
        } else {
            out.push(c);
            prev = false;
        }
        i = i + 1;
    }
    trim(out.as_str())
}

/// The text of an optional field, on one line.
pub open spec fn field_text(src: Seq<u8>, f: Option<Span>) -> Option<Seq<char>> {
    match f {
        Some((a, b)) => Some(collapsed(text_in(src, a, b))),
        None => None,
    }
}

/// The name of an item: for an `impl` the type, behind the trait when there is one; for any
/// other item its name.
pub open spec fn name_in(src: Seq<u8>, n: FactsOfNode) -> Option<Seq<char>> {
    if n.kind == "impl_item"@ {
        match (field_text(src, n.type_field), field_text(src, n.trait_field)) {
            (None, _) => None,
            (Some(ty), Some(tr)) => Some(tr + " for "@ + ty),
            (Some(ty), None) => Some(ty),
        }
    } else {
        field_text(src, n.name_field)
    }
}

/// The header of an item: from its start to its body, or all of it without one.
pub open spec fn signature_in(src: Seq<u8>, n: FactsOfNode) -> Seq<char> {
    collapsed(
        text_in(
            src,
            n.span.0,
            match n.body_field {
                Some((start, _)) => start,
                None => n.span.1,
            },
        ),
    )
}

/// The 1-based line of a row.
pub open spec fn line_of_row(row: usize) -> usize {
    if row < usize::MAX {
        (row + 1) as usize
    } else {
        usize::MAX
    }
}

/// The symbol that a node is, if it is one.
pub open spec fn symbol_at(src: Seq<u8>, n: FactsOfNode, in_impl: bool) -> Option<SymbolView> {
    match (kind_of_node(n.kind, in_impl), name_in(src, n)) {
        (Some(kind), Some(name)) => Some(
            SymbolView {
                name,
                kind,
                start_line: line_of_row(n.start_row),
                end_line: line_of_row(n.end_row),
                signature: signature_in(src, n),
                syntax_inferred: false,
            },
        ),
        _ => None,
    }
}

/// The symbols of the named children of `t` from child `i` on, each before those inside it.
pub open spec fn symbols_from(src: Seq<u8>, t: SyntaxTree, i: int, in_impl: bool) -> Seq<SymbolView>
    decreases t, t.children.len() - i,
    when 0 <= i
{
    if i >= t.children.len() {
        seq![]
    } else {
        let child = t.children[i];
        let own = if child.facts.named {
            let inner = symbols_from(
                src,
                child,
                0,
                in_impl || child.facts.kind == "impl_item"@,
            );
            match symbol_at(src, child.facts, in_impl) {
                Some(s) => seq![s] + inner,
                None => inner,
            }
        } else {
            seq![]
        };
        own + symbols_from(src, t, i + 1, in_impl)
    }
}

fn field_of(src: &[u8], f: Option<Span>) -> (text: Option<String>)
    ensures
        crate::errors::opt_text(text) == field_text(src@, f),
{
    match f {
        Some((a, b)) => Some(collapse_whitespace(text_range(src, a, b).as_str())),
        None => None,
    }
}

fn symbol_name(n: &NodeFacts, src: &[u8]) -> (name: Option<String>)
    ensures
        crate::errors::opt_text(name) == name_in(src@, n@),
{
    if same_text(n.kind.as_str(), "impl_item") {
        let ty = match field_of(src, n.type_field) {
            Some(ty) => ty,
            None => {
                return None;
            },
        };
        match field_of(src, n.trait_field) {
            Some(tr) => {
                let mut s: String = tr;
                s.append(" for ");
                s.append(ty.as_str());
                Some(s)
            },
            None => Some(ty),
        }
    } else {
        field_of(src, n.name_field)
    }
}

fn signature_of(n: &NodeFacts, src: &[u8]) -> (s: String)
    ensures
        s@ == signature_in(src@, n@),
{
    let end = match n.body_field {
        Some((start, _)) => start,
        None => n.span.1,
    };
    collapse_whitespace(text_range(src, n.span.0, end).as_str())
}

fn node_symbol(n: &NodeFacts, src: &[u8], in_impl: bool) -> (s: Option<Symbol>)
    ensures
        match s {
            Some(x) => symbol_at(src@, n@, in_impl) == Some(x@),
            None => symbol_at(src@, n@, in_impl) is None,
        },
{
    match symbol_kind(n.kind.as_str(), in_impl) {
        Some(kind) => match symbol_name(n, src) {
            Some(name) => Some(
                Symbol {
                    name,
                    kind,
                    start_line: n.start_row.saturating_add(1),
                    end_line: n.end_row.saturating_add(1),
                    signature: signature_of(n, src),
                    syntax_inferred: false,
                },
            ),
            None => None,
        },
        None => None,
    }
}

/// Reads the tree below the cursor's node, and comes back to it.
fn read_tree(c: &mut tree_sitter::TreeCursor<'_>) -> (node: SynNode)
    ensures
        cursor_place(*final(c)) == cursor_place(*old(c)),
        node.tree() == cursor_place(*old(c)).here,
    decreases cursor_place(*old(c)).here,
{
    let ghost start = cursor_place(*c);
    let ghost t = start.here;
    let facts = node_facts(c);
    let mut children: Vec<SynNode> = Vec::new();
    if to_first_child(c) {
        assert(start.above.push((t, 0)).drop_last() =~= start.above);
        let mut more: bool = true;
        while more
            invariant
                start == cursor_place(*old(c)),
                t == start.here,
                more ==> children@.len() < t.children.len(),
                !more ==> children@.len() == t.children.len(),
                cursor_place(*c).above.len() == start.above.len() + 1,
                cursor_place(*c).above.drop_last() == start.above,
                more ==> cursor_place(*c).above.last() == (t, children@.len() as int)
                    && cursor_place(*c).here == t.children[children@.len() as int],
                cursor_place(*c).above.last().0 == t,
                forall|k: int|
                    0 <= k < children@.len() ==> (#[trigger] children@[k]).tree()
                        == t.children[k],
            decreases t.children.len() - children@.len() + (if more {
                1int
            } else {
                0int
            }),
        {
            let ghost place = cursor_place(*c);
            let child = read_tree(c);
            children.push(child);
            more = to_next_sibling(c);
            proof {
                if more {
                    assert(cursor_place(*c).above.drop_last() =~= place.above.drop_last());
                }
            }
        }
        to_parent(c);
        proof {
            assert(cursor_place(*c).above == start.above);
            assert(cursor_place(*c).here == t);
        }
    }
    let node = SynNode { facts, children };
    proof {
        lemma_subtrees(node, node.children@.len());
        assert(node.subtrees(node.children@.len()) =~= t.children);
    }
    node
}

/// The symbols of a node: its own, if it is one, before those inside of it.
pub open spec fn symbols_at(src: Seq<u8>, t: SyntaxTree, in_impl: bool) -> Seq<SymbolView> {
    if t.facts.named {
        let inner = symbols_from(src, t, 0, in_impl || t.facts.kind == "impl_item"@);
        match symbol_at(src, t.facts, in_impl) {
            Some(s) => seq![s] + inner,
            None => inner,
        }
    } else {
        seq![]
    }
}

/// The symbols of the children from `i` on begin with those of the child there.
proof fn lemma_next_child(src: Seq<u8>, t: SyntaxTree, i: int, in_impl: bool)
    requires
        0 <= i < t.children.len(),
    ensures
        symbols_from(src, t, i, in_impl) == symbols_at(src, t.children[i], in_impl) + symbols_from(
            src,
            t,
            i + 1,
            in_impl,
        ),
{
}

/// Appends the symbols of a node.
fn walk_node(node: &SynNode, src: &[u8], in_impl: bool, out: &mut Vec<Symbol>)
    ensures
        views(final(out)@) == views(old(out)@) + symbols_at(src@, node.tree(), in_impl),
    decreases node, 1int,
{
    let ghost before = views(out@);
    if node.facts.named {
        match node_symbol(&node.facts, src, in_impl) {
            Some(s) => {
                out.push(s);
                assert(views(out@) =~= before.push(s@));
            },
            None => {},
        }
        let inside = in_impl || same_text(node.facts.kind.as_str(), "impl_item");
        walk(node, src, inside, out);
    }
    assert(views(out@) =~= before + symbols_at(src@, node.tree(), in_impl));
}

/// Appends the symbols below a node.
fn walk(node: &SynNode, src: &[u8], in_impl: bool, out: &mut Vec<Symbol>)
    ensures
        views(final(out)@) == views(old(out)@) + symbols_from(src@, node.tree(), 0, in_impl),
    decreases node, 0int,
{
    let ghost t = node.tree();
    let ghost whole = views(out@) + symbols_from(src@, t, 0, in_impl);
    let mut i: usize = 0;
    proof {
        lemma_subtrees(*node, node.children@.len());
    }
    while i < node.children.len()
        invariant
            i <= node.children.len(),
            t.children.len() == node.children@.len(),
            forall|k: int|
                0 <= k < node.children@.len() ==> #[trigger] t.children[k]
                    == node.children@[k].tree(),
            whole == views(out@) + symbols_from(src@, t, i as int, in_impl),
        decreases node.children.len() - i,
    {
        let ghost before = views(out@);
        assert(t.children[i as int] == node.children@[i as int].tree());
        walk_node(&node.children[i], src, in_impl, out);
        proof {
            lemma_next_child(src@, t, i as int, in_impl);
            let own = symbols_at(src@, t.children[i as int], in_impl);
            let rest = symbols_from(src@, t, i + 1, in_impl);
            assert(before + (own + rest) =~= (before + own) + rest);
        }
        i = i + 1;
    }
    assert(views(out@) =~= whole);
}

/// The refusal for a source that cannot be read as Rust.
pub open spec fn did_not_parse() -> ErrorView {
    refusal(ErrorKind::Malformed, "rust: source did not parse"@)
}

/// The symbols of a Rust source whose syntax tree is `tree`: refused when there is no tree,
/// or when there is an error in it, nothing was found and the source is not blank.
pub open spec fn extracted(src: Seq<char>, tree: Option<SyntaxTree>) -> Result<
    Seq<SymbolView>,
    ErrorView,
> {
    match tree {
        None => Err(did_not_parse()),
        Some(t) => {
            let found = symbols_from(encode_utf8(src), t, 0, false);
            if t.facts.has_error && found.len() == 0 && trimmed(src).len() > 0 {
                Err(did_not_parse())
            } else {
                Ok(found)
            }
        },
    }
}

/// The view of an optional tree.
pub open spec fn opt_tree(t: Option<SynNode>) -> Option<SyntaxTree> {
    match t {
        Some(n) => Some(n.tree()),
        None => None,
    }
}

/// The symbols of a Rust source.
pub fn extract(src: &str) -> (r: VcResult<Vec<Symbol>>)
    ensures
        match (extracted(src@, rust_tree(src@)), r) {
            (Ok(s), Ok(list)) => views(list@) == s,
            (Err(e), Err(f)) => f@ == e,
            _ => false,
        },
{
    let tree = match parse_rust(src) {
        Some(tree) => {
            let mut cursor = tree_walk(&tree);
            Some(read_tree(&mut cursor))
        },
        None => None,
    };
    extract_from(src, &tree)
}

/// The symbols of a Rust source with this syntax tree.
pub fn extract_from(src: &str, tree: &Option<SynNode>) -> (r: VcResult<Vec<Symbol>>)
    ensures
        match (extracted(src@, opt_tree(*tree)), r) {
            (Ok(s), Ok(list)) => views(list@) == s,
            (Err(e), Err(f)) => f@ == e,
            _ => false,
        },
{
    let node = match tree {
        Some(node) => node,
        None => {
            return Err(
                VcError::new(ErrorKind::Malformed, "rust: source did not parse".to_owned()),
            );
        },
    };
    let mut out: Vec<Symbol> = Vec::new();
    assert(views(out@) =~= Seq::<SymbolView>::empty());
    walk(node, src.as_bytes(), false, &mut out);
    assert(views(out@) =~= symbols_from(encode_utf8(src@), node.tree(), 0, false));
    if node.facts.has_error && out.len() == 0 && !trim(src).as_str().is_empty() {
        return Err(VcError::new(ErrorKind::Malformed, "rust: source did not parse".to_owned()));
    }
    Ok(out)
}

/// The symbols of a source in a language; none in a language without symbol support.
pub open spec fn symbols_of(src: Seq<char>, lang: Seq<char>, tree: Option<SyntaxTree>) -> Result<
    Seq<SymbolView>,
    ErrorView,
> {
    if lang == "rust"@ {
        extracted(src, tree)
    } else {
        Ok(seq![])
    }
}

/// The symbols of a source in a language.
pub fn symbols(src: &str, lang: &str) -> (r: VcResult<Vec<Symbol>>)
    ensures
        match (symbols_of(src@, lang@, rust_tree(src@)), r) {
            (Ok(s), Ok(list)) => views(list@) == s,
            (Err(e), Err(f)) => f@ == e,
            _ => false,
        },
{
    if same_text(lang, "rust") {
        extract(src)
    } else {
        let none: Vec<Symbol> = Vec::new();
        assert(views(none@) =~= Seq::<SymbolView>::empty());
        Ok(none)
    }
}

/// The label of a symbol kind.
pub open spec fn kind_label(kind: SymbolKind) -> Seq<char> {
    match kind {
        SymbolKind::Function => "function"@,
        SymbolKind::Method => "method"@,
        SymbolKind::Struct => "struct"@,
        SymbolKind::Enum => "enum"@,
        SymbolKind::Trait => "trait"@,
        SymbolKind::Impl => "impl"@,
        SymbolKind::Const => "const"@,
        SymbolKind::Static => "static"@,
        SymbolKind::Module => "module"@,
        SymbolKind::TypeAlias => "typealias"@,
    }
}

/// The label of a symbol kind.
pub fn symbol_kind_label(kind: &SymbolKind) -> (label: String)
    ensures
        label@ == kind_label(*kind),
{
    let s = match kind {
        SymbolKind::Function => "function",
        SymbolKind::Method => "method",
        SymbolKind::Struct => "struct",
        SymbolKind::Enum => "enum",
        SymbolKind::Trait => "trait",
        SymbolKind::Impl => "impl",
        SymbolKind::Const => "const",
        SymbolKind::Static => "static",
        SymbolKind::Module => "module",
        SymbolKind::TypeAlias => "typealias",
    };
    s.to_owned()
}

proof fn lemma_children_symbols(src: Seq<u8>, t: SyntaxTree, i: int, in_impl: bool)
    requires
        0 <= i <= t.children.len(),
    ensures
        symbols_from(src, t, i, in_impl) == t.children.skip(i).map_values(
            |c: SyntaxTree| symbols_of_child(src, c, in_impl),
        ).flatten(),
    decreases t.children.len() - i,
{
    let own = |c: SyntaxTree| symbols_of_child(src, c, in_impl);
    let rest = t.children.skip(i);
    if i < t.children.len() {
        let tail = t.children.skip(i + 1);
        lemma_children_symbols(src, t, i + 1, in_impl);
        assert(rest.map_values(own).first() == own(t.children[i]));
        assert(rest.map_values(own).drop_first() =~= tail.map_values(own));
    } else {
        assert(rest.map_values(own) =~= Seq::<Seq<SymbolView>>::empty());
    }
}

/// The symbols of one child of a node: its own, if it is one, before those of everything below
/// it. What an `impl` holds is inside of it at any depth. A node without a name in the grammar
/// has none.
pub open spec fn symbols_of_child(src: Seq<u8>, c: SyntaxTree, in_impl: bool) -> Seq<SymbolView> {
    if !c.facts.named {
        seq![]
    } else {
        let below = symbols_from(src, c, 0, in_impl || c.facts.kind == "impl_item"@);
        match (kind_of_node(c.facts.kind, in_impl), name_in(src, c.facts)) {
            (Some(kind), Some(name)) => seq![
                SymbolView {
                    name,
                    kind,
                    start_line: line_of_row(c.facts.start_row),
                    end_line: line_of_row(c.facts.end_row),
                    signature: signature_in(src, c.facts),
                    syntax_inferred: false,
                },
            ] + below,
            _ => below,
        }
    }
}

/// The symbols of a tree are those of every node of it, in the order of the source: a node's
/// are those of each of its children, one behind the other.
pub proof fn law_every_node_gives_its_symbols(src: Seq<u8>, t: SyntaxTree, in_impl: bool)
    ensures
        symbols_from(src, t, 0, in_impl) == t.children.map_values(
            |c: SyntaxTree| symbols_of_child(src, c, in_impl),
        ).flatten(),
{
    assert(t.children.skip(0) =~= t.children);
    lemma_children_symbols(src, t, 0, in_impl);
}

proof fn lemma_squeezed(s: Seq<char>, n: nat)
    requires
        n <= s.len(),
    ensures
        squeezed(s, n).filter(|c: char| !is_white(c)) == s.take(n as int).filter(
            |c: char| !is_white(c),
        ),
        forall|i: int|
            0 <= i < squeezed(s, n).len() && is_white(#[trigger] squeezed(s, n)[i]) ==> squeezed(
                s,
                n,
            )[i] == ' ',
        forall|i: int|
            0 < i < squeezed(s, n).len() && is_white(#[trigger] squeezed(s, n)[i]) ==> !is_white(
                squeezed(s, n)[i - 1],
            ),
        n > 0 ==> squeezed(s, n).len() > 0 && is_white(squeezed(s, n).last()) == is_white(s[n - 1]),
    decreases n,
{
    reveal(Seq::filter);
    let shown = |c: char| !is_white(c);
    if n > 0 {
        lemma_squeezed(s, (n - 1) as nat);
        let before = squeezed(s, (n - 1) as nat);
        let now = squeezed(s, n);
        assert(s.take(n as int).drop_last() =~= s.take(n - 1));
        assert(s.take(n as int).last() == s[n - 1]);
        if now.len() > before.len() {
            assert(now.drop_last() =~= before);
        }
        if n == 1 {
            assert(before =~= Seq::<char>::empty());
        }
    } else {
        assert(s.take(0).filter(shown) =~= squeezed(s, 0).filter(shown));
    }
}

proof fn lemma_all_white(s: Seq<char>)
    requires
        forall|i: int| 0 <= i < s.len() ==> is_white(#[trigger] s[i]),
    ensures
        s.filter(|c: char| !is_white(c)).len() == 0,
    decreases s.len(),
{
    reveal(Seq::filter);
    if s.len() > 0 {
        assert(is_white(s[s.len() - 1]));
        lemma_all_white(s.drop_last());
    }
}

proof fn lemma_white_around(all: Seq<char>, a: int, b: int)
    requires
        0 <= a <= b <= all.len(),
        forall|i: int| 0 <= i < a || b <= i < all.len() ==> is_white(#[trigger] all[i]),
    ensures
        all.subrange(a, b).filter(|c: char| !is_white(c)) == all.filter(|c: char| !is_white(c)),
{
    let shown = |c: char| !is_white(c);
    let front = all.take(a);
    let back = all.skip(b);
    let out = all.subrange(a, b);
    assert(all =~= (front + out) + back);
    Seq::filter_distributes_over_add(front + out, back, shown);
    Seq::filter_distributes_over_add(front, out, shown);
    lemma_all_white(front);
    lemma_all_white(back);
    assert(all.filter(shown) =~= out.filter(shown));
}

/// Whether a text is on one line: spaces only between characters that are no white space, and
/// one at most.
pub open spec fn on_one_line(out: Seq<char>) -> bool {
    forall|i: int|
        0 <= i < out.len() && is_white(#[trigger] out[i]) ==> out[i] == ' ' && 0 < i < out.len() - 1
            && !is_white(out[i - 1])
}

proof fn lemma_on_one_line(all: Seq<char>, a: int, b: int)
    requires
        0 <= a <= b <= all.len(),
        forall|i: int| 0 <= i < all.len() && is_white(#[trigger] all[i]) ==> all[i] == ' ',
        forall|i: int|
            0 < i < all.len() && is_white(#[trigger] all[i]) ==> !is_white(all[i - 1]),
        b > a ==> !is_white(all[a]) && !is_white(all[b - 1]),
    ensures
        on_one_line(all.subrange(a, b)),
{
    let out = all.subrange(a, b);
    assert forall|i: int| 0 <= i < out.len() && is_white(#[trigger] out[i]) implies out[i] == ' '
        && 0 < i < out.len() - 1 && !is_white(out[i - 1]) by {
        assert(out[i] == all[a + i]);
        if i > 0 {
            assert(out[i - 1] == all[a + i - 1]);
        }
    }
}

/// Putting a text on one line keeps every character that is no white space, in order; between
/// them there is at most one space, and none at the ends.
pub proof fn law_one_line_keeps_every_visible_character(s: Seq<char>)
    ensures
        collapsed(s).filter(|c: char| !is_white(c)) == s.filter(|c: char| !is_white(c)),
        on_one_line(collapsed(s)),
{
    let all = squeezed(s, s.len());
    lemma_squeezed(s, s.len());
    assert(s.take(s.len() as int) =~= s);
    law_trimming_takes_white_space_off_both_ends(all);
    let (a, b) = choose|a: int, b: int|
        #![trigger all.subrange(a, b)]
        0 <= a <= b <= all.len() && trimmed(all) == all.subrange(a, b) && (forall|i: int|
            0 <= i < a || b <= i < all.len() ==> is_white(#[trigger] all[i]));
    lemma_white_around(all, a, b);
    if b > a {
        assert(trimmed(all)[0] == all[a]);
        assert(trimmed(all).last() == all[b - 1]);
    }
    lemma_on_one_line(all, a, b);
}

/// A symbol is where its node is and says what stands there: its lines are the node's rows
/// counted from one, its header all the text from the node's start to its body, or to its end
/// without one, and its name that of the node's name field; an `impl` is named by its type,
/// behind its trait when it has one.
pub proof fn law_a_symbol_is_where_its_node_is(src: Seq<u8>, n: FactsOfNode, in_impl: bool)
    requires
        n.start_row < usize::MAX && n.end_row < usize::MAX,
    ensures
        symbol_at(src, n, in_impl) matches Some(s) ==> {
            let end = match n.body_field {
                Some((start, _)) => start,
                None => n.span.1,
            };
            &&& s.start_line == n.start_row + 1 && s.end_line == n.end_row + 1
            &&& s.signature == collapsed(text_in(src, n.span.0, end))
            &&& n.kind != "impl_item"@ ==> (n.name_field matches Some((a, b)) && s.name
                == collapsed(text_in(src, a, b)))
            &&& n.kind == "impl_item"@ ==> (n.type_field matches Some((a, b)) && s.name
                == match n.trait_field {
                Some((c, d)) => collapsed(text_in(src, c, d)) + " for "@ + collapsed(
                    text_in(src, a, b),
                ),
                None => collapsed(text_in(src, a, b)),
            })
            &&& s.kind == SymbolKind::Method ==> in_impl
        },
{
}

/// A source is refused exactly when it has no tree, or when its tree has an error, nothing was
/// found in it and it is not blank; otherwise everything that was found is told.
pub proof fn law_a_source_is_refused_only_for_an_error(src: Seq<char>, tree: Option<SyntaxTree>)
    ensures
        match (tree, extracted(src, tree)) {
            (None, r) => r is Err,
            (Some(t), Ok(found)) => found == symbols_from(encode_utf8(src), t, 0, false) && (
            !t.facts.has_error || found.len() > 0 || forall|i: int|
                0 <= i < src.len() ==> is_white(#[trigger] src[i])),
            (Some(t), Err(_)) => t.facts.has_error && symbols_from(
                encode_utf8(src),
                t,
                0,
                false,
            ).len() == 0 && exists|i: int| 0 <= i < src.len() && !is_white(#[trigger] src[i]),
        },
{
    law_trimming_takes_white_space_off_both_ends(src);
    let out = trimmed(src);
    let (a, b) = choose|a: int, b: int|
        #![trigger src.subrange(a, b)]
        0 <= a <= b <= src.len() && trimmed(src) == src.subrange(a, b) && (forall|i: int|
            0 <= i < a || b <= i < src.len() ==> is_white(#[trigger] src[i]));
    if out.len() > 0 {
        assert(out[0] == src[a]);
        assert(!is_white(src[a]));
    } else {
        assert(a == b);
    }
}

} // verus!
