//! Search for symbols by name: exact names first, near misses only when there are none.

use crate::errors::{refusal_next, ErrorKind, ErrorView, VcError, VcResult};
use crate::index::{IndexEntry, IndexEntryView, StatIndex};
use crate::order::{
    law_rank_order_is_total, law_stable_sort_orders_and_keeps_items, lemma_stable_sort_members,
    list_less, rank_less, ranks_ascend, stable_sort, stable_sorted, views, Rank, RankView, Ranked,
};
use crate::paths::{components, TreePath};
use crate::query::{
    capped_source, read_capped_source, refuse_if_over_hit_cap, too_many_hits, SourceProbe,
    SourceProbeView,
};
use crate::render::{packed, render_budgeted, Budgeted};
use crate::strings::{contains, holds_text};
use crate::symbols::{
    kind_label, rust_tree, symbol_kind_label, symbols, symbols_of, Symbol, SymbolView,
};
use crate::text::{
    dec, lossy_text, lowercase, lowercase_text, push_dec, same_text, trim, trimmed,
};
use crate::walk::{in_scope, is_in_scope};
use vstd::prelude::*;
use vstd::string::*;

verus! {

/// A symbol and the file it stands in.
#[derive(Debug, Clone)]
pub struct SymbolHit {
    pub path: TreePath,
    pub symbol: Symbol,
}

/// What a [`SymbolHit`] says.
pub struct SymbolHitView {
    pub path: Seq<u8>,
    pub symbol: SymbolView,
}

impl View for SymbolHit {
    type V = SymbolHitView;

    open spec fn view(&self) -> SymbolHitView {
        SymbolHitView { path: self.path@, symbol: self.symbol@ }
    }
}

/// Symbol hits sort by path and first line.
impl Ranked for SymbolHit {
    open spec fn rank_at(v: SymbolHitView) -> RankView {
        RankView { list: components(v.path), major: v.symbol.start_line as nat, minor: 0 }
    }

    fn rank_of(&self) -> (r: Rank) {
        let r = Rank {
            list: self.path.component_list(),
            major: self.symbol.start_line as u64,
            minor: 0,
        };
        assert(r@.list == components(self@.path));
        r
    }
}

/// Whether symbols are searched in files of a language.
pub open spec fn has_symbols(lang: Seq<char>) -> bool {
    lang == "rust"@
}

/// A file to search for symbols, in a language.
#[derive(Debug, Clone)]
pub struct SourceFile {
    pub path: TreePath,
    pub lang: String,
}

/// What a [`SourceFile`] says.
pub struct SourceFileView {
    pub path: Seq<u8>,
    pub lang: Seq<char>,
}

impl View for SourceFile {
    type V = SourceFileView;

    open spec fn view(&self) -> SourceFileView {
        SourceFileView { path: self.path@, lang: self.lang@ }
    }
}

/// The files among the first `n` of the index that a symbol search in a scope looks at.
pub open spec fn sources_below(
    entries: Seq<(Seq<u8>, IndexEntryView)>,
    scope: Seq<Seq<u8>>,
    n: nat,
) -> Seq<SourceFileView>
    decreases n,
{
    if n == 0 {
        seq![]
    } else {
        let before = sources_below(entries, scope, (n - 1) as nat);
        let (path, entry) = entries[n - 1];
        if has_symbols(entry.lang) && in_scope(path, scope) {
            before.push(SourceFileView { path, lang: entry.lang })
        } else {
            before
        }
    }
}

/// The indexed files that a symbol search in a scope looks at: those of a language with
/// symbols, by the language that the index records.
pub fn symbol_sources(ix: &StatIndex, scope: &Vec<TreePath>) -> (files: Vec<SourceFile>)
    ensures
        views(files@) == sources_below(ix.entries@, views(scope@), ix.entries@.len()),
{
    let mut files: Vec<SourceFile> = Vec::new();
    let mut i: usize = 0;
    let entries: &Vec<(TreePath, IndexEntry)> = &ix.entries.entries;
    assert(views(files@) =~= Seq::<SourceFileView>::empty());
    while i < entries.len()
        invariant
            i <= entries.len(),
            *entries == ix.entries.entries,
            views(files@) == sources_below(ix.entries@, views(scope@), i as nat),
        decreases entries.len() - i,
    {
        let ghost before = files@;
        let path: &TreePath = &entries[i].0;
        let entry: &IndexEntry = &entries[i].1;
        assert(ix.entries@[i as int] == (path@, entry@));
        if same_text(entry.lang.as_str(), "rust") && is_in_scope(path, scope) {
            let f = SourceFile { path: path.copy(), lang: entry.lang.as_str().to_owned() };
            files.push(f);
            assert(views(files@) =~= views(before).push(f@));
        }
        i = i + 1;
    }
    files
}

/// How close a symbol's name is to a wanted one.
#[derive(Debug, Clone, Copy, PartialEq, Eq, Structural)]
pub enum Tier {
    Exact,
    Near,
    Other,
}

/// The tier of a symbol: its name is the wanted one, or holds it when both are in lower case,
/// or neither.
pub open spec fn tier_of(
    name: Seq<char>,
    lower: Seq<char>,
    symbol: Seq<char>,
    symbol_lower: Seq<char>,
) -> Tier {
    if symbol == name {
        Tier::Exact
    } else if holds_text(symbol_lower, lower) {
        Tier::Near
    } else {
        Tier::Other
    }
}

/// The tier of a symbol, given the names and their lower-case forms.
pub fn symbol_tier(name: &str, lower: &str, symbol: &str, symbol_lower: &str) -> (t: Tier)
    ensures
        t == tier_of(name@, lower@, symbol@, symbol_lower@),
{
    if same_text(symbol, name) {
        Tier::Exact
    } else if contains(symbol_lower, lower) {
        Tier::Near
    } else {
        Tier::Other
    }
}

/// What a symbol search has found so far, by tier.
#[derive(Debug, Clone)]
pub struct Matches {
    pub exact: Vec<SymbolHit>,
    pub near: Vec<SymbolHit>,
    pub warnings: Vec<String>,
}

/// What [`Matches`] says.
pub struct MatchesView {
    pub exact: Seq<SymbolHitView>,
    pub near: Seq<SymbolHitView>,
    pub warnings: Seq<Seq<char>>,
}

impl View for Matches {
    type V = MatchesView;

    open spec fn view(&self) -> MatchesView {
        MatchesView {
            exact: views(self.exact@),
            near: views(self.near@),
            warnings: views(self.warnings@),
        }
    }
}

/// No match yet.
pub fn no_matches() -> (m: Matches)
    ensures
        m@ == (MatchesView { exact: seq![], near: seq![], warnings: seq![] }),
{
    let m = Matches { exact: Vec::new(), near: Vec::new(), warnings: Vec::new() };
    assert(m@.exact =~= Seq::<SymbolHitView>::empty());
    assert(m@.near =~= Seq::<SymbolHitView>::empty());
    assert(m@.warnings =~= Seq::<Seq<char>>::empty());
    m
}

/// The matches with one more symbol.
pub open spec fn with_symbol(
    m: MatchesView,
    path: Seq<u8>,
    symbol: SymbolView,
    tier: Tier,
) -> MatchesView {
    let hit = SymbolHitView { path, symbol };
    match tier {
        Tier::Exact => MatchesView { exact: m.exact.push(hit), ..m },
        Tier::Near => MatchesView { near: m.near.push(hit), ..m },
        Tier::Other => m,
    }
}

/// The matches with the symbols of a file from `i` on.
pub open spec fn with_symbols(
    m: MatchesView,
    name: Seq<char>,
    path: Seq<u8>,
    syms: Seq<SymbolView>,
    i: int,
) -> MatchesView
    decreases syms.len() - i,
{
    if i >= syms.len() {
        m
    } else {
        let tier = tier_of(
            name,
            lowercase_text(name),
            syms[i].name,
            lowercase_text(syms[i].name),
        );
        with_symbols(with_symbol(m, path, syms[i], tier), name, path, syms, i + 1)
    }
}

/// Adds a symbol of a known tier to the matches.
pub fn add_symbol(m: Matches, path: &TreePath, symbol: &Symbol, tier: Tier) -> (r: Matches)
    ensures
        r@ == with_symbol(m@, path@, symbol@, tier),
{
    let ghost before = m@;
    let hit = SymbolHit {
        path: path.copy(),
        symbol: Symbol {
            name: symbol.name.as_str().to_owned(),
            kind: symbol.kind,
            start_line: symbol.start_line,
            end_line: symbol.end_line,
            signature: symbol.signature.as_str().to_owned(),
            syntax_inferred: symbol.syntax_inferred,
        },
    };
    assert(hit@ == (SymbolHitView { path: path@, symbol: symbol@ }));
    let mut r = m;
    match tier {
        Tier::Exact => {
            r.exact.push(hit);
            assert(r@.exact =~= before.exact.push(hit@));
        },
        Tier::Near => {
            r.near.push(hit);
            assert(r@.near =~= before.near.push(hit@));
        },
        Tier::Other => {},
    }
    r
}

/// The warning for a file whose symbols cannot be had.
pub open spec fn unparsed_line(path: Seq<u8>, message: Seq<char>) -> Seq<char> {
    lossy_text(path) + ": "@ + message
}

/// The matches with what reading one file's symbols gave.
pub open spec fn with_answer(
    m: MatchesView,
    name: Seq<char>,
    path: Seq<u8>,
    answer: Result<Seq<SymbolView>, ErrorView>,
) -> MatchesView {
    match answer {
        Ok(syms) => with_symbols(m, name, path, syms, 0),
        Err(e) => MatchesView { warnings: m.warnings.push(unparsed_line(path, e.message)), ..m },
    }
}

/// Adds what reading one file's symbols gave: the symbols by tier, or a warning.
pub fn take_symbols(
    m: Matches,
    name: &str,
    path: &TreePath,
    answer: VcResult<Vec<Symbol>>,
) -> (r: Matches)
    ensures
        r@ == with_answer(
            m@,
            name@,
            path@,
            match answer {
                Ok(list) => Ok(views(list@)),
                Err(e) => Err(e@),
            },
        ),
{
    match answer {
        Err(e) => {
            let mut line: String = path.display();
            line.append(": ");
            line.append(e.message.as_str());
            let ghost before = m@;
            let mut r = m;
            r.warnings.push(line);
            assert(r@.warnings =~= before.warnings.push(line@));
            r
        },
        Ok(syms) => {
            let lower = lowercase(name);
            let ghost sv = views(syms@);
            let ghost whole = with_symbols(m@, name@, path@, sv, 0);
            let mut r = m;
            let mut i: usize = 0;
            while i < syms.len()
                invariant
                    i <= syms.len(),
                    sv == views(syms@),
                    lower@ == lowercase_text(name@),
                    whole == with_symbols(r@, name@, path@, sv, i as int),
                decreases syms.len() - i,
            {
                let sym = &syms[i];
                assert(sv[i as int] == sym@);
                let sym_lower = lowercase(sym.name.as_str());
                let tier = symbol_tier(
                    name,
                    lower.as_str(),
                    sym.name.as_str(),
                    sym_lower.as_str(),
                );
                r = add_symbol(r, path, sym, tier);
                i = i + 1;
            }
            r
        },
    }
}

/// The matches with one more file: one that cannot be read or parsed adds a warning.
pub open spec fn with_file(
    m: MatchesView,
    name: Seq<char>,
    file: SourceFileView,
    probe: SourceProbeView,
) -> MatchesView {
    match capped_source(file.path, probe) {
        Err(w) => MatchesView { warnings: m.warnings.push(w), ..m },
        Ok(src) => with_answer(m, name, file.path, symbols_of(src, file.lang, rust_tree(src))),
    }
}

/// Takes one more file into a symbol search.
pub fn scan_symbols(m: Matches, name: &str, file: &SourceFile, probe: &SourceProbe) -> (r: Matches)
    ensures
        r@ == with_file(m@, name@, file@, probe@),
{
    match read_capped_source(&file.path, probe) {
        Err(w) => {
            let ghost before = m@;
            let mut r = m;
            r.warnings.push(w);
            assert(r@.warnings =~= before.warnings.push(w@));
            r
        },
        Ok(src) => {
            let answer = symbols(src.as_str(), file.lang.as_str());
            take_symbols(m, name, &file.path, answer)
        },
    }
}

/// The answer to a symbol search.
#[derive(Debug, Clone)]
pub struct SymbolAnswer {
    pub hits: Vec<SymbolHit>,
    /// Whether there was no exact match, so that the hits are near misses.
    pub fuzzy: bool,
    pub warnings: Vec<String>,
}

/// What a [`SymbolAnswer`] says.
pub struct AnswerView {
    pub hits: Seq<SymbolHitView>,
    pub fuzzy: bool,
    pub warnings: Seq<Seq<char>>,
}

impl View for SymbolAnswer {
    type V = AnswerView;

    open spec fn view(&self) -> AnswerView {
        AnswerView {
            hits: views(self.hits@),
            fuzzy: self.fuzzy,
            warnings: views(self.warnings@),
        }
    }
}

/// The answer that some matches make: the exact ones when there are any, else the near ones.
pub open spec fn answered(m: MatchesView) -> AnswerView {
    if m.exact.len() > 0 {
        AnswerView {
            hits: stable_sorted::<SymbolHit>(m.exact),
            fuzzy: false,
            warnings: m.warnings,
        }
    } else {
        AnswerView {
            hits: stable_sorted::<SymbolHit>(m.near),
            fuzzy: true,
            warnings: m.warnings,
        }
    }
}

/// The answer that some matches make, refused whole when it has more than `cap` hits.
pub open spec fn capped_answer(m: MatchesView, cap: usize) -> Result<AnswerView, ErrorView> {
    if answered(m).hits.len() > cap {
        Err(too_many_hits(cap))
    } else {
        Ok(answered(m))
    }
}

/// Makes the answer of a symbol search from its matches, with at most `cap` hits.
pub fn answer(m: Matches, cap: usize) -> (r: VcResult<SymbolAnswer>)
    ensures
        match (capped_answer(m@, cap), r) {
            (Ok(a), Ok(b)) => b@ == a,
            (Err(e), Err(f)) => f@ == e,
            _ => false,
        },
{
    let a = if m.exact.len() > 0 {
        SymbolAnswer { hits: stable_sort(m.exact), fuzzy: false, warnings: m.warnings }
    } else {
        SymbolAnswer { hits: stable_sort(m.near), fuzzy: true, warnings: m.warnings }
    };
    assert(a@ == answered(m@));
    assert(a@.hits.len() == a.hits@.len());
    match refuse_if_over_hit_cap(a.hits.len(), cap) {
        Ok(_) => Ok(a),
        Err(e) => Err(e),
    }
}

/// An exact match is never hidden behind near misses, and a near miss is never passed off as
/// an exact match; either way the hits are in path and line order.
pub proof fn law_exact_names_beat_near_ones(m: MatchesView)
    ensures
        answered(m).fuzzy <==> m.exact.len() == 0,
        !answered(m).fuzzy ==> answered(m).hits.to_multiset() == m.exact.to_multiset(),
        answered(m).fuzzy ==> answered(m).hits.to_multiset() == m.near.to_multiset(),
        ranks_ascend::<SymbolHit>(answered(m).hits),
{
    law_stable_sort_orders_and_keeps_items::<SymbolHit>(m.exact);
    law_stable_sort_orders_and_keeps_items::<SymbolHit>(m.near);
}

/// The refusal of an empty name.
pub open spec fn empty_name() -> ErrorView {
    refusal_next(
        ErrorKind::Usage,
        "empty symbol name — it would match every symbol in the tree"@,
        "vc query <name> --symbol"@,
    )
}

/// Refuses a name that is empty or blank.
pub fn check_name(name: &str) -> (r: VcResult<()>)
    ensures
        match r {
            Ok(_) => trimmed(name@).len() > 0,
            Err(e) => trimmed(name@).len() == 0 && e@ == empty_name(),
        },
{
    if trim(name).as_str().is_empty() {
        return Err(
            VcError::new(
                ErrorKind::Usage,
                "empty symbol name — it would match every symbol in the tree".to_owned(),
            ).with_next("vc query <name> --symbol".to_owned()),
        );
    }
    Ok(())
}

/// A source file and what reading it gave.
#[derive(Debug)]
pub struct Source {
    pub file: SourceFile,
    pub probe: SourceProbe,
}

/// What a [`Source`] says.
pub struct SourceView {
    pub file: SourceFileView,
    pub probe: SourceProbeView,
}

impl View for Source {
    type V = SourceView;

    open spec fn view(&self) -> SourceView {
        SourceView { file: self.file@, probe: self.probe@ }
    }
}

/// The matches with the files from `i` on.
pub open spec fn with_files(m: MatchesView, name: Seq<char>, files: Seq<SourceView>, i: int) -> MatchesView
    decreases files.len() - i,
{
    if i >= files.len() {
        m
    } else {
        with_files(with_file(m, name, files[i].file, files[i].probe), name, files, i + 1)
    }
}

/// The matches of a name in source files.
pub open spec fn symbol_matches(name: Seq<char>, files: Seq<SourceView>) -> MatchesView {
    with_files((MatchesView { exact: seq![], near: seq![], warnings: seq![] }), name, files, 0)
}

/// Searches source files for symbols by name. A blank name is refused; a file that cannot be
/// read or parsed is a warning; an answer of more than `cap` hits is refused, as in every
/// other search.
pub fn search_symbol(name: &str, files: &Vec<Source>, cap: usize) -> (r: VcResult<SymbolAnswer>)
    ensures
        trimmed(name@).len() == 0 ==> (r matches Err(e) && e@ == empty_name()),
        trimmed(name@).len() > 0 ==> match (
            capped_answer(symbol_matches(name@, views(files@)), cap),
            r,
        ) {
            (Ok(a), Ok(b)) => b@ == a,
            (Err(e), Err(f)) => f@ == e,
            _ => false,
        },
{
    match check_name(name) {
        Ok(_) => {},
        Err(e) => {
            return Err(e);
        },
    }
    let ghost fv = views(files@);
    let mut m = no_matches();
    let ghost whole = with_files(m@, name@, fv, 0);
    let mut i: usize = 0;
    while i < files.len()
        invariant
            i <= files.len(),
            fv == views(files@),
            whole == with_files(m@, name@, fv, i as int),
        decreases files.len() - i,
    {
        assert(fv[i as int] == files@[i as int]@);
        m = scan_symbols(m, name, &files[i].file, &files[i].probe);
        i = i + 1;
    }
    answer(m, cap)
}

/// Whether the exact hits have exactly the name, and the near ones hold it.
pub open spec fn tiers_hold(m: MatchesView, name: Seq<char>) -> bool {
    &&& forall|i: int| 0 <= i < m.exact.len() ==> (#[trigger] m.exact[i]).symbol.name == name
    &&& forall|i: int|
        0 <= i < m.near.len() ==> (#[trigger] m.near[i]).symbol.name != name && holds_text(
            lowercase_text(m.near[i].symbol.name),
            lowercase_text(name),
        )
}

proof fn lemma_symbols_tiers(
    m: MatchesView,
    name: Seq<char>,
    path: Seq<u8>,
    syms: Seq<SymbolView>,
    i: int,
)
    requires
        tiers_hold(m, name),
    ensures
        tiers_hold(with_symbols(m, name, path, syms, i), name),
    decreases syms.len() - i,
{
    if i < syms.len() {
        let tier = tier_of(
            name,
            lowercase_text(name),
            syms[i].name,
            lowercase_text(syms[i].name),
        );
        lemma_symbols_tiers(with_symbol(m, path, syms[i], tier), name, path, syms, i + 1);
    }
}

proof fn lemma_files_tiers(m: MatchesView, name: Seq<char>, files: Seq<SourceView>, i: int)
    requires
        tiers_hold(m, name),
    ensures
        tiers_hold(with_files(m, name, files, i), name),
    decreases files.len() - i,
{
    if i < files.len() {
        match capped_source(files[i].file.path, files[i].probe) {
            Ok(src) => {
                match symbols_of(src, files[i].file.lang, rust_tree(src)) {
                    Ok(syms) => {
                        lemma_symbols_tiers(m, name, files[i].file.path, syms, 0);
                    },
                    Err(_) => {},
                }
            },
            Err(_) => {},
        }
        lemma_files_tiers(
            with_file(m, name, files[i].file, files[i].probe),
            name,
            files,
            i + 1,
        );
    }
}

/// An answer that is not marked as fuzzy holds symbols of exactly the name asked for, and
/// nothing else.
pub proof fn law_unmarked_answers_are_exact(name: Seq<char>, files: Seq<SourceView>)
    ensures
        ({
            let a = answered(symbol_matches(name, files));
            !a.fuzzy ==> forall|i: int|
                0 <= i < a.hits.len() ==> (#[trigger] a.hits[i]).symbol.name == name
        }),
{
    let none = MatchesView { exact: seq![], near: seq![], warnings: seq![] };
    let m = with_files(none, name, files, 0);
    lemma_files_tiers(none, name, files, 0);
    lemma_stable_sort_members::<SymbolHit>(m.exact);
}

/// A symbol search answers in path and line order, and with no more hits than the cap, as the
/// other searches do.
pub proof fn law_symbol_search_is_ordered_and_capped(
    name: Seq<char>,
    files: Seq<SourceView>,
    cap: usize,
)
    ensures
        capped_answer(symbol_matches(name, files), cap) matches Ok(a) ==> {
            &&& ranks_ascend::<SymbolHit>(a.hits)
            &&& a.hits.len() <= cap
        },
        capped_answer(symbol_matches(name, files), cap) matches Err(e) ==> e == too_many_hits(cap),
{
    law_exact_names_beat_near_ones(symbol_matches(name, files));
}

/// The line of a symbol hit.
pub open spec fn symbol_hit_line(h: SymbolHitView) -> Seq<char> {
    lossy_text(h.path) + ":"@ + dec(h.symbol.start_line as nat) + ": ["@ + kind_label(
        h.symbol.kind,
    ) + "] "@ + h.symbol.signature
}

/// The lines of symbol hits.
pub open spec fn symbol_hit_lines(hits: Seq<SymbolHitView>) -> Seq<Seq<char>> {
    hits.map_values(|h: SymbolHitView| symbol_hit_line(h))
}

fn render_symbol_hit_line(hit: &SymbolHit) -> (line: String)
    ensures
        line@ == symbol_hit_line(hit@),
{
    let mut line: String = hit.path.display();
    line.append(":");
    push_dec(&mut line, hit.symbol.start_line as u64);
    line.append(": [");
    line.append(symbol_kind_label(&hit.symbol.kind).as_str());
    line.append("] ");
    line.append(hit.symbol.signature.as_str());
    line
}

/// Renders symbol hits one per line within a budget: whole hits from the front, as long as
/// they fit.
pub fn render_symbol_hits(hits: &Vec<SymbolHit>, budget: Option<usize>) -> (b: Budgeted)
    ensures
        b.text@ == packed(symbol_hit_lines(views(hits@)), budget).0,
        b.elided == packed(symbol_hit_lines(views(hits@)), budget).1,
{
    let mut lines: Vec<String> = Vec::new();
    let mut i: usize = 0;
    while i < hits.len()
        invariant
            i <= hits.len(),
            views(lines@) == symbol_hit_lines(views(hits@)).take(i as int),
        decreases hits.len() - i,
    {
        let line = render_symbol_hit_line(&hits[i]);
        let ghost before = lines@;
        lines.push(line);
        proof {
            let all = symbol_hit_lines(views(hits@));
            assert(all[i as int] == line@);
            assert(all.take(i + 1) =~= all.take(i as int).push(line@));
            assert(views(lines@) =~= views(before).push(line@));
        }
        i = i + 1;
    }
    assert(views(lines@) =~= symbol_hit_lines(views(hits@)));
    render_budgeted(&lines, budget)
}

/// The symbols of one file; none when it cannot be read or parsed.
pub open spec fn symbols_in(file: SourceView) -> Seq<SymbolView> {
    match capped_source(file.file.path, file.probe) {
        Ok(src) => match symbols_of(src, file.file.lang, rust_tree(src)) {
            Ok(syms) => syms,
            Err(_) => seq![],
        },
        Err(_) => seq![],
    }
}

/// The warning of one file that cannot be read or parsed.
pub open spec fn told_of(file: SourceView) -> Seq<Seq<char>> {
    match capped_source(file.file.path, file.probe) {
        Ok(src) => match symbols_of(src, file.file.lang, rust_tree(src)) {
            Ok(_) => seq![],
            Err(e) => seq![lossy_text(file.file.path) + ": "@ + e.message],
        },
        Err(w) => seq![w],
    }
}

/// The hits of those symbols of a file whose name is wanted.
pub open spec fn wanted_in(file: SourceView, wanted: spec_fn(Seq<char>) -> bool) -> Seq<
    SymbolHitView,
> {
    symbols_in(file).filter(|s: SymbolView| wanted(s.name)).map_values(
        |s: SymbolView| SymbolHitView { path: file.file.path, symbol: s },
    )
}

/// The hits of those symbols of all files whose name is wanted, one file after the other.
pub open spec fn every_wanted(files: Seq<SourceView>, wanted: spec_fn(Seq<char>) -> bool) -> Seq<
    SymbolHitView,
> {
    files.map_values(|f: SourceView| wanted_in(f, wanted)).flatten()
}

/// The names that are exactly the one asked for.
pub open spec fn is_name(name: Seq<char>) -> spec_fn(Seq<char>) -> bool {
    |n: Seq<char>| n == name
}

/// The other names that hold the one asked for, letter case aside.
pub open spec fn is_near(name: Seq<char>) -> spec_fn(Seq<char>) -> bool {
    |n: Seq<char>| n != name && holds_text(lowercase_text(n), lowercase_text(name))
}

proof fn lemma_symbols_parted(
    m: MatchesView,
    name: Seq<char>,
    path: Seq<u8>,
    syms: Seq<SymbolView>,
    i: int,
)
    requires
        0 <= i <= syms.len(),
    ensures
        ({
            let r = with_symbols(m, name, path, syms, i);
            let rest = syms.skip(i);
            let hit = |s: SymbolView| SymbolHitView { path, symbol: s };
            &&& r.exact == m.exact + rest.filter(
                |s: SymbolView| is_name(name)(s.name),
            ).map_values(hit)
            &&& r.near == m.near + rest.filter(
                |s: SymbolView| is_near(name)(s.name),
            ).map_values(hit)
            &&& r.warnings == m.warnings
        }),
    decreases syms.len() - i,
{
    let exact = |s: SymbolView| is_name(name)(s.name);
    let near = |s: SymbolView| is_near(name)(s.name);
    let hit = |s: SymbolView| SymbolHitView { path, symbol: s };
    let rest = syms.skip(i);
    if i < syms.len() {
        let s = syms[i];
        let tail = syms.skip(i + 1);
        let one = seq![s];
        let tier = tier_of(name, lowercase_text(name), s.name, lowercase_text(s.name));
        let next = with_symbol(m, path, s, tier);
        lemma_symbols_parted(next, name, path, syms, i + 1);
        assert(rest =~= one + tail);
        Seq::filter_distributes_over_add(one, tail, exact);
        Seq::filter_distributes_over_add(one, tail, near);
        reveal(Seq::filter);
        assert(one.drop_last() =~= Seq::<SymbolView>::empty());
        assert(one.drop_last().filter(exact) =~= Seq::<SymbolView>::empty());
        assert(one.drop_last().filter(near) =~= Seq::<SymbolView>::empty());
        assert(one.last() == s);
        assert(next.exact =~= m.exact + one.filter(exact).map_values(hit));
        assert(next.near =~= m.near + one.filter(near).map_values(hit));
        assert(rest.filter(exact).map_values(hit) =~= one.filter(exact).map_values(hit)
            + tail.filter(exact).map_values(hit));
        assert(rest.filter(near).map_values(hit) =~= one.filter(near).map_values(hit)
            + tail.filter(near).map_values(hit));
        let r = with_symbols(m, name, path, syms, i);
        assert(r.exact =~= m.exact + rest.filter(exact).map_values(hit));
        assert(r.near =~= m.near + rest.filter(near).map_values(hit));
    } else {
        reveal(Seq::filter);
        assert(rest =~= Seq::<SymbolView>::empty());
        assert(m.exact + rest.filter(exact).map_values(hit) =~= m.exact);
        assert(m.near + rest.filter(near).map_values(hit) =~= m.near);
    }
}

proof fn lemma_one_file(m: MatchesView, name: Seq<char>, file: SourceView)
    ensures
        ({
            let r = with_file(m, name, file.file, file.probe);
            &&& r.exact == m.exact + wanted_in(file, is_name(name))
            &&& r.near == m.near + wanted_in(file, is_near(name))
            &&& r.warnings == m.warnings + told_of(file)
        }),
{
    let r = with_file(m, name, file.file, file.probe);
    let syms = symbols_in(file);
    reveal(Seq::filter);
    match capped_source(file.file.path, file.probe) {
        Ok(src) => match symbols_of(src, file.file.lang, rust_tree(src)) {
            Ok(_) => {
                lemma_symbols_parted(m, name, file.file.path, syms, 0);
                assert(syms.skip(0) =~= syms);
                assert(r.exact =~= m.exact + wanted_in(file, is_name(name)));
                assert(r.near =~= m.near + wanted_in(file, is_near(name)));
                assert(r.warnings =~= m.warnings + told_of(file));
            },
            Err(_) => {
                assert(r.exact =~= m.exact + wanted_in(file, is_name(name)));
                assert(r.near =~= m.near + wanted_in(file, is_near(name)));
                assert(r.warnings =~= m.warnings + told_of(file));
            },
        },
        Err(_) => {
            assert(r.exact =~= m.exact + wanted_in(file, is_name(name)));
            assert(r.near =~= m.near + wanted_in(file, is_near(name)));
            assert(r.warnings =~= m.warnings + told_of(file));
        },
    }
}

proof fn lemma_all_files(m: MatchesView, name: Seq<char>, files: Seq<SourceView>, i: int)
    requires
        0 <= i <= files.len(),
    ensures
        ({
            let r = with_files(m, name, files, i);
            let rest = files.skip(i);
            &&& r.exact == m.exact + every_wanted(rest, is_name(name))
            &&& r.near == m.near + every_wanted(rest, is_near(name))
            &&& r.warnings == m.warnings + rest.map_values(|f: SourceView| told_of(f)).flatten()
        }),
    decreases files.len() - i,
{
    let exact = |f: SourceView| wanted_in(f, is_name(name));
    let near = |f: SourceView| wanted_in(f, is_near(name));
    let told = |f: SourceView| told_of(f);
    let rest = files.skip(i);
    let r = with_files(m, name, files, i);
    if i < files.len() {
        let f = files[i];
        let tail = files.skip(i + 1);
        let next = with_file(m, name, f.file, f.probe);
        lemma_one_file(m, name, f);
        lemma_all_files(next, name, files, i + 1);
        assert(rest.map_values(exact).first() == exact(f));
        assert(rest.map_values(exact).drop_first() =~= tail.map_values(exact));
        assert(rest.map_values(near).first() == near(f));
        assert(rest.map_values(near).drop_first() =~= tail.map_values(near));
        assert(rest.map_values(told).first() == told(f));
        assert(rest.map_values(told).drop_first() =~= tail.map_values(told));
        assert(r.exact =~= m.exact + every_wanted(rest, is_name(name)));
        assert(r.near =~= m.near + every_wanted(rest, is_near(name)));
        assert(r.warnings =~= m.warnings + rest.map_values(told).flatten());
    } else {
        assert(rest.map_values(exact) =~= Seq::<Seq<SymbolHitView>>::empty());
        assert(rest.map_values(near) =~= Seq::<Seq<SymbolHitView>>::empty());
        assert(rest.map_values(told) =~= Seq::<Seq<Seq<char>>>::empty());
        assert(r.exact =~= m.exact + every_wanted(rest, is_name(name)));
        assert(r.near =~= m.near + every_wanted(rest, is_near(name)));
        assert(r.warnings =~= m.warnings + rest.map_values(told).flatten());
    }
}

/// A symbol search is complete or refused. It answers with every symbol of exactly the name in
/// every file, or, when there is none at all, with every symbol whose name holds it, letter case
/// aside; no more and no fewer, and with a warning for every file that cannot be read or
/// parsed. It is refused exactly when those symbols are more than the cap.
pub proof fn law_a_symbol_search_is_complete_or_refused(
    name: Seq<char>,
    files: Seq<SourceView>,
    cap: usize,
)
    ensures
        ({
            let exact = every_wanted(files, is_name(name));
            let near = every_wanted(files, is_near(name));
            let due = if exact.len() > 0 {
                exact
            } else {
                near
            };
            match capped_answer(symbol_matches(name, files), cap) {
                Ok(a) => {
                    &&& due.len() <= cap
                    &&& a.fuzzy <==> exact.len() == 0
                    &&& a.hits.len() == due.len()
                    &&& a.hits.to_multiset() == due.to_multiset()
                    &&& ranks_ascend::<SymbolHit>(a.hits)
                    &&& a.warnings == files.map_values(|f: SourceView| told_of(f)).flatten()
                },
                Err(e) => due.len() > cap && e == too_many_hits(cap),
            }
        }),
{
    let none = MatchesView { exact: seq![], near: seq![], warnings: seq![] };
    let m = symbol_matches(name, files);
    lemma_all_files(none, name, files, 0);
    assert(files.skip(0) =~= files);
    assert(m.exact =~= every_wanted(files, is_name(name)));
    assert(m.near =~= every_wanted(files, is_near(name)));
    assert(m.warnings =~= files.map_values(|f: SourceView| told_of(f)).flatten());
    law_stable_sort_orders_and_keeps_items::<SymbolHit>(m.exact);
    law_stable_sort_orders_and_keeps_items::<SymbolHit>(m.near);
}

proof fn lemma_sources_exactly(
    entries: Seq<(Seq<u8>, IndexEntryView)>,
    scope: Seq<Seq<u8>>,
    n: nat,
)
    requires
        n <= entries.len(),
    ensures
        sources_below(entries, scope, n) == entries.take(n as int).filter(
            |e: (Seq<u8>, IndexEntryView)| e.1.lang == "rust"@ && in_scope(e.0, scope),
        ).map_values(
            |e: (Seq<u8>, IndexEntryView)| SourceFileView { path: e.0, lang: e.1.lang },
        ),
    decreases n,
{
    let keep = |e: (Seq<u8>, IndexEntryView)| e.1.lang == "rust"@ && in_scope(e.0, scope);
    let show = |e: (Seq<u8>, IndexEntryView)| SourceFileView { path: e.0, lang: e.1.lang };
    reveal(Seq::filter);
    let now = entries.take(n as int);
    if n > 0 {
        lemma_sources_exactly(entries, scope, (n - 1) as nat);
        assert(now.drop_last() =~= entries.take(n - 1));
        assert(now.last() == entries[n - 1]);
        assert(sources_below(entries, scope, n) =~= now.filter(keep).map_values(show));
    } else {
        assert(now =~= Seq::<(Seq<u8>, IndexEntryView)>::empty());
        assert(sources_below(entries, scope, n) =~= now.filter(keep).map_values(show));
    }
}

/// A symbol search looks at every indexed Rust file in its scope, and at no other.
pub proof fn law_every_source_in_scope_is_looked_at(
    entries: Seq<(Seq<u8>, IndexEntryView)>,
    scope: Seq<Seq<u8>>,
)
    ensures
        sources_below(entries, scope, entries.len()) == entries.filter(
            |e: (Seq<u8>, IndexEntryView)| e.1.lang == "rust"@ && in_scope(e.0, scope),
        ).map_values(
            |e: (Seq<u8>, IndexEntryView)| SourceFileView { path: e.0, lang: e.1.lang },
        ),
{
    assert(entries.take(entries.len() as int) =~= entries);
    lemma_sources_exactly(entries, scope, entries.len());
}

/// Symbol hits stand in the order of their paths, and in one file by line.
pub proof fn law_symbol_hits_stand_in_path_and_line_order(m: MatchesView, i: int, j: int)
    requires
        0 <= i < j < answered(m).hits.len(),
    ensures
        ({
            let a = answered(m).hits[i];
            let b = answered(m).hits[j];
            ||| list_less(components(a.path), components(b.path))
            ||| components(a.path) == components(b.path) && a.symbol.start_line
                <= b.symbol.start_line
        }),
{
    law_exact_names_beat_near_ones(m);
    let ra = SymbolHit::rank_at(answered(m).hits[i]);
    let rb = SymbolHit::rank_at(answered(m).hits[j]);
    assert(!rank_less(rb, ra));
    law_rank_order_is_total(ra, rb, ra);
}

} // verus!
