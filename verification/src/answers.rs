//! What a query answers, for people and for programs.

use crate::errors::{refusal, ErrorKind, ErrorView, VcError, VcResult};
use crate::json::{
    field_of, law_a_field_is_found_under_its_key, no_fields, Json, JsonView,
};
use crate::order::{views, RankView, Ranked};
use crate::ordmap::{keys_ascend, law_stored_reads_back, lookup, stored, OrdMap};
use crate::output::{join_warnings, joined_warnings, CmdOutcome, OutcomeView};
use crate::paths::{path_rank, TreePath};
use crate::query::{hit_line, hit_lines, render_hits, HitView, QueryHit};
use crate::render::{
    law_rendering_is_the_longest_prefix, law_rendering_stays_within_budget, packed, Budgeted,
};
use crate::strings::joined_with;
use crate::symbol_search::{
    render_symbol_hits, symbol_hit_line, symbol_hit_lines, AnswerView, SymbolAnswer, SymbolHit,
    SymbolHitView,
};
use crate::symbols::{kind_label, symbol_kind_label};
use crate::text::{dec, lossy_text, push_dec};
use vstd::prelude::*;
use vstd::string::*;
use vstd::utf8::*;

verus! {

/// How to search.
#[derive(Debug, Clone, Copy, PartialEq, Eq, Structural)]
pub enum QueryMode {
    Literal,
    Regex,
    Symbol,
    Ast,
}

/// How to search, by the flags: one mode at most, and a language only for a structural
/// search.
pub open spec fn mode_of(regex: bool, symbol: bool, ast: bool, has_lang: bool) -> Result<
    QueryMode,
    ErrorView,
> {
    if (regex && symbol) || (regex && ast) || (symbol && ast) {
        Err(
            refusal(
                ErrorKind::Usage,
                "query: --symbol, --regex, and --ast are mutually exclusive"@,
            ),
        )
    } else if has_lang && !ast {
        Err(refusal(ErrorKind::Usage, "query: --lang applies only to --ast"@))
    } else if symbol {
        Ok(QueryMode::Symbol)
    } else if ast {
        Ok(QueryMode::Ast)
    } else if regex {
        Ok(QueryMode::Regex)
    } else {
        Ok(QueryMode::Literal)
    }
}

/// How to search, by the flags.
pub fn query_mode(regex: bool, symbol: bool, ast: bool, has_lang: bool) -> (r: VcResult<QueryMode>)
    ensures
        match (mode_of(regex, symbol, ast, has_lang), r) {
            (Ok(m), Ok(mode)) => mode == m,
            (Err(e), Err(f)) => f@ == e,
            _ => false,
        },
{
    if (regex && symbol) || (regex && ast) || (symbol && ast) {
        return Err(
            VcError::new(
                ErrorKind::Usage,
                "query: --symbol, --regex, and --ast are mutually exclusive".to_owned(),
            ),
        );
    }
    if has_lang && !ast {
        return Err(
            VcError::new(ErrorKind::Usage, "query: --lang applies only to --ast".to_owned()),
        );
    }
    if symbol {
        Ok(QueryMode::Symbol)
    } else if ast {
        Ok(QueryMode::Ast)
    } else if regex {
        Ok(QueryMode::Regex)
    } else {
        Ok(QueryMode::Literal)
    }
}

/// The files of the paths from `i` on, added to `done`: each once, in path order.
pub open spec fn files_from(paths: Seq<Seq<u8>>, i: int, done: Seq<(Seq<u8>, bool)>) -> Seq<
    (Seq<u8>, bool),
>
    decreases paths.len() - i,
{
    if i >= paths.len() {
        done
    } else {
        files_from(paths, i + 1, stored::<TreePath, bool>(done, paths[i], true))
    }
}

/// The files of the paths: each once, in path order.
pub open spec fn file_set(paths: Seq<Seq<u8>>) -> Seq<(Seq<u8>, bool)> {
    files_from(paths, 0, seq![])
}

proof fn lemma_files_from(paths: Seq<Seq<u8>>, i: int, done: Seq<(Seq<u8>, bool)>, k: int)
    requires
        0 <= i <= paths.len(),
        0 <= k < paths.len(),
        keys_ascend::<TreePath, bool>(done),
        k < i ==> lookup::<TreePath, bool>(done, path_rank(paths[k])) is Some,
    ensures
        keys_ascend::<TreePath, bool>(files_from(paths, i, done)),
        lookup::<TreePath, bool>(files_from(paths, i, done), path_rank(paths[k])) is Some,
    decreases paths.len() - i,
{
    if i < paths.len() {
        law_stored_reads_back::<TreePath, bool>(done, paths[i], true, path_rank(paths[k]));
        lemma_files_from(paths, i + 1, stored::<TreePath, bool>(done, paths[i], true), k);
    }
}

/// Every path is in the set of files, and the set holds each file once.
pub proof fn law_file_set_has_every_file_once(paths: Seq<Seq<u8>>, k: int)
    requires
        0 <= k < paths.len(),
    ensures
        keys_ascend::<TreePath, bool>(file_set(paths)),
        lookup::<TreePath, bool>(file_set(paths), path_rank(paths[k])) is Some,
{
    lemma_files_from(paths, 0, seq![], k);
}

/// The paths of hits.
pub open spec fn hit_paths(hits: Seq<HitView>) -> Seq<Seq<u8>> {
    hits.map_values(|h: HitView| h.path)
}

/// The files that hits are in: each once, in path order.
pub fn hit_files(hits: &Vec<QueryHit>) -> (files: OrdMap<TreePath, bool>)
    ensures
        files.wf(),
        files@ == file_set(hit_paths(views(hits@))),
{
    let mut files: OrdMap<TreePath, bool> = OrdMap::new();
    let ghost pv = hit_paths(views(hits@));
    let mut i: usize = 0;
    while i < hits.len()
        invariant
            i <= hits.len(),
            pv == hit_paths(views(hits@)),
            files.wf(),
            file_set(pv) == files_from(pv, i as int, files@),
        decreases hits.len() - i,
    {
        assert(pv[i as int] == hits@[i as int]@.path);
        files.insert(hits[i].path.copy(), true);
        i = i + 1;
    }
    files
}

/// The paths of symbol hits.
pub open spec fn symbol_hit_paths(hits: Seq<SymbolHitView>) -> Seq<Seq<u8>> {
    hits.map_values(|h: SymbolHitView| h.path)
}

/// The files that symbol hits are in: each once, in path order.
pub fn symbol_hit_files(hits: &Vec<SymbolHit>) -> (files: OrdMap<TreePath, bool>)
    ensures
        files.wf(),
        files@ == file_set(symbol_hit_paths(views(hits@))),
{
    let mut files: OrdMap<TreePath, bool> = OrdMap::new();
    let ghost pv = symbol_hit_paths(views(hits@));
    let mut i: usize = 0;
    while i < hits.len()
        invariant
            i <= hits.len(),
            pv == symbol_hit_paths(views(hits@)),
            files.wf(),
            file_set(pv) == files_from(pv, i as int, files@),
        decreases hits.len() - i,
    {
        assert(pv[i as int] == hits@[i as int]@.path);
        files.insert(hits[i].path.copy(), true);
        i = i + 1;
    }
    files
}

/// The sum of the first `n` sizes.
pub open spec fn size_sum(sizes: Seq<u64>, n: nat) -> nat
    decreases n,
{
    if n == 0 {
        0
    } else {
        size_sum(sizes, (n - 1) as nat) + sizes[n - 1] as nat
    }
}

proof fn lemma_size_sum_grows(sizes: Seq<u64>, n: nat, m: nat)
    requires
        n <= m,
    ensures
        size_sum(sizes, n) <= size_sum(sizes, m),
    decreases m,
{
    if n < m {
        lemma_size_sum_grows(sizes, n, (m - 1) as nat);
    }
}

/// What reading files of these sizes whole would cost.
pub fn naive_bytes_for_files(sizes: &Vec<u64>) -> (total: u64)
    requires
        size_sum(sizes@, sizes@.len()) <= u64::MAX,
    ensures
        total == size_sum(sizes@, sizes@.len()),
{
    let mut total: u64 = 0;
    let mut i: usize = 0;
    while i < sizes.len()
        invariant
            i <= sizes.len(),
            total == size_sum(sizes@, i as nat),
            size_sum(sizes@, sizes@.len()) <= u64::MAX,
        decreases sizes.len() - i,
    {
        proof {
            lemma_size_sum_grows(sizes@, (i + 1) as nat, sizes@.len());
        }
        total = total + sizes[i];
        i = i + 1;
    }
    total
}

/// The text for people of a query: a header, the hits within the budget, and how many were
/// left out.
pub open spec fn hits_human(
    epoch8: Seq<char>,
    suffix: Seq<char>,
    total: nat,
    text: Seq<char>,
    elided: nat,
) -> Seq<char> {
    let head = "epoch "@ + epoch8 + " — "@ + dec(total) + " hits"@ + suffix + "\n"@;
    let body = if text.len() == 0 {
        head
    } else {
        head + text + "\n"@
    };
    if elided > 0 {
        body + "… elided "@ + dec(elided) + " hits (budget)\n"@
    } else {
        body
    }
}

/// The text for people of a query, and how many hits are in it.
pub fn render_hits_human(epoch8: &str, suffix: &str, total: usize, budgeted: &Budgeted) -> (r: (
    String,
    usize,
))
    requires
        budgeted.elided <= total,
    ensures
        r.0@ == hits_human(
            epoch8@,
            suffix@,
            total as nat,
            budgeted.text@,
            budgeted.elided as nat,
        ),
        r.1 == total - budgeted.elided,
{
    let mut human: String = "epoch ".to_owned();
    human.append(epoch8);
    human.append(" — ");
    push_dec(&mut human, total as u64);
    human.append(" hits");
    human.append(suffix);
    human.append("\n");
    if !budgeted.text.as_str().is_empty() {
        human.append(budgeted.text.as_str());
        human.append("\n");
    }
    if budgeted.elided > 0 {
        human.append("… elided ");
        push_dec(&mut human, budgeted.elided as u64);
        human.append(" hits (budget)\n");
    }
    (human, total - budgeted.elided)
}

/// A hit for programs.
pub open spec fn hit_json(h: HitView) -> JsonView {
    no_fields()
        .with("path"@, JsonView::Text(lossy_text(h.path)))
        .with("line"@, JsonView::Number(h.line))
        .with("col"@, JsonView::Number(h.col))
        .with("text"@, JsonView::Text(h.line_text))
}

/// The answer to a content or structural query: programs get the hits that people see, and
/// the same count of those left out.
pub open spec fn hits_answer(
    hits: Seq<HitView>,
    budget: Option<usize>,
    epoch8: Seq<char>,
    warnings: Seq<Seq<char>>,
    naive: u64,
) -> OutcomeView {
    let (text, elided) = packed(hit_lines(hits), budget);
    let human = hits_human(epoch8, ""@, hits.len(), text, elided);
    let rendered = hits.take(hits.len() - elided);
    OutcomeView {
        human,
        json: no_fields()
            .with("epoch8"@, JsonView::Text(epoch8))
            .with("hits"@, JsonView::List(rendered.map_values(|h: HitView| hit_json(h))))
            .with("elided"@, JsonView::Number(elided)),
        files: file_set(hit_paths(hits)).len(),
        edits: hits.len(),
        epoch8,
        warning: joined_warnings(warnings),
        bytes_out: Some(encode_utf8(human).len() as u64),
        naive_bytes: Some(naive),
    }
}

proof fn lemma_elided(lines: Seq<Seq<char>>, budget: Option<usize>)
    ensures
        packed(lines, budget).1 <= lines.len(),
{
    match budget {
        Some(b) => {
            law_rendering_stays_within_budget(lines, b);
        },
        None => {},
    }
}

fn hit_values(hits: &Vec<QueryHit>, n: usize) -> (list: Vec<Json>)
    requires
        n <= hits@.len(),
    ensures
        views(list@) == views(hits@).take(n as int).map_values(|h: HitView| hit_json(h)),
{
    let ghost all = views(hits@).take(n as int).map_values(|h: HitView| hit_json(h));
    let mut list: Vec<Json> = Vec::new();
    let mut i: usize = 0;
    while i < n
        invariant
            i <= n <= hits@.len(),
            all == views(hits@).take(n as int).map_values(|h: HitView| hit_json(h)),
            views(list@) == all.take(i as int),
        decreases n - i,
    {
        let h = &hits[i];
        let value = Json::object()
            .with("path", Json::text(h.path.display().as_str()))
            .with("line", Json::count(h.line))
            .with("col", Json::count(h.col))
            .with("text", Json::text(h.line_text.as_str()));
        let ghost before = list@;
        list.push(value);
        proof {
            assert(all[i as int] == value@);
            assert(all.take(i + 1) =~= all.take(i as int).push(value@));
            assert(views(list@) =~= views(before).push(value@));
        }
        i = i + 1;
    }
    assert(all.take(n as int) =~= all);
    list
}

/// The answer to a content or structural query. `naive` is what reading the files of the
/// hits whole would cost.
pub fn query_hits_outcome(
    hits: &Vec<QueryHit>,
    budget: Option<usize>,
    epoch8: &str,
    warnings: &Vec<String>,
    naive: u64,
) -> (out: CmdOutcome)
    ensures
        out@ == hits_answer(views(hits@), budget, epoch8@, views(warnings@), naive),
{
    let ghost hv = views(hits@);
    let budgeted = render_hits(hits, budget);
    proof {
        lemma_elided(hit_lines(hv), budget);
        assert(hit_lines(hv).len() == hits@.len());
    }
    let (human, included) = render_hits_human(epoch8, "", hits.len(), &budgeted);
    let list = hit_values(hits, included);
    let json = Json::object()
        .with("epoch8", Json::text(epoch8))
        .with("hits", Json::list(list))
        .with("elided", Json::count(budgeted.elided));
    let files = hit_files(hits);
    assert(files@.len() == files.entries@.len());
    let bytes_out: u64 = human.as_str().as_bytes().len() as u64;
    CmdOutcome {
        human,
        json,
        files: files.entries.len(),
        edits: hits.len(),
        epoch8: epoch8.to_owned(),
        warning: join_warnings(warnings),
        bytes_out: Some(bytes_out),
        naive_bytes: Some(naive),
    }
}

/// A symbol hit for programs; a near miss carries the name it was found by.
pub open spec fn symbol_hit_json(h: SymbolHitView, fuzzy: bool) -> JsonView {
    let value = no_fields()
        .with("path"@, JsonView::Text(lossy_text(h.path)))
        .with("line"@, JsonView::Number(h.symbol.start_line as nat))
        .with("kind"@, JsonView::Text(kind_label(h.symbol.kind)))
        .with("signature"@, JsonView::Text(h.symbol.signature));
    if fuzzy {
        value.with("fuzzy_source"@, JsonView::Text(h.symbol.name))
    } else {
        value
    }
}

/// The answer to a symbol query: the header says when there are near misses only.
pub open spec fn symbol_answer(
    a: AnswerView,
    budget: Option<usize>,
    epoch8: Seq<char>,
    naive: u64,
) -> OutcomeView {
    let (text, elided) = packed(symbol_hit_lines(a.hits), budget);
    let suffix = if a.fuzzy && a.hits.len() > 0 {
        " (fuzzy: no exact match)"@
    } else {
        ""@
    };
    let human = hits_human(epoch8, suffix, a.hits.len(), text, elided);
    let rendered = a.hits.take(a.hits.len() - elided);
    OutcomeView {
        human,
        json: no_fields()
            .with("epoch8"@, JsonView::Text(epoch8))
            .with(
                "hits"@,
                JsonView::List(
                    rendered.map_values(|h: SymbolHitView| symbol_hit_json(h, a.fuzzy)),
                ),
            )
            .with("fuzzy"@, JsonView::Bool(a.fuzzy))
            .with("elided"@, JsonView::Number(elided)),
        files: file_set(symbol_hit_paths(a.hits)).len(),
        edits: a.hits.len(),
        epoch8,
        warning: joined_warnings(a.warnings),
        bytes_out: Some(encode_utf8(human).len() as u64),
        naive_bytes: Some(naive),
    }
}

fn symbol_hit_values(hits: &Vec<SymbolHit>, n: usize, fuzzy: bool) -> (list: Vec<Json>)
    requires
        n <= hits@.len(),
    ensures
        views(list@) == views(hits@).take(n as int).map_values(
            |h: SymbolHitView| symbol_hit_json(h, fuzzy),
        ),
{
    let ghost all = views(hits@).take(n as int).map_values(
        |h: SymbolHitView| symbol_hit_json(h, fuzzy),
    );
    let mut list: Vec<Json> = Vec::new();
    let mut i: usize = 0;
    while i < n
        invariant
            i <= n <= hits@.len(),
            all == views(hits@).take(n as int).map_values(
                |h: SymbolHitView| symbol_hit_json(h, fuzzy),
            ),
            views(list@) == all.take(i as int),
        decreases n - i,
    {
        let h = &hits[i];
        let mut value = Json::object()
            .with("path", Json::text(h.path.display().as_str()))
            .with("line", Json::count(h.symbol.start_line))
            .with("kind", Json::text(symbol_kind_label(&h.symbol.kind).as_str()))
            .with("signature", Json::text(h.symbol.signature.as_str()));
        if fuzzy {
            value = value.with("fuzzy_source", Json::text(h.symbol.name.as_str()));
        }
        let ghost before = list@;
        list.push(value);
        proof {
            assert(all[i as int] == value@);
            assert(all.take(i + 1) =~= all.take(i as int).push(value@));
            assert(views(list@) =~= views(before).push(value@));
        }
        i = i + 1;
    }
    assert(all.take(n as int) =~= all);
    list
}

/// The answer to a symbol query.
pub fn query_symbol_outcome(a: &SymbolAnswer, budget: Option<usize>, epoch8: &str, naive: u64) -> (out:
    CmdOutcome)
    ensures
        out@ == symbol_answer(a@, budget, epoch8@, naive),
{
    let ghost hv = views(a.hits@);
    let n: usize = a.hits.len();
    let budgeted = render_symbol_hits(&a.hits, budget);
    proof {
        lemma_elided(symbol_hit_lines(hv), budget);
        assert(symbol_hit_lines(hv).len() == n);
    }
    let suffix: &str = if a.fuzzy && n > 0 {
        " (fuzzy: no exact match)"
    } else {
        ""
    };
    let (human, included) = render_hits_human(epoch8, suffix, n, &budgeted);
    let list = symbol_hit_values(&a.hits, included, a.fuzzy);
    let json = Json::object()
        .with("epoch8", Json::text(epoch8))
        .with("hits", Json::list(list))
        .with("fuzzy", Json::Bool(a.fuzzy))
        .with("elided", Json::count(budgeted.elided));
    let files = symbol_hit_files(&a.hits);
    assert(files@.len() == files.entries@.len());
    let bytes_out: u64 = human.as_str().as_bytes().len() as u64;
    CmdOutcome {
        human,
        json,
        files: files.entries.len(),
        edits: n,
        epoch8: epoch8.to_owned(),
        warning: join_warnings(&a.warnings),
        bytes_out: Some(bytes_out),
        naive_bytes: Some(naive),
    }
}

/// People and programs get the same hits: the text is the lines of exactly those hits that
/// programs get, and together with those left out they are all.
pub proof fn law_people_and_programs_get_the_same_hits(hits: Seq<HitView>, budget: Option<usize>)
    ensures
        ({
            let (text, elided) = packed(hit_lines(hits), budget);
            let rendered = hits.take(hits.len() - elided);
            &&& elided <= hits.len()
            &&& rendered.len() + elided == hits.len()
            &&& text == joined_with(hit_lines(rendered), "\n"@)
        }),
{
    let lines = hit_lines(hits);
    lemma_elided(lines, budget);
    let (text, elided) = packed(lines, budget);
    let n = hits.len() - elided;
    assert(hit_lines(hits.take(n)) =~= lines.take(n));
    match budget {
        Some(b) => {
            assert forall|i: int| 0 <= i < lines.len() implies (#[trigger] lines[i]).len() > 0 by {
                reveal_strlit(":");
                assert(lines[i] == hit_line(hits[i]));
            }
            law_rendering_is_the_longest_prefix(lines, b);
        },
        None => {
            assert(lines.take(n) =~= lines);
        },
    }
}

/// People and programs get the same symbol hits as well.
pub proof fn law_people_and_programs_get_the_same_symbols(
    hits: Seq<SymbolHitView>,
    budget: Option<usize>,
)
    ensures
        ({
            let (text, elided) = packed(symbol_hit_lines(hits), budget);
            let rendered = hits.take(hits.len() - elided);
            &&& elided <= hits.len()
            &&& rendered.len() + elided == hits.len()
            &&& text == joined_with(symbol_hit_lines(rendered), "\n"@)
        }),
{
    let lines = symbol_hit_lines(hits);
    lemma_elided(lines, budget);
    let (text, elided) = packed(lines, budget);
    let n = hits.len() - elided;
    assert(symbol_hit_lines(hits.take(n)) =~= lines.take(n));
    match budget {
        Some(b) => {
            assert forall|i: int| 0 <= i < lines.len() implies (#[trigger] lines[i]).len() > 0 by {
                reveal_strlit(":");
                assert(lines[i] == symbol_hit_line(hits[i]));
            }
            law_rendering_is_the_longest_prefix(lines, b);
        },
        None => {
            assert(lines.take(n) =~= lines);
        },
    }
}

/// What an answer gives programs: the number of hits left out, and the values of the others.
pub open spec fn told(out: OutcomeView, elided: nat, values: Seq<JsonView>) -> bool {
    &&& field_of(out.json, "elided"@) == Some(JsonView::Number(elided))
    &&& field_of(out.json, "hits"@) == Some(JsonView::List(values))
}

/// Whether a value tells of a hit.
pub open spec fn tells_of_hit(j: JsonView, h: HitView) -> bool {
    &&& field_of(j, "path"@) == Some(JsonView::Text(lossy_text(h.path)))
    &&& field_of(j, "line"@) == Some(JsonView::Number(h.line))
    &&& field_of(j, "col"@) == Some(JsonView::Number(h.col))
    &&& field_of(j, "text"@) == Some(JsonView::Text(h.line_text))
}

/// Whether a value tells of a symbol hit.
pub open spec fn tells_of_symbol(j: JsonView, h: SymbolHitView, fuzzy: bool) -> bool {
    &&& field_of(j, "path"@) == Some(JsonView::Text(lossy_text(h.path)))
    &&& field_of(j, "line"@) == Some(JsonView::Number(h.symbol.start_line as nat))
    &&& field_of(j, "signature"@) == Some(JsonView::Text(h.symbol.signature))
    &&& field_of(j, "fuzzy_source"@) == if fuzzy {
        Some(JsonView::Text(h.symbol.name))
    } else {
        None
    }
}

proof fn lemma_hit_fields(h: HitView)
    ensures
        tells_of_hit(hit_json(h), h),
{
    reveal_strlit("path");
    reveal_strlit("line");
    reveal_strlit("col");
    reveal_strlit("text");
    let fields = hit_json(h)->Object_0;
    assert("path"@[0] != "line"@[0] && "path"@[0] != "text"@[0] && "line"@[0] != "text"@[0]);
    law_a_field_is_found_under_its_key(fields, "path"@, 0);
    law_a_field_is_found_under_its_key(fields, "line"@, 1);
    law_a_field_is_found_under_its_key(fields, "col"@, 2);
    law_a_field_is_found_under_its_key(fields, "text"@, 3);
}

proof fn lemma_symbol_fields(h: SymbolHitView, fuzzy: bool)
    ensures
        tells_of_symbol(symbol_hit_json(h, fuzzy), h, fuzzy),
{
    reveal_strlit("path");
    reveal_strlit("line");
    reveal_strlit("kind");
    reveal_strlit("signature");
    reveal_strlit("fuzzy_source");
    let fields = symbol_hit_json(h, fuzzy)->Object_0;
    assert("path"@[0] != "line"@[0]);
    assert("path"@.len() == 4 && "line"@.len() == 4 && "kind"@.len() == 4);
    assert("signature"@.len() == 9 && "fuzzy_source"@.len() == 12);
    law_a_field_is_found_under_its_key(fields, "path"@, 0);
    law_a_field_is_found_under_its_key(fields, "line"@, 1);
    law_a_field_is_found_under_its_key(fields, "signature"@, 3);
    law_a_field_is_found_under_its_key(fields, "fuzzy_source"@, 4);
}

/// An answer gives every hit or counts it: programs get a value for each hit from the first
/// on, with its path, line, column and text, and the number of those after them; without a
/// budget none is left out, and people get the line of every one. All are counted as found,
/// and the files are counted over all of them.
pub proof fn law_an_answer_gives_every_hit_or_counts_it(
    hits: Seq<HitView>,
    budget: Option<usize>,
    epoch8: Seq<char>,
    warnings: Seq<Seq<char>>,
    naive: u64,
)
    ensures
        ({
            let out = hits_answer(hits, budget, epoch8, warnings, naive);
            let text = joined_with(hit_lines(hits), "\n"@);
            &&& out.edits == hits.len()
            &&& out.files == file_set(hits.map_values(|h: HitView| h.path)).len()
            &&& out.epoch8 == epoch8
            &&& budget is None ==> out.human == "epoch "@ + epoch8 + " — "@ + dec(hits.len())
                + " hits\n"@ + (if text.len() == 0 {
                Seq::empty()
            } else {
                text + "\n"@
            })
            &&& exists|elided: nat, values: Seq<JsonView>| #[trigger]
                told(out, elided, values) && values.len() + elided == hits.len() && (budget is None
                    ==> elided == 0) && forall|i: int|
                    0 <= i < values.len() ==> tells_of_hit(#[trigger] values[i], hits[i])
        }),
{
    reveal_strlit("epoch8");
    reveal_strlit("hits");
    reveal_strlit("elided");
    let out = hits_answer(hits, budget, epoch8, warnings, naive);
    let lines = hit_lines(hits);
    let (text, elided) = packed(lines, budget);
    lemma_elided(lines, budget);
    let values = hits.take(hits.len() - elided).map_values(|h: HitView| hit_json(h));
    let fields = out.json->Object_0;
    assert("epoch8"@[1] != "elided"@[1]);
    law_a_field_is_found_under_its_key(fields, "hits"@, 1);
    law_a_field_is_found_under_its_key(fields, "elided"@, 2);
    if budget is None {
        reveal_strlit("");
        reveal_strlit(" hits");
        reveal_strlit("\n");
        reveal_strlit(" hits\n");
        assert(" hits"@ + ""@ + "\n"@ =~= " hits\n"@);
        let head = "epoch "@ + epoch8 + " — "@ + dec(hits.len());
        assert(head + " hits"@ + ""@ + "\n"@ =~= head + " hits\n"@);
        assert(head + " hits\n"@ + Seq::<char>::empty() =~= head + " hits\n"@);
        assert(head + " hits\n"@ + text + "\n"@ =~= head + " hits\n"@ + (text + "\n"@));
    }
    assert(told(out, elided, values));
    assert forall|i: int| 0 <= i < values.len() implies tells_of_hit(
        #[trigger] values[i],
        hits[i],
    ) by {
        lemma_hit_fields(hits[i]);
    }
}

/// A symbol answer gives every symbol hit or counts it, in the same way, and says whether
/// they are near misses.
pub proof fn law_an_answer_gives_every_symbol_or_counts_it(
    a: AnswerView,
    budget: Option<usize>,
    epoch8: Seq<char>,
    naive: u64,
)
    ensures
        ({
            let out = symbol_answer(a, budget, epoch8, naive);
            &&& out.edits == a.hits.len()
            &&& out.epoch8 == epoch8
            &&& field_of(out.json, "fuzzy"@) == Some(JsonView::Bool(a.fuzzy))
            &&& exists|elided: nat, values: Seq<JsonView>| #[trigger]
                told(out, elided, values) && values.len() + elided == a.hits.len() && (
                budget is None ==> elided == 0) && forall|i: int|
                    0 <= i < values.len() ==> tells_of_symbol(
                        #[trigger] values[i],
                        a.hits[i],
                        a.fuzzy,
                    )
        }),
{
    reveal_strlit("epoch8");
    reveal_strlit("hits");
    reveal_strlit("fuzzy");
    reveal_strlit("elided");
    let out = symbol_answer(a, budget, epoch8, naive);
    let lines = symbol_hit_lines(a.hits);
    let (text, elided) = packed(lines, budget);
    lemma_elided(lines, budget);
    let values = a.hits.take(a.hits.len() - elided).map_values(
        |h: SymbolHitView| symbol_hit_json(h, a.fuzzy),
    );
    let fields = out.json->Object_0;
    assert("epoch8"@[1] != "elided"@[1]);
    law_a_field_is_found_under_its_key(fields, "hits"@, 1);
    assert("epoch8"@.len() == 6 && "hits"@.len() == 4 && "fuzzy"@.len() == 5);
    law_a_field_is_found_under_its_key(fields, "fuzzy"@, 2);
    law_a_field_is_found_under_its_key(fields, "elided"@, 3);
    assert(told(out, elided, values));
    assert forall|i: int| 0 <= i < values.len() implies tells_of_symbol(
        #[trigger] values[i],
        a.hits[i],
        a.fuzzy,
    ) by {
        lemma_symbol_fields(a.hits[i], a.fuzzy);
    }
}

/// The files of an answer are exactly those its paths name.
pub proof fn law_the_file_set_has_no_other_file(paths: Seq<Seq<u8>>, r: RankView)
    ensures
        lookup::<TreePath, bool>(file_set(paths), r) is Some <==> exists|k: int|
            0 <= k < paths.len() && path_rank(#[trigger] paths[k]) == r,
{
    lemma_files_named(paths, 0, seq![], r);
}

proof fn lemma_files_named(paths: Seq<Seq<u8>>, i: int, done: Seq<(Seq<u8>, bool)>, r: RankView)
    requires
        0 <= i <= paths.len(),
        keys_ascend::<TreePath, bool>(done),
        lookup::<TreePath, bool>(done, r) is Some <==> exists|k: int|
            0 <= k < i && path_rank(#[trigger] paths[k]) == r,
    ensures
        lookup::<TreePath, bool>(files_from(paths, i, done), r) is Some <==> exists|k: int|
            0 <= k < paths.len() && path_rank(#[trigger] paths[k]) == r,
    decreases paths.len() - i,
{
    if i < paths.len() {
        let next = stored::<TreePath, bool>(done, paths[i], true);
        law_stored_reads_back::<TreePath, bool>(done, paths[i], true, r);
        assert(path_rank(paths[i]) == TreePath::rank_at(paths[i]));
        if path_rank(paths[i]) != r {
            assert(lookup::<TreePath, bool>(next, r) == lookup::<TreePath, bool>(done, r));
        }
        lemma_files_named(paths, i + 1, next, r);
    }
}

/// Reading files whole costs the sum of all their sizes.
pub proof fn law_every_size_is_summed(sizes: Seq<u64>)
    ensures
        size_sum(sizes, sizes.len()) == sizes.fold_left(0, |sum: int, n: u64| sum + n),
{
    lemma_size_sum(sizes, sizes.len());
    assert(sizes.take(sizes.len() as int) =~= sizes);
}

proof fn lemma_size_sum(sizes: Seq<u64>, n: nat)
    requires
        n <= sizes.len(),
    ensures
        size_sum(sizes, n) == sizes.take(n as int).fold_left(0, |sum: int, n: u64| sum + n),
    decreases n,
{
    reveal(Seq::fold_left);
    if n > 0 {
        lemma_size_sum(sizes, (n - 1) as nat);
        assert(sizes.take(n as int).drop_last() =~= sizes.take(n - 1));
    }
}

/// A search is of one kind: it is refused exactly when two kinds are asked for, or a language
/// for one that is not structural; and otherwise it is the kind that was asked for.
pub proof fn law_a_search_is_of_one_kind(regex: bool, symbol: bool, ast: bool, has_lang: bool)
    ensures
        mode_of(regex, symbol, ast, has_lang) is Err <==> regex && symbol || regex && ast || symbol
            && ast || has_lang && !ast,
        mode_of(regex, symbol, ast, has_lang) matches Ok(m) ==> {
            &&& m == QueryMode::Regex <==> regex
            &&& m == QueryMode::Symbol <==> symbol
            &&& m == QueryMode::Ast <==> ast
            &&& m == QueryMode::Literal <==> !regex && !symbol && !ast
        },
{
}

} // verus!
