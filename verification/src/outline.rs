//! The skeleton of a source file: one line per symbol, nested by containment, within a token
//! budget.

use crate::errors::{refusal, ErrorKind, ErrorView, VcError, VcResult};
use crate::order::{
    law_stable_sort_orders_and_keeps_items, lemma_stable_sort_members, rank_less, stable_sort,
    stable_sorted, views, Rank, RankView, Ranked,
};
use crate::render::{text_tokens, tokens_est};
use crate::strings::{finishes_with, join, joined_with, strip_suffix};
use crate::symbols::{rust_tree, symbols, symbols_of, Symbol, SymbolView, SyntaxTree};
use crate::text::{dec, push_dec, same_text};
use vstd::prelude::*;
use vstd::string::*;
use vstd::utf8::*;

verus! {

/// The ends of the symbols that are still open where one starts on `line`: what ends before
/// that is closed, from the innermost out.
pub open spec fn still_open(ends: Seq<usize>, line: usize) -> Seq<usize>
    decreases ends.len(),
{
    if ends.len() > 0 && line > ends.last() {
        still_open(ends.drop_last(), line)
    } else {
        ends
    }
}

/// The ends of the symbols that are open after the first `n`.
pub open spec fn open_after(syms: Seq<SymbolView>, n: nat) -> Seq<usize>
    decreases n,
{
    if n == 0 {
        seq![]
    } else {
        still_open(open_after(syms, (n - 1) as nat), syms[n - 1].start_line).push(
            syms[n - 1].end_line,
        )
    }
}

/// How deep symbol `i` is nested: the number of earlier symbols that are still open where it
/// starts.
pub open spec fn depth_of(syms: Seq<SymbolView>, i: int) -> nat {
    still_open(open_after(syms, i as nat), syms[i].start_line).len()
}

/// Closes what ends before `line`.
fn close_before(ends: &mut Vec<usize>, line: usize)
    ensures
        final(ends)@ == still_open(old(ends)@, line),
{
    let ghost all = ends@;
    while ends.len() > 0 && line > ends[ends.len() - 1]
        invariant
            still_open(all, line) == still_open(ends@, line),
        decreases ends.len(),
    {
        let ghost before = ends@;
        ends.pop();
        assert(ends@ =~= before.drop_last());
    }
}

/// How deep each symbol is nested; symbols stand in document order, an enclosing one before
/// what is inside it.
pub fn build_forest(syms: &Vec<Symbol>) -> (depths: Vec<usize>)
    ensures
        depths@.len() == syms@.len(),
        forall|i: int| 0 <= i < depths@.len() ==> #[trigger] depths@[i] == depth_of(
            views(syms@),
            i,
        ),
{
    let ghost sv = views(syms@);
    let mut ends: Vec<usize> = Vec::new();
    let mut depths: Vec<usize> = Vec::new();
    let mut i: usize = 0;
    assert(ends@ =~= Seq::<usize>::empty());
    while i < syms.len()
        invariant
            i <= syms.len(),
            sv == views(syms@),
            depths@.len() == i,
            ends@ == open_after(sv, i as nat),
            forall|k: int| 0 <= k < i ==> #[trigger] depths@[k] == depth_of(sv, k),
        decreases syms.len() - i,
    {
        let sym = &syms[i];
        assert(sv[i as int] == sym@);
        close_before(&mut ends, sym.start_line);
        depths.push(ends.len());
        ends.push(sym.end_line);
        i = i + 1;
    }
    depths
}

/// `n` times two spaces.
pub open spec fn indent(n: nat) -> Seq<char> {
    Seq::new(2 * n, |i: int| ' ')
}

/// The number of lines of a symbol.
pub open spec fn line_span(s: SymbolView) -> nat {
    let n = if s.end_line >= s.start_line {
        (s.end_line - s.start_line) as nat
    } else {
        0
    };
    if n < usize::MAX {
        n + 1
    } else {
        n
    }
}

/// The line of a symbol: its first line, its header, and how many lines it has unless it has
/// no body.
pub open spec fn symbol_line(s: SymbolView, depth: nat) -> Seq<char> {
    let head = indent(depth) + dec(s.start_line as nat) + ": "@ + s.signature;
    if finishes_with(s.signature, ";"@) {
        head
    } else {
        head + " { … "@ + dec(line_span(s)) + " lines }"@
    }
}

/// The line of a symbol.
pub fn render_line(sym: &Symbol, depth: usize) -> (line: String)
    ensures
        line@ == symbol_line(sym@, depth as nat),
{
    let mut s: String = String::new();
    let mut k: usize = 0;
    assert(s@ =~= indent(0));
    while k < depth
        invariant
            k <= depth,
            s@ == indent(k as nat),
        decreases depth - k,
    {
        s.push(' ');
        s.push(' ');
        assert(s@ =~= indent((k + 1) as nat));
        k = k + 1;
    }
    push_dec(&mut s, sym.start_line as u64);
    s.append(": ");
    s.append(sym.signature.as_str());
    if strip_suffix(sym.signature.as_str(), ";").is_some() {
        return s;
    }
    let n: usize = sym.end_line.saturating_sub(sym.start_line).saturating_add(1);
    s.append(" { … ");
    push_dec(&mut s, n as u64);
    s.append(" lines }");
    s
}

/// One line of a skeleton.
#[derive(Debug, Clone)]
pub struct Line {
    pub depth: usize,
    pub text: String,
}

/// What a [`Line`] says.
pub struct LineView {
    pub depth: usize,
    pub text: Seq<char>,
}

impl View for Line {
    type V = LineView;

    open spec fn view(&self) -> LineView {
        LineView { depth: self.depth, text: self.text@ }
    }
}

/// A line's place in the order in which lines are dropped.
pub struct DropKey {
    pub depth: usize,
    pub at: usize,
}

/// What a [`DropKey`] says.
pub struct DropView {
    pub depth: usize,
    pub at: usize,
}

impl View for DropKey {
    type V = DropView;

    open spec fn view(&self) -> DropView {
        DropView { depth: self.depth, at: self.at }
    }
}

/// The deepest line is dropped first, and of equally deep ones the last.
impl Ranked for DropKey {
    open spec fn rank_at(v: DropView) -> RankView {
        RankView {
            list: seq![],
            major: (u64::MAX - v.depth) as nat,
            minor: (u64::MAX - v.at) as nat,
        }
    }

    fn rank_of(&self) -> (r: Rank) {
        let r = Rank {
            list: Vec::new(),
            major: u64::MAX - self.depth as u64,
            minor: u64::MAX - self.at as u64,
        };
        assert(r@.list =~= Seq::<Seq<u8>>::empty());
        r
    }
}

/// The keys of the lines, in their order.
pub open spec fn drop_keys(lines: Seq<LineView>) -> Seq<DropView> {
    Seq::new(lines.len(), |i: int| DropView { depth: lines[i].depth, at: i as usize })
}

/// The order in which lines are dropped.
pub open spec fn drop_order(lines: Seq<LineView>) -> Seq<DropView> {
    stable_sorted::<DropKey>(drop_keys(lines))
}

/// Which lines are kept after the first `k` of the order are dropped.
pub open spec fn kept_after(len: nat, order: Seq<DropView>, k: nat) -> Seq<bool>
    decreases k,
{
    if k == 0 {
        Seq::new(len, |i: int| true)
    } else {
        kept_after(len, order, (k - 1) as nat).update(order[k - 1].at as int, false)
    }
}

/// The texts of the kept ones among the first `n` lines.
pub open spec fn kept_texts(lines: Seq<LineView>, kept: Seq<bool>, n: nat) -> Seq<Seq<char>>
    decreases n,
{
    if n == 0 {
        seq![]
    } else {
        let before = kept_texts(lines, kept, (n - 1) as nat);
        if kept[n - 1] {
            before.push(lines[n - 1].text)
        } else {
            before
        }
    }
}

/// The skeleton with the first `k` of the drop order left out.
pub open spec fn skeleton(lines: Seq<LineView>, k: nat) -> Seq<char> {
    joined_with(
        kept_texts(lines, kept_after(lines.len(), drop_order(lines), k), lines.len()),
        "\n"@,
    )
}

/// The smallest number of lines, `k` or more, that have to be dropped to fit the budget; all
/// of them when nothing less fits.
pub open spec fn drops_needed(lines: Seq<LineView>, budget: nat, k: nat) -> nat
    decreases lines.len() - k,
{
    if k >= lines.len() || text_tokens(skeleton(lines, k)) <= budget {
        k
    } else {
        drops_needed(lines, budget, k + 1)
    }
}

/// A skeleton within a budget, and how many lines were dropped for it.
pub open spec fn fitted(lines: Seq<LineView>, budget: Option<usize>) -> (Seq<char>, nat) {
    match budget {
        None => (skeleton(lines, 0), 0),
        Some(b) => {
            let k = drops_needed(lines, b as nat, 0);
            (skeleton(lines, k), k)
        },
    }
}

fn join_kept(lines: &Vec<Line>, kept: &Vec<bool>) -> (text: String)
    requires
        kept@.len() == lines@.len(),
    ensures
        text@ == joined_with(kept_texts(views(lines@), kept@, lines@.len()), "\n"@),
{
    let ghost lv = views(lines@);
    let mut list: Vec<String> = Vec::new();
    let mut i: usize = 0;
    assert(views(list@) =~= Seq::<Seq<char>>::empty());
    while i < lines.len()
        invariant
            i <= lines.len(),
            kept@.len() == lines@.len(),
            lv == views(lines@),
            views(list@) == kept_texts(lv, kept@, i as nat),
        decreases lines.len() - i,
    {
        assert(lv[i as int] == lines@[i as int]@);
        if kept[i] {
            let ghost before = views(list@);
            list.push(lines[i].text.clone());
            assert(views(list@) =~= before.push(lines@[i as int].text@));
        }
        i = i + 1;
    }
    join(&list, "\n")
}

fn order_of(lines: &Vec<Line>) -> (order: Vec<DropKey>)
    ensures
        views(order@) == drop_order(views(lines@)),
        order@.len() == lines@.len(),
        forall|i: int| 0 <= i < order@.len() ==> (#[trigger] order@[i]).at < lines@.len(),
{
    let ghost lv = views(lines@);
    let ghost wanted = drop_keys(lv);
    let mut keys: Vec<DropKey> = Vec::new();
    let mut i: usize = 0;
    assert(views(keys@) =~= wanted.take(0));
    while i < lines.len()
        invariant
            i <= lines.len(),
            lv == views(lines@),
            wanted == drop_keys(lv),
            views(keys@) == wanted.take(i as int),
        decreases lines.len() - i,
    {
        let ghost before = views(keys@);
        let key = DropKey { depth: lines[i].depth, at: i };
        keys.push(key);
        proof {
            assert(lv[i as int].depth == lines@[i as int].depth);
            assert(views(keys@) =~= before.push(key@));
            assert(wanted.take(i + 1) =~= wanted.take(i as int).push(wanted[i as int]));
        }
        i = i + 1;
    }
    proof {
        assert(wanted.take(lines@.len() as int) =~= wanted);
        lemma_stable_sort_members::<DropKey>(wanted);
    }
    let order = stable_sort(keys);
    assert forall|k: int| 0 <= k < order@.len() implies (#[trigger] order@[k]).at < lines@.len() by {
        let v = views(order@)[k];
        assert(v == order@[k]@);
        assert(wanted.contains(v));
        let j = wanted.index_of(v);
        assert(wanted[j].at == j);
    }
    order
}

/// Renders a skeleton within a budget: lines are dropped whole, the deepest first and of
/// equally deep ones the last, until the rest fits.
pub fn render_budgeted(lines: &Vec<Line>, budget: Option<usize>) -> (r: (String, usize))
    ensures
        r.0@ == fitted(views(lines@), budget).0,
        r.1 == fitted(views(lines@), budget).1,
{
    let ghost lv = views(lines@);
    let order = order_of(lines);
    let ghost ov = views(order@);
    let mut kept: Vec<bool> = Vec::new();
    let mut i: usize = 0;
    while i < lines.len()
        invariant
            i <= lines.len(),
            kept@.len() == i,
            forall|k: int| 0 <= k < i ==> kept@[k],
        decreases lines.len() - i,
    {
        kept.push(true);
        i = i + 1;
    }
    assert(kept@ =~= kept_after(lv.len(), ov, 0));
    let mut text = join_kept(lines, &kept);
    let limit: usize = match budget {
        Some(limit) => limit,
        None => {
            return (text, 0);
        },
    };
    let mut k: usize = 0;
    while k < lines.len() && tokens_est(text.as_str().as_bytes().len()) > limit
        invariant
            k <= lines.len(),
            lv == views(lines@),
            ov == views(order@),
            ov == drop_order(lv),
            order@.len() == lines@.len(),
            forall|j: int| 0 <= j < order@.len() ==> (#[trigger] order@[j]).at < lines@.len(),
            kept@.len() == lines@.len(),
            kept@ == kept_after(lv.len(), ov, k as nat),
            text@ == skeleton(lv, k as nat),
            drops_needed(lv, limit as nat, 0) == drops_needed(lv, limit as nat, k as nat),
        decreases lines.len() - k,
    {
        assert(ov[k as int] == order@[k as int]@);
        assert(order@[k as int].at < lines@.len());
        kept.set(order[k].at, false);
        k = k + 1;
        text = join_kept(lines, &kept);
    }
    (text, k)
}

proof fn lemma_nothing_kept(lines: Seq<LineView>, kept: Seq<bool>, n: nat)
    requires
        n <= lines.len(),
        kept.len() == lines.len(),
        forall|i: int| 0 <= i < lines.len() ==> !kept[i],
    ensures
        kept_texts(lines, kept, n).len() == 0,
    decreases n,
{
    if n > 0 {
        lemma_nothing_kept(lines, kept, (n - 1) as nat);
    }
}

proof fn lemma_kept_after(len: nat, order: Seq<DropView>, k: nat, i: int)
    requires
        0 <= i < len,
        k <= order.len(),
        forall|j: int| 0 <= j < order.len() ==> (#[trigger] order[j]).at < len,
    ensures
        kept_after(len, order, k).len() == len,
        kept_after(len, order, k)[i] <==> forall|j: int|
            0 <= j < k ==> (#[trigger] order[j]).at != i,
    decreases k,
{
    if k > 0 {
        lemma_kept_after(len, order, (k - 1) as nat, i);
        let was = kept_after(len, order, (k - 1) as nat);
        if was[i] && order[k - 1].at != i {
            assert forall|j: int| 0 <= j < k implies (#[trigger] order[j]).at != i by {}
        }
    }
}

proof fn lemma_every_line_has_a_turn(lines: Seq<LineView>, i: int)
    requires
        0 <= i < lines.len(),
        lines.len() <= usize::MAX,
    ensures
        exists|j: int|
            0 <= j < lines.len() && (#[trigger] drop_order(lines)[j]).at == i && drop_order(
                lines,
            )[j].depth == lines[i].depth,
{
    broadcast use vstd::seq_lib::group_to_multiset_ensures;

    let keys = drop_keys(lines);
    law_stable_sort_orders_and_keeps_items::<DropKey>(keys);
    assert(keys.contains(keys[i]));
    assert(keys.to_multiset().count(keys[i]) > 0);
    assert(drop_order(lines).contains(keys[i]));
    let j = drop_order(lines).index_of(keys[i]);
    assert(drop_order(lines)[j] == keys[i]);
}

proof fn lemma_order_in_range(lines: Seq<LineView>)
    requires
        lines.len() <= usize::MAX,
    ensures
        drop_order(lines).len() == lines.len(),
        forall|j: int|
            0 <= j < lines.len() ==> (#[trigger] drop_order(lines)[j]).at < lines.len()
                && drop_order(lines)[j].depth == lines[drop_order(lines)[j].at as int].depth,
{
    let keys = drop_keys(lines);
    lemma_stable_sort_members::<DropKey>(keys);
    assert forall|j: int| 0 <= j < lines.len() implies (#[trigger] drop_order(lines)[j]).at
        < lines.len() && drop_order(lines)[j].depth == lines[drop_order(
        lines,
    )[j].at as int].depth by {
        assert(keys.contains(drop_order(lines)[j]));
        let k = keys.index_of(drop_order(lines)[j]);
        assert(keys[k] == drop_order(lines)[j]);
    }
}

proof fn lemma_drops_fit(lines: Seq<LineView>, budget: nat, k: nat)
    requires
        k <= lines.len(),
        lines.len() <= usize::MAX,
    ensures
        drops_needed(lines, budget, k) <= lines.len(),
        text_tokens(skeleton(lines, drops_needed(lines, budget, k))) <= budget,
    decreases lines.len() - k,
{
    if k == lines.len() {
        let order = drop_order(lines);
        lemma_order_in_range(lines);
        let kept = kept_after(lines.len(), order, k);
        assert(kept.len() == lines.len()) by {
            if lines.len() > 0 {
                lemma_kept_after(lines.len(), order, k, 0);
            }
        }
        assert forall|i: int| 0 <= i < lines.len() implies !kept[i] by {
            lemma_every_line_has_a_turn(lines, i);
            lemma_kept_after(lines.len(), order, k, i);
        }
        lemma_nothing_kept(lines, kept, lines.len());
        assert(skeleton(lines, k) =~= Seq::<char>::empty());
        assert(encode_utf8(Seq::<char>::empty()) =~= Seq::<u8>::empty());
    } else if text_tokens(skeleton(lines, k)) > budget {
        lemma_drops_fit(lines, budget, k + 1);
    }
}

/// A skeleton always fits its budget, and no line that was dropped is less deeply nested
/// than one that was kept.
pub proof fn law_skeleton_fits_and_drops_the_deepest_first(
    lines: Seq<LineView>,
    budget: usize,
    dropped: int,
    kept: int,
)
    requires
        lines.len() <= usize::MAX,
    ensures
        text_tokens(fitted(lines, Some(budget)).0) <= budget,
        fitted(lines, Some(budget)).1 <= lines.len(),
        ({
            let flags = kept_after(
                lines.len(),
                drop_order(lines),
                fitted(lines, Some(budget)).1,
            );
            0 <= dropped < lines.len() && 0 <= kept < lines.len() && !flags[dropped]
                && flags[kept] ==> lines[dropped].depth >= lines[kept].depth
        }),
{
    lemma_drops_fit(lines, budget as nat, 0);
    let k = drops_needed(lines, budget as nat, 0);
    let order = drop_order(lines);
    lemma_order_in_range(lines);
    law_stable_sort_orders_and_keeps_items::<DropKey>(drop_keys(lines));
    if 0 <= dropped < lines.len() && 0 <= kept < lines.len() {
        lemma_kept_after(lines.len(), order, k, dropped);
        lemma_kept_after(lines.len(), order, k, kept);
        let flags = kept_after(lines.len(), order, k);
        if !flags[dropped] && flags[kept] {
            let j = choose|j: int| 0 <= j < k && (#[trigger] order[j]).at == dropped;
            lemma_every_line_has_a_turn(lines, kept);
            let m = choose|m: int|
                0 <= m < lines.len() && (#[trigger] order[m]).at == kept && order[m].depth
                    == lines[kept].depth;
            assert(m >= k);
            assert(!rank_less(DropKey::rank_at(order[m]), DropKey::rank_at(order[j])));
        }
    }
}

/// The refusal for a language without skeletons.
pub open spec fn no_outline() -> ErrorView {
    refusal(ErrorKind::Usage, "outline: unsupported language — vc read the file instead"@)
}

/// The lines of a list of symbols.
pub open spec fn symbol_lines(syms: Seq<SymbolView>) -> Seq<LineView> {
    Seq::new(
        syms.len(),
        |i: int|
            LineView {
                depth: depth_of(syms, i) as usize,
                text: symbol_line(syms[i], depth_of(syms, i)),
            },
    )
}

/// The skeleton of a source whose syntax tree is `tree`.
pub open spec fn outlined(
    src: Seq<char>,
    lang: Seq<char>,
    tree: Option<SyntaxTree>,
    budget: Option<usize>,
) -> Result<(Seq<char>, nat), ErrorView> {
    if lang != "rust"@ {
        Err(no_outline())
    } else {
        match symbols_of(src, lang, tree) {
            Err(e) => Err(e),
            Ok(syms) => Ok(fitted(symbol_lines(syms), budget)),
        }
    }
}

/// The skeleton of a list of symbols within a budget, and how many lines were dropped.
pub fn outline_symbols(syms: &Vec<Symbol>, budget: Option<usize>) -> (r: (String, usize))
    ensures
        r.0@ == fitted(symbol_lines(views(syms@)), budget).0,
        r.1 == fitted(symbol_lines(views(syms@)), budget).1,
{
    let ghost sv = views(syms@);
    let ghost wanted = symbol_lines(sv);
    let depths = build_forest(syms);
    let mut lines: Vec<Line> = Vec::new();
    let mut i: usize = 0;
    assert(views(lines@) =~= wanted.take(0));
    while i < syms.len()
        invariant
            i <= syms.len(),
            sv == views(syms@),
            wanted == symbol_lines(sv),
            depths@.len() == syms@.len(),
            forall|k: int| 0 <= k < depths@.len() ==> #[trigger] depths@[k] == depth_of(sv, k),
            views(lines@) == wanted.take(i as int),
        decreases syms.len() - i,
    {
        assert(sv[i as int] == syms@[i as int]@);
        let depth: usize = depths[i];
        let line = Line { depth, text: render_line(&syms[i], depth) };
        let ghost before = views(lines@);
        lines.push(line);
        proof {
            assert(views(lines@) =~= before.push(line@));
            assert(wanted.take(i + 1) =~= wanted.take(i as int).push(wanted[i as int]));
        }
        i = i + 1;
    }
    assert(wanted.take(syms@.len() as int) =~= wanted);
    render_budgeted(&lines, budget)
}

/// The skeleton of a source within a budget, and how many lines were dropped.
pub fn outline(src: &str, lang: &str, budget: Option<usize>) -> (r: VcResult<(String, usize)>)
    ensures
        match (outlined(src@, lang@, rust_tree(src@), budget), r) {
            (Ok(v), Ok((text, n))) => text@ == v.0 && n == v.1,
            (Err(e), Err(f)) => f@ == e,
            _ => false,
        },
{
    if !same_text(lang, "rust") {
        return Err(
            VcError::new(
                ErrorKind::Usage,
                "outline: unsupported language — vc read the file instead".to_owned(),
            ),
        );
    }
    match symbols(src, lang) {
        Ok(syms) => Ok(outline_symbols(&syms, budget)),
        Err(e) => Err(e),
    }
}

/// The places of the kept lines, in order.
pub open spec fn kept_places(kept: Seq<bool>) -> Seq<int> {
    Seq::new(kept.len(), |i: int| i).filter(|i: int| kept[i])
}

/// Whether `text` shows the lines but for `k` of them: all others in order, one per line, and
/// none left out while one that is deeper, or as deep and further down, is shown.
pub open spec fn shows_all_but(
    lines: Seq<LineView>,
    kept: Seq<bool>,
    k: nat,
    text: Seq<char>,
) -> bool {
    &&& kept.len() == lines.len()
    &&& kept.filter(|b: bool| !b).len() == k
    &&& text == joined_with(kept_places(kept).map_values(|i: int| lines[i].text), "\n"@)
    &&& forall|i: int, j: int|
        #![trigger kept[i], kept[j]]
        0 <= i < lines.len() && 0 <= j < lines.len() && !kept[i] && kept[j] ==> lines[i].depth
            > lines[j].depth || lines[i].depth == lines[j].depth && i > j
}

proof fn lemma_kept_texts(lines: Seq<LineView>, kept: Seq<bool>, n: nat)
    requires
        n <= lines.len(),
        kept.len() == lines.len(),
    ensures
        kept_texts(lines, kept, n) == Seq::new(n, |i: int| i).filter(
            |i: int| kept[i],
        ).map_values(|i: int| lines[i].text),
    decreases n,
{
    reveal(Seq::filter);
    let keep = |i: int| kept[i];
    let text = |i: int| lines[i].text;
    let all = Seq::new(n, |i: int| i);
    if n > 0 {
        let before = Seq::new((n - 1) as nat, |i: int| i);
        lemma_kept_texts(lines, kept, (n - 1) as nat);
        assert(all.drop_last() =~= before);
        assert(all.last() == n - 1);
        let out = all.filter(keep).map_values(text);
        if kept[n - 1] {
            assert(out =~= before.filter(keep).map_values(text).push(lines[n - 1].text));
        } else {
            assert(out =~= before.filter(keep).map_values(text));
        }
        assert(kept_texts(lines, kept, n) =~= out);
    } else {
        assert(all.filter(keep).map_values(text) =~= Seq::<Seq<char>>::empty());
    }
}

proof fn lemma_order_is_distinct(lines: Seq<LineView>)
    requires
        lines.len() <= usize::MAX,
    ensures
        drop_order(lines).len() == lines.len(),
        forall|a: int, b: int|
            0 <= a < b < lines.len() ==> (#[trigger] drop_order(lines)[a]).at != (
            #[trigger] drop_order(lines)[b]).at,
{
    broadcast use vstd::seq_lib::group_to_multiset_ensures;

    let keys = drop_keys(lines);
    let order = drop_order(lines);
    law_stable_sort_orders_and_keeps_items::<DropKey>(keys);
    lemma_order_in_range(lines);
    assert(keys.no_duplicates()) by {
        assert forall|a: int, b: int| 0 <= a < b < keys.len() implies keys[a] != keys[b] by {
            assert(keys[a].at == a && keys[b].at == b);
        }
    }
    keys.lemma_multiset_has_no_duplicates();
    assert forall|x: DropView| order.to_multiset().contains(x) implies
        order.to_multiset().count(x) == 1 by {
        assert(keys.to_multiset().contains(x));
    }
    order.lemma_multiset_has_no_duplicates_conv();
    assert forall|a: int, b: int| 0 <= a < b < lines.len() implies (#[trigger] order[a]).at != (
    #[trigger] order[b]).at by {
        if order[a].at == order[b].at {
            assert(order[a].depth == order[b].depth);
            assert(order[a] == order[b]);
        }
    }
}

/// One more line left out is one more that is not kept.
proof fn lemma_left_out(kept: Seq<bool>, at: int)
    requires
        0 <= at < kept.len(),
        kept[at],
    ensures
        kept.update(at, false).filter(|b: bool| !b).len() == kept.filter(|b: bool| !b).len() + 1,
{
    let out = |b: bool| !b;
    let next = kept.update(at, false);
    let head = kept.take(at);
    let tail = kept.skip(at + 1);
    assert(kept =~= head + seq![true] + tail);
    assert(next =~= head + seq![false] + tail);
    Seq::filter_distributes_over_add(head + seq![true], tail, out);
    Seq::filter_distributes_over_add(head + seq![false], tail, out);
    Seq::filter_distributes_over_add(head, seq![true], out);
    Seq::filter_distributes_over_add(head, seq![false], out);
    reveal(Seq::filter);
    reveal_with_fuel(Seq::filter, 2);
    assert(seq![true].drop_last() =~= Seq::<bool>::empty());
    assert(seq![false].drop_last() =~= Seq::<bool>::empty());
}

proof fn lemma_number_left_out(lines: Seq<LineView>, k: nat)
    requires
        k <= lines.len() <= usize::MAX,
    ensures
        kept_after(lines.len(), drop_order(lines), k).len() == lines.len(),
        kept_after(lines.len(), drop_order(lines), k).filter(|b: bool| !b).len() == k,
    decreases k,
{
    let order = drop_order(lines);
    let len = lines.len();
    lemma_order_in_range(lines);
    if k == 0 {
        lemma_none_left_out(kept_after(len, order, 0));
    } else {
        lemma_number_left_out(lines, (k - 1) as nat);
        lemma_order_is_distinct(lines);
        let at = order[k - 1].at as int;
        lemma_kept_after(len, order, (k - 1) as nat, at);
        lemma_left_out(kept_after(len, order, (k - 1) as nat), at);
    }
}

proof fn lemma_none_left_out(kept: Seq<bool>)
    requires
        forall|i: int| 0 <= i < kept.len() ==> kept[i],
    ensures
        kept.filter(|b: bool| !b).len() == 0,
    decreases kept.len(),
{
    reveal(Seq::filter);
    if kept.len() > 0 {
        lemma_none_left_out(kept.drop_last());
    }
}

proof fn lemma_skeleton_shows(lines: Seq<LineView>, k: nat)
    requires
        k <= lines.len() <= usize::MAX,
    ensures
        shows_all_but(
            lines,
            kept_after(lines.len(), drop_order(lines), k),
            k,
            skeleton(lines, k),
        ),
{
    let order = drop_order(lines);
    let kept = kept_after(lines.len(), order, k);
    lemma_number_left_out(lines, k);
    lemma_kept_texts(lines, kept, lines.len());
    lemma_order_in_range(lines);
    law_stable_sort_orders_and_keeps_items::<DropKey>(drop_keys(lines));
    assert forall|i: int, j: int|
        #![trigger kept[i], kept[j]]
        0 <= i < lines.len() && 0 <= j < lines.len() && !kept[i] && kept[j] implies lines[i].depth
        > lines[j].depth || lines[i].depth == lines[j].depth && i > j by {
        lemma_kept_after(lines.len(), order, k, i);
        lemma_kept_after(lines.len(), order, k, j);
        let a = choose|a: int| 0 <= a < k && (#[trigger] order[a]).at == i;
        lemma_every_line_has_a_turn(lines, j);
        let b = choose|b: int|
            0 <= b < lines.len() && (#[trigger] order[b]).at == j && order[b].depth
                == lines[j].depth;
        assert(b >= k);
        assert(!rank_less(DropKey::rank_at(order[b]), DropKey::rank_at(order[a])));
    }
}

/// A skeleton leaves out no more than it must, and says how much: without a budget every
/// line is shown; with one, all but the number given are, the deepest and lowest left out
/// first, and with one line fewer left out it would not fit.
pub proof fn law_a_skeleton_leaves_out_no_more_than_it_must(
    lines: Seq<LineView>,
    budget: Option<usize>,
)
    requires
        lines.len() <= usize::MAX,
    ensures
        ({
            let (text, k) = fitted(lines, budget);
            &&& exists|kept: Seq<bool>| #[trigger] shows_all_but(lines, kept, k, text)
            &&& budget is None ==> k == 0
            &&& k > 0 ==> exists|kept: Seq<bool>, more: Seq<char>|
                #[trigger] shows_all_but(lines, kept, (k - 1) as nat, more) && text_tokens(more)
                    > budget->0
        }),
{
    let (text, k) = fitted(lines, budget);
    if let Some(b) = budget {
        lemma_drops_fit(lines, b as nat, 0);
        lemma_one_fewer(lines, b as nat, 0);
    }
    lemma_skeleton_shows(lines, k);
    if k > 0 {
        lemma_skeleton_shows(lines, (k - 1) as nat);
    }
}

proof fn lemma_one_fewer(lines: Seq<LineView>, budget: nat, k: nat)
    requires
        k <= lines.len(),
    ensures
        drops_needed(lines, budget, k) > k ==> text_tokens(
            skeleton(lines, (drops_needed(lines, budget, k) - 1) as nat),
        ) > budget,
    decreases lines.len() - k,
{
    if k < lines.len() && text_tokens(skeleton(lines, k)) > budget {
        lemma_one_fewer(lines, budget, k + 1);
    }
}

/// Without a budget the skeleton is the lines of all symbols, in order.
pub proof fn law_a_skeleton_without_budget_shows_every_symbol(syms: Seq<SymbolView>)
    ensures
        fitted(symbol_lines(syms), None) == (
            joined_with(
                Seq::new(syms.len(), |i: int| symbol_line(syms[i], depth_of(syms, i))),
                "\n"@,
            ),
            0nat,
        ),
{
    let lines = symbol_lines(syms);
    let kept = kept_after(lines.len(), drop_order(lines), 0);
    lemma_all_kept(lines, kept, lines.len());
    assert(lines.map_values(|l: LineView| l.text) =~= Seq::new(
        syms.len(),
        |i: int| symbol_line(syms[i], depth_of(syms, i)),
    ));
    assert(lines.take(lines.len() as int) =~= lines);
}

proof fn lemma_all_kept(lines: Seq<LineView>, kept: Seq<bool>, n: nat)
    requires
        n <= lines.len(),
        forall|i: int| 0 <= i < lines.len() ==> kept[i],
    ensures
        kept_texts(lines, kept, n) == lines.take(n as int).map_values(|l: LineView| l.text),
    decreases n,
{
    let text = |l: LineView| l.text;
    if n > 0 {
        lemma_all_kept(lines, kept, (n - 1) as nat);
        assert(kept[n - 1]);
        assert(lines.take(n as int).map_values(text) =~= lines.take(n - 1).map_values(text).push(
            lines[n - 1].text,
        ));
    } else {
        assert(lines.take(0).map_values(text) =~= Seq::<Seq<char>>::empty());
    }
}

/// Whether symbols stand in the order of their starts, and each that starts within an
/// earlier one also ends within it.
pub open spec fn well_nested(syms: Seq<SymbolView>) -> bool {
    forall|i: int, j: int|
        #![trigger syms[i], syms[j]]
        0 <= i < j < syms.len() ==> syms[i].start_line <= syms[j].start_line && (
        syms[i].end_line < syms[j].start_line || syms[j].end_line <= syms[i].end_line)
}

proof fn lemma_closing_twice(ends: Seq<usize>, a: usize, b: usize)
    requires
        a <= b,
    ensures
        still_open(still_open(ends, a), b) == still_open(ends, b),
    decreases ends.len(),
{
    if ends.len() > 0 && a > ends.last() {
        lemma_closing_twice(ends.drop_last(), a, b);
    }
}

proof fn lemma_same_ends(s: Seq<usize>, a: usize, b: usize)
    requires
        a <= b,
        forall|i: int| 0 <= i < s.len() && #[trigger] s[i] >= a ==> s[i] >= b,
    ensures
        s.filter(|e: usize| e >= a) == s.filter(|e: usize| e >= b),
    decreases s.len(),
{
    reveal(Seq::filter);
    if s.len() > 0 {
        assert(s[s.len() - 1] == s.last());
        lemma_same_ends(s.drop_last(), a, b);
    }
}

/// The ends of the first `n` symbols.
spec fn ends_of(syms: Seq<SymbolView>, n: nat) -> Seq<usize> {
    syms.take(n as int).map_values(|s: SymbolView| s.end_line)
}

proof fn lemma_open_ends(syms: Seq<SymbolView>, n: nat, line: usize)
    requires
        well_nested(syms),
        n <= syms.len(),
        forall|i: int| 0 <= i < n ==> (#[trigger] syms[i]).start_line <= line,
    ensures
        still_open(open_after(syms, n), line) == ends_of(syms, n).filter(|e: usize| e >= line),
    decreases n,
{
    reveal(Seq::filter);
    let open = |e: usize| e >= line;
    if n == 0 {
        assert(ends_of(syms, 0).filter(open) =~= Seq::<usize>::empty());
    } else {
        let last = syms[n - 1];
        let from = last.start_line;
        let before = ends_of(syms, (n - 1) as nat);
        let all = ends_of(syms, n);
        assert(all.drop_last() =~= before);
        assert(all.last() == last.end_line);
        lemma_open_ends(syms, (n - 1) as nat, from);
        lemma_open_ends(syms, (n - 1) as nat, line);
        let was = still_open(open_after(syms, (n - 1) as nat), from);
        let now = was.push(last.end_line);
        assert(now.drop_last() =~= was);
        lemma_closing_twice(open_after(syms, (n - 1) as nat), from, line);
        if last.end_line >= line {
            assert forall|i: int| 0 <= i < before.len() && #[trigger] before[i] >= from implies
                before[i] >= line by {
                assert(before[i] == syms[i].end_line);
                assert(syms[i].end_line >= last.end_line);
            }
            lemma_same_ends(before, from, line);
        }
    }
}

/// A symbol is nested as deep as there are symbols around it: the earlier ones that end no
/// sooner than it starts.
pub proof fn law_depth_is_the_number_of_symbols_around(syms: Seq<SymbolView>, i: int)
    requires
        well_nested(syms),
        0 <= i < syms.len(),
    ensures
        depth_of(syms, i) == syms.take(i).map_values(|s: SymbolView| s.end_line).filter(
            |e: usize| e >= syms[i].start_line,
        ).len(),
{
    lemma_open_ends(syms, i as nat, syms[i].start_line);
}

} // verus!
