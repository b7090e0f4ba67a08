//! What the verbs of the command line answer.

use crate::apply::ApplyReport;
use crate::codec::{b64d, base64_decoded, base64_text, decoded};
use crate::errors::{opt_text, refusal, refusal_next, ErrorKind, ErrorView, VcError, VcResult};
use crate::index::{can_cut, epoch8, short_epoch};
use crate::json::{
    field_of, law_a_field_is_found_under_its_key, no_fields, text_list, text_or_null, Json,
    JsonView,
};
use crate::metrics::{
    format_human, gain_json, history_part, opt_history, savings_line, sums_fit, to_json,
    verb_table, GainReport, MetricEvent,
};
use crate::order::{
    law_stable_sort_keeps_a_sorted_sequence, law_stable_sort_orders_and_keeps_items, views,
};
use crate::outline::{outline, outlined};
use crate::output::{
    error_kind_label, join_warnings, joined_warnings, result_view, CmdOutcome, OutcomeView,
};
use crate::paths::TreePath;
use crate::plan::{preview_text, EditView, Plan, PlanForm, PlanView, ResolvedEdit};
use crate::reading::outcome_is;
use crate::recover::{DoctorAction, DoctorReport, RepoStatus};
use crate::resolve::{
    lemma_resolution_sources, resolution, resolved_each, resolved_one, EditRequest, RequestView,
};
use crate::strings::{join, joined_with};
use crate::symbols::rust_tree;
use crate::text::{debug_quoted, debug_text, dec, push_dec, same_text};
use crate::worktree::{doctor_json, report_lines, summary_line, DoctorView};
use vstd::prelude::*;
use vstd::slice::slice_to_vec;
use vstd::string::*;
use vstd::utf8::*;

verus! {

/// A verb of the command line.
#[derive(Debug, Clone, Copy, PartialEq, Eq, Structural)]
pub enum Verb {
    Plan,
    Show,
    Apply,
    Undo,
    Status,
    Doctor,
    Gain,
    Query,
    Outline,
    Read,
    Worktree,
}

impl Verb {
    /// The name of the verb.
    pub open spec fn name_text(self) -> Seq<char> {
        match self {
            Verb::Plan => "plan"@,
            Verb::Show => "show"@,
            Verb::Apply => "apply"@,
            Verb::Undo => "undo"@,
            Verb::Status => "status"@,
            Verb::Doctor => "doctor"@,
            Verb::Gain => "gain"@,
            Verb::Query => "query"@,
            Verb::Outline => "outline"@,
            Verb::Read => "read"@,
            Verb::Worktree => "worktree"@,
        }
    }
}

/// The name of a verb.
pub fn verb_name(verb: Verb) -> (name: &'static str)
    ensures
        name@ == verb.name_text(),
{
    match verb {
        Verb::Plan => "plan",
        Verb::Show => "show",
        Verb::Apply => "apply",
        Verb::Undo => "undo",
        Verb::Status => "status",
        Verb::Doctor => "doctor",
        Verb::Gain => "gain",
        Verb::Query => "query",
        Verb::Outline => "outline",
        Verb::Read => "read",
        Verb::Worktree => "worktree",
    }
}

/// What a verb that changes or looks at the repository answers: nothing is counted as read.
pub open spec fn plain_outcome(
    human: Seq<char>,
    json: JsonView,
    files: nat,
    edits: nat,
    epoch8: Seq<char>,
    warning: Option<Seq<char>>,
) -> OutcomeView {
    OutcomeView {
        human,
        json,
        files,
        edits,
        epoch8,
        warning,
        bytes_out: None,
        naive_bytes: None,
    }
}

/// The requests that the edits from `i` on stand for, added to `done`.
pub open spec fn requests_from(edits: Seq<EditView>, i: int, done: Seq<RequestView>) -> Result<
    Seq<RequestView>,
    ErrorView,
>
    decreases edits.len() - i,
{
    if i >= edits.len() {
        Ok(done)
    } else {
        match (base64_decoded(edits[i].old_b64), base64_decoded(edits[i].new_b64)) {
            (Err(why), _) => Err(refusal(ErrorKind::Malformed, "base64: "@ + why)),
            (_, Err(why)) => Err(refusal(ErrorKind::Malformed, "base64: "@ + why)),
            (Ok(old), Ok(new)) => requests_from(
                edits,
                i + 1,
                done.push(
                    RequestView { path: edits[i].path, old, new, line_hint: edits[i].line_hint },
                ),
            ),
        }
    }
}

/// The requests that a plan's edits stand for, to be resolved against current contents: the
/// old and new text of each, with the line hint it was resolved with.
pub fn refresh_requests(edits: &Vec<ResolvedEdit>) -> (r: VcResult<Vec<EditRequest>>)
    ensures
        match (requests_from(views(edits@), 0, seq![]), r) {
            (Ok(v), Ok(reqs)) => views(reqs@) == v,
            (Err(e), Err(f)) => f@ == e,
            _ => false,
        },
{
    let ghost ev = views(edits@);
    let ghost whole = requests_from(ev, 0, seq![]);
    let mut reqs: Vec<EditRequest> = Vec::new();
    let mut i: usize = 0;
    assert(views(reqs@) =~= Seq::<RequestView>::empty());
    while i < edits.len()
        invariant
            i <= edits.len(),
            ev == views(edits@),
            whole == requests_from(ev, 0, seq![]),
            whole == requests_from(ev, i as int, views(reqs@)),
        decreases edits.len() - i,
    {
        let e = &edits[i];
        assert(ev[i as int] == e@);
        let old = match b64d(e.old_b64.as_str()) {
            Ok(bytes) => bytes,
            Err(err) => {
                return Err(err);
            },
        };
        let new = match b64d(e.new_b64.as_str()) {
            Ok(bytes) => bytes,
            Err(err) => {
                return Err(err);
            },
        };
        let req = EditRequest { path: e.path.copy(), old, new, line_hint: e.line_hint };
        let ghost before = views(reqs@);
        reqs.push(req);
        assert(views(reqs@) =~= before.push(req@));
        i = i + 1;
    }
    Ok(reqs)
}

/// A structural rewrite to be planned.
#[derive(Debug, Clone)]
pub struct MatchOrder {
    /// Root-relative; empty is the whole tree.
    pub scope: Vec<TreePath>,
    /// The language; without one it is inferred from the scope.
    pub lang: Option<String>,
    pub pattern: String,
    pub rewrite: String,
    /// How many sites there have to be, if that is to be checked.
    pub expect: Option<usize>,
}

/// What a [`MatchOrder`] says.
pub struct OrderView {
    pub scope: Seq<Seq<u8>>,
    pub lang: Option<Seq<char>>,
    pub pattern: Seq<char>,
    pub rewrite: Seq<char>,
    pub expect: Option<usize>,
}

impl View for MatchOrder {
    type V = OrderView;

    open spec fn view(&self) -> OrderView {
        OrderView {
            scope: views(self.scope@),
            lang: opt_text(self.lang),
            pattern: self.pattern@,
            rewrite: self.rewrite@,
            expect: self.expect,
        }
    }
}

/// What is asked to be planned.
#[derive(Debug)]
pub enum PlanCmd {
    /// One replacement in one file.
    Edit { path: TreePath, old: String, new: String },
    /// The replacements of an imported diff.
    Import(Vec<EditRequest>),
    Match(MatchOrder),
    /// A stored plan against current contents.
    Refresh(Plan),
}

/// How a plan is made.
#[derive(Debug)]
pub enum PlanStep {
    /// By resolving these requests.
    Resolve(PlanForm, Vec<EditRequest>),
    /// By matching a pattern.
    Match(MatchOrder),
}

/// What a [`PlanStep`] says.
pub enum StepView {
    Resolve(PlanForm, Seq<RequestView>),
    Match(OrderView),
}

impl View for PlanStep {
    type V = StepView;

    open spec fn view(&self) -> StepView {
        match self {
            PlanStep::Resolve(form, reqs) => StepView::Resolve(*form, views(reqs@)),
            PlanStep::Match(order) => StepView::Match(order@),
        }
    }
}

/// How what is asked is planned. A refresh runs a match plan's selector again, whole and
/// without an expected count; any other plan's edits are resolved again under its form.
pub open spec fn step_for(cmd: PlanCmd) -> Result<StepView, ErrorView> {
    match cmd {
        PlanCmd::Edit { path, old, new } => Ok(
            StepView::Resolve(
                PlanForm::Edit,
                seq![
                    RequestView {
                        path: path@,
                        old: encode_utf8(old@),
                        new: encode_utf8(new@),
                        line_hint: None,
                    },
                ],
            ),
        ),
        PlanCmd::Import(reqs) => Ok(StepView::Resolve(PlanForm::Import, views(reqs@))),
        PlanCmd::Match(order) => Ok(StepView::Match(order@)),
        PlanCmd::Refresh(p) => match p@.selector {
            Some(sel) => Ok(
                StepView::Match(
                    OrderView {
                        scope: sel.paths,
                        lang: Some(sel.lang),
                        pattern: sel.pattern,
                        rewrite: sel.rewrite,
                        expect: None,
                    },
                ),
            ),
            None => match requests_from(p@.edits, 0, seq![]) {
                Ok(reqs) => Ok(StepView::Resolve(p.form, reqs)),
                Err(e) => Err(e),
            },
        },
    }
}

/// How what is asked is planned.
pub fn cmd_plan(cmd: PlanCmd) -> (r: VcResult<PlanStep>)
    ensures
        match (step_for(cmd), r) {
            (Ok(s), Ok(step)) => step@ == s,
            (Err(e), Err(f)) => f@ == e,
            _ => false,
        },
{
    match cmd {
        PlanCmd::Edit { path, old, new } => {
            let req = EditRequest {
                path,
                old: slice_to_vec(old.as_str().as_bytes()),
                new: slice_to_vec(new.as_str().as_bytes()),
                line_hint: None,
            };
            let mut reqs: Vec<EditRequest> = Vec::new();
            reqs.push(req);
            assert(views(reqs@) =~= seq![req@]);
            Ok(PlanStep::Resolve(PlanForm::Edit, reqs))
        },
        PlanCmd::Import(reqs) => Ok(PlanStep::Resolve(PlanForm::Import, reqs)),
        PlanCmd::Match(order) => Ok(PlanStep::Match(order)),
        PlanCmd::Refresh(p) => {
            match p.selector {
                Some(sel) => Ok(
                    PlanStep::Match(
                        MatchOrder {
                            scope: sel.paths,
                            lang: Some(sel.lang),
                            pattern: sel.pattern,
                            rewrite: sel.rewrite,
                            expect: None,
                        },
                    ),
                ),
                None => match refresh_requests(&p.edits) {
                    Ok(reqs) => Ok(PlanStep::Resolve(p.form, reqs)),
                    Err(e) => Err(e),
                },
            }
        },
    }
}

proof fn lemma_requests(
    disk: Seq<(Seq<u8>, Seq<u8>)>,
    reqs: Seq<RequestView>,
    edits: Seq<EditView>,
    i: int,
    done: Seq<RequestView>,
)
    requires
        0 <= i <= edits.len(),
        done.len() == i,
        forall|k: int|
            0 <= k < edits.len() ==> exists|r: int|
                0 <= r < reqs.len() && resolved_one(disk, #[trigger] reqs[r]) == Ok::<
                    EditView,
                    ErrorView,
                >(#[trigger] edits[k]),
        forall|r: int|
            0 <= r < reqs.len() ==> reads_back((#[trigger] reqs[r]).old) && reads_back(reqs[r].new),
        forall|k: int|
            0 <= k < i ==> resolved_one(disk, #[trigger] done[k]) == Ok::<EditView, ErrorView>(
                edits[k],
            ),
    ensures
        requests_from(edits, i, done) matches Ok(again) && again.len() == edits.len() && (forall|
            k: int,
        |
            0 <= k < edits.len() ==> resolved_one(disk, #[trigger] again[k]) == Ok::<
                EditView,
                ErrorView,
            >(edits[k])),
    decreases edits.len() - i,
{
    if i < edits.len() {
        let r = choose|r: int|
            0 <= r < reqs.len() && resolved_one(disk, #[trigger] reqs[r]) == Ok::<
                EditView,
                ErrorView,
            >(edits[i]);
        assert(reads_back(reqs[r].old) && reads_back(reqs[r].new));
        let req = RequestView {
            path: edits[i].path,
            old: reqs[r].old,
            new: reqs[r].new,
            line_hint: edits[i].line_hint,
        };
        assert(req == reqs[r]);
        let next = done.push(req);
        assert forall|k: int| 0 <= k < i + 1 implies resolved_one(disk, #[trigger] next[k]) == Ok::<
            EditView,
            ErrorView,
        >(edits[k]) by {
            if k < i {
                assert(next[k] == done[k]);
            }
        }
        lemma_requests(disk, reqs, edits, i + 1, next);
    }
}

proof fn lemma_each_resolved(
    disk: Seq<(Seq<u8>, Seq<u8>)>,
    reqs: Seq<RequestView>,
    edits: Seq<EditView>,
)
    requires
        reqs.len() == edits.len(),
        forall|k: int|
            0 <= k < edits.len() ==> resolved_one(disk, #[trigger] reqs[k]) == Ok::<
                EditView,
                ErrorView,
            >(edits[k]),
    ensures
        resolved_each(disk, reqs) == Ok::<Seq<EditView>, ErrorView>(edits),
    decreases reqs.len(),
{
    if reqs.len() > 0 {
        let r = reqs.drop_last();
        let e = edits.drop_last();
        assert forall|k: int| 0 <= k < e.len() implies resolved_one(disk, #[trigger] r[k]) == Ok::<
            EditView,
            ErrorView,
        >(e[k]) by {
            assert(r[k] == reqs[k]);
        }
        lemma_each_resolved(disk, r, e);
        assert(reqs.last() == reqs[reqs.len() - 1]);
        assert(e.push(edits.last()) =~= edits);
    } else {
        assert(edits =~= Seq::<EditView>::empty());
    }
}

/// Whether the encoding of some bytes decodes to them again.
pub open spec fn reads_back(bytes: Seq<u8>) -> bool {
    base64_decoded(base64_text(bytes)) == decoded(bytes)
}

/// Refreshing a plan on an unchanged tree gives the same edits, those that needed a line
/// hint to be placed included.
pub proof fn law_refresh_of_an_unchanged_tree_changes_nothing(
    disk: Seq<(Seq<u8>, Seq<u8>)>,
    reqs: Seq<RequestView>,
)
    requires
        resolution(disk, reqs) is Ok,
        forall|r: int|
            0 <= r < reqs.len() ==> reads_back((#[trigger] reqs[r]).old) && reads_back(reqs[r].new),
    ensures
        ({
            let edits = resolution(disk, reqs)->Ok_0;
            requests_from(edits, 0, seq![]) matches Ok(again) && resolution(disk, again) == Ok::<
                Seq<EditView>,
                ErrorView,
            >(edits)
        }),
{
    let edits = resolution(disk, reqs)->Ok_0;
    let each = resolved_each(disk, reqs)->Ok_0;
    lemma_resolution_sources(disk, reqs);
    law_stable_sort_orders_and_keeps_items::<ResolvedEdit>(each);
    law_stable_sort_keeps_a_sorted_sequence::<ResolvedEdit>(edits);
    lemma_requests(disk, reqs, edits, 0, seq![]);
    let again = requests_from(edits, 0, seq![])->Ok_0;
    lemma_each_resolved(disk, again, edits);
}

/// The answer to a plan that was stored under `sha8`.
pub open spec fn planned(p: PlanView, sha8: Seq<char>) -> OutcomeView {
    let short = short_epoch(p.epoch);
    let human = "plan "@ + sha8 + " — "@ + dec(p.edits.len()) + " sites, "@ + dec(p.files.len())
        + " files @ epoch "@ + short + "   (preview: vc show "@ + sha8 + ")\n"@;
    let json = no_fields()
        .with("sha8"@, JsonView::Text(sha8))
        .with("sites"@, JsonView::Number(p.edits.len()))
        .with("files"@, JsonView::Number(p.files.len()))
        .with("epoch8"@, JsonView::Text(short));
    plain_outcome(
        human,
        json,
        p.files.len(),
        p.edits.len(),
        short,
        joined_warnings(p.warnings),
    )
}

/// The answer to a plan that was stored under `sha8`.
pub fn plan_outcome(p: &Plan, sha8: &str) -> (out: CmdOutcome)
    requires
        can_cut(p.epoch@),
    ensures
        out@ == planned(p@, sha8@),
{
    let sites: usize = p.edits.len();
    let files: usize = p.files.entries.len();
    let short = epoch8(p.epoch.as_str());
    let mut human: String = "plan ".to_owned();
    human.append(sha8);
    human.append(" — ");
    push_dec(&mut human, sites as u64);
    human.append(" sites, ");
    push_dec(&mut human, files as u64);
    human.append(" files @ epoch ");
    human.append(short);
    human.append("   (preview: vc show ");
    human.append(sha8);
    human.append(")\n");
    let json = Json::object()
        .with("sha8", Json::text(sha8))
        .with("sites", Json::count(sites))
        .with("files", Json::count(files))
        .with("epoch8", Json::text(short));
    assert(views(p.edits@).len() == sites);
    assert(p.files@.len() == files);
    CmdOutcome {
        human,
        json,
        files,
        edits: sites,
        epoch8: short.to_owned(),
        warning: join_warnings(&p.warnings),
        bytes_out: None,
        naive_bytes: None,
    }
}

/// A line for each of the first `n` warnings.
pub open spec fn warning_lines(warnings: Seq<Seq<char>>, n: nat) -> Seq<char>
    decreases n,
{
    if n == 0 {
        seq![]
    } else {
        warning_lines(warnings, (n - 1) as nat) + "warning: "@ + warnings[n - 1] + "\n"@
    }
}

/// The answer to showing a plan: its preview, and the warnings it was made with.
pub open spec fn shown(p: PlanView, sha8: Seq<char>) -> OutcomeView {
    let preview = preview_text(p.edits);
    let short = short_epoch(p.epoch);
    let json = no_fields().with("sha8"@, JsonView::Text(sha8)).with(
        "preview"@,
        JsonView::Text(preview),
    );
    plain_outcome(
        preview + warning_lines(p.warnings, p.warnings.len()),
        if p.warnings.len() == 0 {
            json
        } else {
            json.with("warnings"@, text_list(p.warnings))
        },
        p.files.len(),
        p.edits.len(),
        short,
        None,
    )
}

/// The answer to showing a plan.
pub fn show_outcome(p: &Plan, sha8: &str) -> (out: CmdOutcome)
    requires
        can_cut(p.epoch@),
    ensures
        out@ == shown(p@, sha8@),
{
    let preview = p.preview();
    let short = epoch8(p.epoch.as_str());
    let ghost wv = views(p.warnings@);
    let mut lines: String = String::new();
    let mut i: usize = 0;
    assert(lines@ =~= Seq::<char>::empty());
    while i < p.warnings.len()
        invariant
            i <= p.warnings.len(),
            wv == views(p.warnings@),
            lines@ == warning_lines(wv, i as nat),
        decreases p.warnings.len() - i,
    {
        assert(wv[i as int] == p.warnings@[i as int]@);
        lines.append("warning: ");
        lines.append(p.warnings[i].as_str());
        lines.append("\n");
        i = i + 1;
    }
    let mut json = Json::object().with("sha8", Json::text(sha8)).with(
        "preview",
        Json::text(preview.as_str()),
    );
    if p.warnings.len() > 0 {
        json = json.with("warnings", Json::texts(&p.warnings));
    }
    let mut human: String = preview;
    human.append(lines.as_str());
    assert(views(p.edits@).len() == p.edits@.len());
    assert(p.files@.len() == p.files.entries@.len());
    CmdOutcome {
        human,
        json,
        files: p.files.entries.len(),
        edits: p.edits.len(),
        epoch8: short.to_owned(),
        warning: None,
        bytes_out: None,
        naive_bytes: None,
    }
}

/// The value for programs of an application or its reversal.
pub open spec fn report_value(r: ApplyReport) -> JsonView {
    no_fields()
        .with("journal_id"@, JsonView::Text(r.journal_id@))
        .with("files"@, JsonView::Number(r.files as nat))
        .with("edits"@, JsonView::Number(r.edits as nat))
        .with("epoch8_after"@, JsonView::Text(short_epoch(r.epoch_after@)))
        .with("warning"@, text_or_null(opt_text(r.warning)))
}

/// The value for programs of an application or its reversal.
fn apply_report_json(r: &ApplyReport, short: &str) -> (j: Json)
    requires
        short@ == short_epoch(r.epoch_after@),
    ensures
        j@ == report_value(*r),
{
    Json::object()
        .with("journal_id", Json::text(r.journal_id.as_str()))
        .with("files", Json::count(r.files))
        .with("edits", Json::count(r.edits))
        .with("epoch8_after", Json::text(short))
        .with("warning", Json::text_or_null(&r.warning))
}

/// The answer to an application.
pub open spec fn applied(r: ApplyReport) -> OutcomeView {
    plain_outcome(
        "applied: "@ + dec(r.edits as nat) + " edits, "@ + dec(r.files as nat)
            + " files. journal "@ + r.journal_id@ + ". undo: vc undo\n"@,
        report_value(r),
        r.files as nat,
        r.edits as nat,
        short_epoch(r.epoch_after@),
        opt_text(r.warning),
    )
}

/// The answer to an application.
pub fn apply_outcome(r: ApplyReport) -> (out: CmdOutcome)
    requires
        can_cut(r.epoch_after@),
    ensures
        out@ == applied(r),
{
    let short: String = epoch8(r.epoch_after.as_str()).to_owned();
    let mut human: String = "applied: ".to_owned();
    push_dec(&mut human, r.edits as u64);
    human.append(" edits, ");
    push_dec(&mut human, r.files as u64);
    human.append(" files. journal ");
    human.append(r.journal_id.as_str());
    human.append(". undo: vc undo\n");
    let json = apply_report_json(&r, short.as_str());
    CmdOutcome {
        human,
        json,
        files: r.files,
        edits: r.edits,
        epoch8: short,
        warning: r.warning,
        bytes_out: None,
        naive_bytes: None,
    }
}

/// The answer to a reversal.
pub open spec fn undone(r: ApplyReport) -> OutcomeView {
    plain_outcome(
        "undone: journal "@ + r.journal_id@ + ". files: "@ + dec(r.files as nat) + "\n"@,
        report_value(r),
        r.files as nat,
        r.edits as nat,
        short_epoch(r.epoch_after@),
        opt_text(r.warning),
    )
}

/// The answer to a reversal.
pub fn undo_outcome(r: ApplyReport) -> (out: CmdOutcome)
    requires
        can_cut(r.epoch_after@),
    ensures
        out@ == undone(r),
{
    let short: String = epoch8(r.epoch_after.as_str()).to_owned();
    let mut human: String = "undone: journal ".to_owned();
    human.append(r.journal_id.as_str());
    human.append(". files: ");
    push_dec(&mut human, r.files as u64);
    human.append("\n");
    let json = apply_report_json(&r, short.as_str());
    CmdOutcome {
        human,
        json,
        files: r.files,
        edits: r.edits,
        epoch8: short,
        warning: r.warning,
        bytes_out: None,
        naive_bytes: None,
    }
}

/// `true` or `false`.
pub open spec fn bool_text(b: bool) -> Seq<char> {
    if b {
        "true"@
    } else {
        "false"@
    }
}

fn bool_str(b: bool) -> (s: &'static str)
    ensures
        s@ == bool_text(b),
{
    if b {
        "true"
    } else {
        "false"
    }
}

/// The answer to asking for the status.
pub open spec fn status_answer(st: RepoStatus) -> OutcomeView {
    let head = match st.journal_head {
        Some(id) => id@,
        None => "none"@,
    };
    let open_ids = if st.uncommitted@.len() == 0 {
        "none"@
    } else {
        joined_with(views(st.uncommitted@), ","@)
    };
    let human = "epoch8: "@ + st.epoch8@ + "\nfiles: "@ + dec(st.files as nat) + "\nplans: "@ + dec(
        st.plans as nat,
    ) + "\njournal_head: "@ + head + "\nuncommitted: "@ + open_ids + "\nlock_held: "@ + bool_text(
        st.lock_held,
    ) + "\n"@;
    let json = no_fields()
        .with("epoch8"@, JsonView::Text(st.epoch8@))
        .with("files"@, JsonView::Number(st.files as nat))
        .with("plans"@, JsonView::Number(st.plans as nat))
        .with("journal_head"@, text_or_null(opt_text(st.journal_head)))
        .with("uncommitted"@, text_list(views(st.uncommitted@)))
        .with("lock_held"@, JsonView::Bool(st.lock_held));
    plain_outcome(human, json, st.files as nat, 0, st.epoch8@, None)
}

/// The answer to asking for the status.
pub fn status_outcome(st: RepoStatus) -> (out: CmdOutcome)
    ensures
        out@ == status_answer(st),
{
    let mut human: String = "epoch8: ".to_owned();
    human.append(st.epoch8.as_str());
    human.append("\nfiles: ");
    push_dec(&mut human, st.files as u64);
    human.append("\nplans: ");
    push_dec(&mut human, st.plans as u64);
    human.append("\njournal_head: ");
    match &st.journal_head {
        Some(id) => human.append(id.as_str()),
        None => human.append("none"),
    }
    human.append("\nuncommitted: ");
    if st.uncommitted.len() == 0 {
        human.append("none");
    } else {
        human.append(join(&st.uncommitted, ",").as_str());
    }
    human.append("\nlock_held: ");
    human.append(bool_str(st.lock_held));
    human.append("\n");
    let json = Json::object()
        .with("epoch8", Json::text(st.epoch8.as_str()))
        .with("files", Json::count(st.files))
        .with("plans", Json::count(st.plans))
        .with("journal_head", Json::text_or_null(&st.journal_head))
        .with("uncommitted", Json::texts(&st.uncommitted))
        .with("lock_held", Json::Bool(st.lock_held));
    CmdOutcome {
        human,
        json,
        files: st.files,
        edits: 0,
        epoch8: st.epoch8,
        warning: None,
        bytes_out: None,
        naive_bytes: None,
    }
}

/// What the doctor is asked for by its two flags; not both.
pub fn doctor_action(rollback: bool, discard: bool) -> (r: VcResult<DoctorAction>)
    ensures
        match r {
            Ok(DoctorAction::Report) => !rollback && !discard,
            Ok(DoctorAction::Rollback) => rollback && !discard,
            Ok(DoctorAction::Discard) => !rollback && discard,
            Err(e) => rollback && discard && e@ == refusal(
                ErrorKind::Usage,
                "doctor: --rollback and --discard are mutually exclusive"@,
            ),
        },
{
    if rollback && discard {
        return Err(
            VcError::new(
                ErrorKind::Usage,
                "doctor: --rollback and --discard are mutually exclusive".to_owned(),
            ),
        );
    }
    if rollback {
        Ok(DoctorAction::Rollback)
    } else if discard {
        Ok(DoctorAction::Discard)
    } else {
        Ok(DoctorAction::Report)
    }
}

/// Texts quoted, as a list in square brackets.
pub open spec fn quoted_list(texts: Seq<Seq<char>>) -> Seq<char> {
    "["@ + joined_with(texts.map_values(|t: Seq<char>| debug_text(t)), ", "@) + "]"@
}

fn quote_list(texts: &Vec<String>) -> (s: String)
    ensures
        s@ == quoted_list(views(texts@)),
{
    let ghost all = views(texts@).map_values(|t: Seq<char>| debug_text(t));
    let mut quoted: Vec<String> = Vec::new();
    let mut i: usize = 0;
    while i < texts.len()
        invariant
            i <= texts.len(),
            all == views(texts@).map_values(|t: Seq<char>| debug_text(t)),
            views(quoted@) == all.take(i as int),
        decreases texts.len() - i,
    {
        let q = debug_quoted(texts[i].as_str());
        let ghost before = quoted@;
        quoted.push(q);
        proof {
            assert(all[i as int] == q@);
            assert(all.take(i + 1) =~= all.take(i as int).push(q@));
            assert(views(quoted@) =~= views(before).push(q@));
        }
        i = i + 1;
    }
    assert(all.take(texts.len() as int) =~= all);
    let mut s: String = "[".to_owned();
    s.append(join(&quoted, ", ").as_str());
    s.append("]");
    s
}

/// The answer of the doctor.
pub open spec fn doctor_answer(rep: DoctorReport) -> OutcomeView {
    let human = "doctor: rolled_back="@ + quoted_list(views(rep.rolled_back@)) + " discarded="@
        + quoted_list(views(rep.discarded@)) + " lock_removed="@ + bool_text(rep.lock_removed)
        + " healthy="@ + bool_text(rep.healthy) + "\n"@;
    let json = no_fields()
        .with("rolled_back"@, text_list(views(rep.rolled_back@)))
        .with("discarded"@, text_list(views(rep.discarded@)))
        .with("lock_removed"@, JsonView::Bool(rep.lock_removed))
        .with("healthy"@, JsonView::Bool(rep.healthy));
    plain_outcome(human, json, 0, 0, seq![], None)
}

/// No text.
fn no_text() -> (s: String)
    ensures
        s@ == Seq::<char>::empty(),
{
    let s = String::new();
    assert(s@ =~= Seq::<char>::empty());
    s
}

/// The answer of the doctor.
pub fn doctor_outcome(rep: DoctorReport) -> (out: CmdOutcome)
    ensures
        out@ == doctor_answer(rep),
{
    let mut human: String = "doctor: rolled_back=".to_owned();
    human.append(quote_list(&rep.rolled_back).as_str());
    human.append(" discarded=");
    human.append(quote_list(&rep.discarded).as_str());
    human.append(" lock_removed=");
    human.append(bool_str(rep.lock_removed));
    human.append(" healthy=");
    human.append(bool_str(rep.healthy));
    human.append("\n");
    let json = Json::object()
        .with("rolled_back", Json::texts(&rep.rolled_back))
        .with("discarded", Json::texts(&rep.discarded))
        .with("lock_removed", Json::Bool(rep.lock_removed))
        .with("healthy", Json::Bool(rep.healthy));
    CmdOutcome {
        human,
        json,
        files: 0,
        edits: 0,
        epoch8: no_text(),
        warning: None,
        bytes_out: None,
        naive_bytes: None,
    }
}

/// The answer to asking for the gain report.
pub open spec fn gain_answer(report: GainReport) -> OutcomeView {
    plain_outcome(
        verb_table(report.verbs@) + savings_line(report.read_savings) + history_part(
            opt_history(report.history),
        ),
        gain_json(report.verbs@, report.read_savings, opt_history(report.history)),
        0,
        0,
        seq![],
        None,
    )
}

/// The answer to asking for the gain report.
pub fn gain_outcome(report: &GainReport) -> (out: CmdOutcome)
    requires
        sums_fit(report.verbs@),
    ensures
        out@ == gain_answer(*report),
{
    CmdOutcome {
        human: format_human(report),
        json: to_json(report),
        files: 0,
        edits: 0,
        epoch8: no_text(),
        warning: None,
        bytes_out: None,
        naive_bytes: None,
    }
}

/// The answer of the worktree doctor.
pub open spec fn worktree_answer(report: DoctorView) -> OutcomeView {
    plain_outcome(
        report_lines(report.worktrees, report.worktrees.len()) + summary_line(report),
        doctor_json(report),
        0,
        0,
        seq![],
        None,
    )
}

/// The answer of the worktree doctor.
pub fn worktree_outcome(report: &crate::worktree::DoctorReport) -> (out: CmdOutcome)
    ensures
        out@ == worktree_answer(report@),
{
    CmdOutcome {
        human: crate::worktree::format_human(report),
        json: crate::worktree::to_json(report),
        files: 0,
        edits: 0,
        epoch8: no_text(),
        warning: None,
        bytes_out: None,
        naive_bytes: None,
    }
}

/// The step from an outline's refusal to the command's: it names the file to read instead.
pub open spec fn outline_refusal(e: ErrorView, path: Seq<char>) -> ErrorView {
    match e.next {
        Some(_) => e,
        None => refusal_next(e.kind, e.message, "vc read "@ + path),
    }
}

/// The answer to asking for the outline of a file.
pub open spec fn outline_answer(
    path: Seq<char>,
    lang: Seq<char>,
    source_bytes: nat,
    skeleton: Result<(Seq<char>, nat), ErrorView>,
    epoch8: Seq<char>,
) -> Result<OutcomeView, ErrorView> {
    if lang != "rust"@ {
        Err(
            refusal_next(
                ErrorKind::Usage,
                "outline: unsupported language"@,
                "vc read "@ + path,
            ),
        )
    } else {
        match skeleton {
            Err(e) => Err(outline_refusal(e, path)),
            Ok((text, elided)) => {
                let head = "epoch "@ + epoch8 + " — "@ + dec(elided) + " elided\n"@;
                let human = if text.len() == 0 {
                    head
                } else {
                    head + text + "\n"@
                };
                Ok(
                    OutcomeView {
                        human,
                        json: no_fields()
                            .with("epoch8"@, JsonView::Text(epoch8))
                            .with("outline"@, JsonView::Text(text))
                            .with("elided"@, JsonView::Number(elided)),
                        files: 1,
                        edits: 0,
                        epoch8,
                        warning: None,
                        bytes_out: Some(encode_utf8(human).len() as u64),
                        naive_bytes: Some(source_bytes as u64),
                    },
                )
            },
        }
    }
}

/// The view of an outline's result.
pub open spec fn skeleton_view(r: VcResult<(String, usize)>) -> Result<
    (Seq<char>, nat),
    ErrorView,
> {
    match r {
        Ok((text, n)) => Ok((text@, n as nat)),
        Err(e) => Err(e@),
    }
}

/// The answer to an outline of a file of a language: its skeleton, or a refusal that names
/// the file to read instead.
pub fn outline_outcome(
    path: &str,
    lang: &str,
    source_bytes: usize,
    skeleton: VcResult<(String, usize)>,
    epoch8: &str,
) -> (r: VcResult<CmdOutcome>)
    ensures
        outcome_is(
            outline_answer(
                path@,
                lang@,
                source_bytes as nat,
                skeleton_view(skeleton),
                epoch8@,
            ),
            r,
        ),
{
    let mut next: String = "vc read ".to_owned();
    next.append(path);
    if !same_text(lang, "rust") {
        return Err(
            VcError::new(
                ErrorKind::Usage,
                "outline: unsupported language".to_owned(),
            ).with_next(next),
        );
    }
    match skeleton {
        Err(e) => match e.next {
            Some(_) => Err(e),
            None => Err(e.with_next(next)),
        },
        Ok((text, elided)) => {
            let mut human: String = "epoch ".to_owned();
            human.append(epoch8);
            human.append(" — ");
            push_dec(&mut human, elided as u64);
            human.append(" elided\n");
            if !text.as_str().is_empty() {
                human.append(text.as_str());
                human.append("\n");
            }
            let json = Json::object()
                .with("epoch8", Json::text(epoch8))
                .with("outline", Json::text(text.as_str()))
                .with("elided", Json::count(elided));
            let bytes_out: u64 = human.as_str().as_bytes().len() as u64;
            Ok(
                CmdOutcome {
                    human,
                    json,
                    files: 1,
                    edits: 0,
                    epoch8: epoch8.to_owned(),
                    warning: None,
                    bytes_out: Some(bytes_out),
                    naive_bytes: Some(source_bytes as u64),
                },
            )
        },
    }
}

/// Outlines a file.
pub fn cmd_outline(path: &str, src: &str, lang: &str, epoch8: &str, budget: Option<usize>) -> (r:
    VcResult<CmdOutcome>)
    ensures
        outcome_is(
            outline_answer(
                path@,
                lang@,
                encode_utf8(src@).len(),
                outlined(src@, lang@, rust_tree(src@), budget),
                epoch8@,
            ),
            r,
        ),
{
    let skeleton = outline(src, lang, budget);
    outline_outcome(path, lang, src.as_bytes().len(), skeleton, epoch8)
}

/// What is recorded of an invocation with this result.
pub fn metric_event(verb: Verb, ms: u64, result: &VcResult<CmdOutcome>) -> (e: MetricEvent)
    ensures
        e.verb@ == verb.name_text(),
        e.ms == ms,
        match result_view(*result) {
            Ok(o) => {
                &&& e.files == o.files
                &&& e.edits == o.edits
                &&& e.epoch8@ == o.epoch8
                &&& e.refusal is None
                &&& e.bytes_out == o.bytes_out
                &&& e.naive_bytes == o.naive_bytes
            },
            Err(f) => {
                &&& e.files == 0
                &&& e.edits == 0
                &&& e.epoch8@.len() == 0
                &&& opt_text(e.refusal) == Some(f.kind.label_text())
                &&& e.bytes_out is None
                &&& e.naive_bytes is None
            },
        },
{
    match result {
        Ok(o) => MetricEvent {
            verb: verb_name(verb).to_owned(),
            ms,
            files: o.files,
            edits: o.edits,
            refusal: None,
            epoch8: o.epoch8.as_str().to_owned(),
            bytes_out: o.bytes_out,
            naive_bytes: o.naive_bytes,
        },
        Err(f) => MetricEvent {
            verb: verb_name(verb).to_owned(),
            ms,
            files: 0,
            edits: 0,
            refusal: Some(error_kind_label(f.kind).to_owned()),
            epoch8: no_text(),
            bytes_out: None,
            naive_bytes: None,
        },
    }
}

/// Whether a request asks again for what an edit does.
pub open spec fn asks_again(r: RequestView, e: EditView) -> bool {
    &&& r.path == e.path
    &&& r.line_hint == e.line_hint
    &&& base64_decoded(e.old_b64) == Ok::<Seq<u8>, Seq<char>>(r.old)
    &&& base64_decoded(e.new_b64) == Ok::<Seq<u8>, Seq<char>>(r.new)
}

/// Refreshing a plan asks for every edit of it again, in order: each with its path, its line
/// and the texts that were stored; and it is refused exactly when a stored text cannot be
/// read.
pub proof fn law_a_refresh_asks_for_every_edit(edits: Seq<EditView>)
    ensures
        match requests_from(edits, 0, seq![]) {
            Ok(requests) => requests.len() == edits.len() && forall|i: int|
                0 <= i < edits.len() ==> asks_again(#[trigger] requests[i], edits[i]),
            Err(_) => exists|i: int|
                0 <= i < edits.len() && (base64_decoded((#[trigger] edits[i]).old_b64) is Err
                    || base64_decoded(edits[i].new_b64) is Err),
        },
{
    lemma_requests_from(edits, 0, seq![]);
}

proof fn lemma_requests_from(edits: Seq<EditView>, i: int, done: Seq<RequestView>)
    requires
        0 <= i <= edits.len(),
        done.len() == i,
        forall|k: int| 0 <= k < i ==> asks_again(#[trigger] done[k], edits[k]),
    ensures
        match requests_from(edits, i, done) {
            Ok(requests) => requests.len() == edits.len() && forall|k: int|
                0 <= k < edits.len() ==> asks_again(#[trigger] requests[k], edits[k]),
            Err(_) => exists|k: int|
                0 <= k < edits.len() && (base64_decoded((#[trigger] edits[k]).old_b64) is Err
                    || base64_decoded(edits[k].new_b64) is Err),
        },
    decreases edits.len() - i,
{
    if i < edits.len() {
        let e = edits[i];
        if let (Ok(old), Ok(new)) = (base64_decoded(e.old_b64), base64_decoded(e.new_b64)) {
            let r = RequestView { path: e.path, old, new, line_hint: e.line_hint };
            assert(asks_again(r, e));
            let next = done.push(r);
            assert forall|k: int| 0 <= k < i + 1 implies asks_again(
                #[trigger] next[k],
                edits[k],
            ) by {
                if k < i {
                    assert(next[k] == done[k]);
                }
            }
            lemma_requests_from(edits, i + 1, next);
        }
    }
}

/// Every warning has its line.
pub proof fn law_every_warning_has_its_line(warnings: Seq<Seq<char>>)
    ensures
        warning_lines(warnings, warnings.len()) == warnings.map_values(
            |w: Seq<char>| "warning: "@ + w + "\n"@,
        ).flatten(),
{
    lemma_warning_lines(warnings, warnings.len());
    assert(warnings.take(warnings.len() as int) =~= warnings);
}

proof fn lemma_warning_lines(warnings: Seq<Seq<char>>, n: nat)
    requires
        n <= warnings.len(),
    ensures
        warning_lines(warnings, n) == warnings.take(n as int).map_values(
            |w: Seq<char>| "warning: "@ + w + "\n"@,
        ).flatten(),
    decreases n,
{
    let f = |w: Seq<char>| "warning: "@ + w + "\n"@;
    let all = warnings.take(n as int).map_values(f);
    all.lemma_flatten_and_flatten_alt_are_equivalent();
    if n > 0 {
        lemma_warning_lines(warnings, (n - 1) as nat);
        let before = warnings.take(n - 1).map_values(f);
        before.lemma_flatten_and_flatten_alt_are_equivalent();
        assert(all.drop_last() =~= before);
        assert(warning_lines(warnings, n) =~= before.flatten() + f(warnings[n - 1]));
    }
}

/// What is asked is planned whole: an edit as its one request, an import as all of its
/// requests, and a refresh of a match plan as the same search and replacement over the same
/// paths, whatever number of sites there are now.
pub proof fn law_what_is_asked_is_planned_whole(cmd: PlanCmd)
    ensures
        match cmd {
            PlanCmd::Edit { path, old, new } => step_for(cmd) matches Ok(
                StepView::Resolve(form, reqs),
            ) && form == PlanForm::Edit && reqs.len() == 1 && reqs[0].path == path@ && reqs[0].old
                == encode_utf8(old@) && reqs[0].new == encode_utf8(new@) && reqs[0].line_hint
                is None,
            PlanCmd::Import(all) => step_for(cmd) matches Ok(StepView::Resolve(form, reqs)) && form
                == PlanForm::Import && reqs.len() == all@.len() && forall|i: int|
                0 <= i < all@.len() ==> #[trigger] reqs[i] == all@[i]@,
            PlanCmd::Match(order) => step_for(cmd) matches Ok(StepView::Match(o)) && o == order@,
            PlanCmd::Refresh(p) => match p@.selector {
                Some(sel) => step_for(cmd) matches Ok(StepView::Match(o)) && o.scope == sel.paths
                    && o.lang == Some(sel.lang) && o.pattern == sel.pattern && o.rewrite
                    == sel.rewrite && o.expect is None,
                None => step_for(cmd) matches Ok(StepView::Resolve(form, reqs)) ==> form == p.form
                    && reqs.len() == p@.edits.len() && forall|i: int|
                    0 <= i < reqs.len() ==> asks_again(#[trigger] reqs[i], p@.edits[i]),
            },
        },
{
    if let PlanCmd::Refresh(p) = cmd {
        law_a_refresh_asks_for_every_edit(p@.edits);
    }
}

proof fn lemma_status_keys(fields: Seq<(Seq<char>, JsonView)>)
    requires
        fields.len() == 6,
        fields[0].0 == "epoch8"@ && fields[1].0 == "files"@ && fields[2].0 == "plans"@,
        fields[3].0 == "journal_head"@ && fields[4].0 == "uncommitted"@ && fields[5].0
            == "lock_held"@,
    ensures
        field_of(JsonView::Object(fields), "files"@) == Some(fields[1].1),
        field_of(JsonView::Object(fields), "plans"@) == Some(fields[2].1),
        field_of(JsonView::Object(fields), "journal_head"@) == Some(fields[3].1),
        field_of(JsonView::Object(fields), "uncommitted"@) == Some(fields[4].1),
        field_of(JsonView::Object(fields), "lock_held"@) == Some(fields[5].1),
{
    reveal_strlit("epoch8");
    reveal_strlit("files");
    reveal_strlit("plans");
    reveal_strlit("journal_head");
    reveal_strlit("uncommitted");
    reveal_strlit("lock_held");
    assert("epoch8"@.len() == 6);
    assert("files"@.len() == 5);
    assert("plans"@.len() == 5);
    assert("journal_head"@.len() == 12);
    assert("uncommitted"@.len() == 11);
    assert("lock_held"@.len() == 9);
    assert("files"@[0] != "plans"@[0]);
    law_a_field_is_found_under_its_key(fields, "files"@, 1);
    law_a_field_is_found_under_its_key(fields, "plans"@, 2);
    law_a_field_is_found_under_its_key(fields, "journal_head"@, 3);
    law_a_field_is_found_under_its_key(fields, "uncommitted"@, 4);
    law_a_field_is_found_under_its_key(fields, "lock_held"@, 5);
}

/// Whether a value is the list of these texts, every one of them.
pub open spec fn lists_texts(j: Option<JsonView>, texts: Seq<Seq<char>>) -> bool {
    j matches Some(JsonView::List(items)) && items.len() == texts.len() && forall|i: int|
        0 <= i < texts.len() ==> #[trigger] items[i] == JsonView::Text(texts[i])
}

/// A status tells programs everything it knows: every entry that is not committed, the last
/// one that is, how many files and plans there are, and whether the lock is held.
pub proof fn law_a_status_tells_everything(st: RepoStatus)
    ensures
        ({
            let j = status_answer(st).json;
            &&& field_of(j, "files"@) == Some(JsonView::Number(st.files as nat))
            &&& field_of(j, "plans"@) == Some(JsonView::Number(st.plans as nat))
            &&& field_of(j, "journal_head"@) == Some(text_or_null(opt_text(st.journal_head)))
            &&& lists_texts(field_of(j, "uncommitted"@), views(st.uncommitted@))
            &&& field_of(j, "lock_held"@) == Some(JsonView::Bool(st.lock_held))
        }),
{
    lemma_status_keys(status_answer(st).json->Object_0);
}

/// The doctor tells programs every entry that it rolled back and every one that it discarded,
/// whether it removed a lock, and whether all is well.
pub proof fn law_the_doctor_tells_everything(rep: DoctorReport)
    ensures
        ({
            let j = doctor_answer(rep).json;
            &&& lists_texts(field_of(j, "rolled_back"@), views(rep.rolled_back@))
            &&& lists_texts(field_of(j, "discarded"@), views(rep.discarded@))
            &&& field_of(j, "lock_removed"@) == Some(JsonView::Bool(rep.lock_removed))
            &&& field_of(j, "healthy"@) == Some(JsonView::Bool(rep.healthy))
        }),
{
    reveal_strlit("rolled_back");
    reveal_strlit("discarded");
    reveal_strlit("lock_removed");
    reveal_strlit("healthy");
    assert("rolled_back"@.len() == 11);
    assert("discarded"@.len() == 9);
    assert("lock_removed"@.len() == 12);
    assert("healthy"@.len() == 7);
    let fields = doctor_answer(rep).json->Object_0;
    law_a_field_is_found_under_its_key(fields, "rolled_back"@, 0);
    law_a_field_is_found_under_its_key(fields, "discarded"@, 1);
    law_a_field_is_found_under_its_key(fields, "lock_removed"@, 2);
    law_a_field_is_found_under_its_key(fields, "healthy"@, 3);
}

/// Showing a plan tells programs the whole preview and every warning of it, and counts all of
/// its edits and files; so does planning it.
pub proof fn law_a_shown_plan_tells_everything(p: PlanView, sha8: Seq<char>)
    ensures
        ({
            let j = shown(p, sha8).json;
            &&& field_of(j, "preview"@) == Some(JsonView::Text(preview_text(p.edits)))
            &&& p.warnings.len() > 0 ==> lists_texts(field_of(j, "warnings"@), p.warnings)
            &&& shown(p, sha8).human == preview_text(p.edits) + warning_lines(
                p.warnings,
                p.warnings.len(),
            )
            &&& shown(p, sha8).edits == p.edits.len() && shown(p, sha8).files == p.files.len()
        }),
        ({
            let j = planned(p, sha8).json;
            &&& field_of(j, "sha8"@) == Some(JsonView::Text(sha8))
            &&& field_of(j, "sites"@) == Some(JsonView::Number(p.edits.len()))
            &&& field_of(j, "files"@) == Some(JsonView::Number(p.files.len()))
            &&& planned(p, sha8).warning == joined_warnings(p.warnings)
            &&& planned(p, sha8).edits == p.edits.len() && planned(p, sha8).files == p.files.len()
        }),
{
    reveal_strlit("sha8");
    reveal_strlit("preview");
    reveal_strlit("warnings");
    reveal_strlit("sites");
    reveal_strlit("files");
    assert("sha8"@.len() == 4);
    assert("preview"@.len() == 7);
    assert("warnings"@.len() == 8);
    assert("sites"@.len() == 5);
    assert("files"@.len() == 5);
    assert("sites"@[0] != "files"@[0]);
    let fields = shown(p, sha8).json->Object_0;
    law_a_field_is_found_under_its_key(fields, "preview"@, 1);
    if p.warnings.len() > 0 {
        law_a_field_is_found_under_its_key(fields, "warnings"@, 2);
    }
    let said = planned(p, sha8).json->Object_0;
    law_a_field_is_found_under_its_key(said, "sha8"@, 0);
    law_a_field_is_found_under_its_key(said, "sites"@, 1);
    law_a_field_is_found_under_its_key(said, "files"@, 2);
}

/// An outline tells programs its whole text and how much was left out of it, and people the
/// same.
pub proof fn law_an_outline_tells_what_it_leaves_out(
    path: Seq<char>,
    source_bytes: nat,
    text: Seq<char>,
    elided: nat,
    epoch8: Seq<char>,
)
    ensures
        outline_answer(path, "rust"@, source_bytes, Ok((text, elided)), epoch8) matches Ok(out)
            && field_of(out.json, "outline"@) == Some(JsonView::Text(text)) && field_of(
            out.json,
            "elided"@,
        ) == Some(JsonView::Number(elided)) && out.human == "epoch "@ + epoch8 + " — "@ + dec(
            elided,
        ) + " elided\n"@ + (if text.len() == 0 {
            Seq::empty()
        } else {
            text + "\n"@
        }),
{
    reveal_strlit("epoch8");
    reveal_strlit("outline");
    reveal_strlit("elided");
    assert("outline"@.len() == 7 && "epoch8"@.len() == 6 && "elided"@.len() == 6);
    assert("epoch8"@[1] != "elided"@[1]);
    let out = outline_answer(path, "rust"@, source_bytes, Ok((text, elided)), epoch8)->Ok_0;
    let fields = out.json->Object_0;
    law_a_field_is_found_under_its_key(fields, "outline"@, 1);
    law_a_field_is_found_under_its_key(fields, "elided"@, 2);
    assert(out.human =~= "epoch "@ + epoch8 + " — "@ + dec(elided) + " elided\n"@ + (if text.len()
        == 0 {
        Seq::empty()
    } else {
        text + "\n"@
    }));
}

} // verus!
