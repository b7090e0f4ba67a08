//! What a command's result prints, where, and the exit code.

use crate::errors::{error_line, opt_text, ErrorKind, ErrorView, VcError, VcResult};
use crate::json::{
    field_of, law_a_field_is_found_under_its_key, no_fields, text_or_null, Json, JsonView,
};
use crate::strings::{join, joined_with, law_joining_keeps_every_text};
use crate::order::views;
use vstd::prelude::*;
use vstd::string::*;

verus! {

/// The result of a command that succeeded.
#[derive(Debug)]
pub struct CmdOutcome {
    /// The text for people; it ends in a line feed.
    pub human: String,
    /// The value for programs.
    pub json: Json,
    pub files: usize,
    pub edits: usize,
    pub epoch8: String,
    /// What to tell beside the result; the command did succeed.
    pub warning: Option<String>,
    /// For the read verbs, the bytes of the answer.
    pub bytes_out: Option<u64>,
    /// For the read verbs, the bytes of reading the whole files instead.
    pub naive_bytes: Option<u64>,
}

/// What a [`CmdOutcome`] says.
pub struct OutcomeView {
    pub human: Seq<char>,
    pub json: JsonView,
    pub files: nat,
    pub edits: nat,
    pub epoch8: Seq<char>,
    pub warning: Option<Seq<char>>,
    pub bytes_out: Option<u64>,
    pub naive_bytes: Option<u64>,
}

impl View for CmdOutcome {
    type V = OutcomeView;

    open spec fn view(&self) -> OutcomeView {
        OutcomeView {
            human: self.human@,
            json: self.json@,
            files: self.files as nat,
            edits: self.edits as nat,
            epoch8: self.epoch8@,
            warning: opt_text(self.warning),
            bytes_out: self.bytes_out,
            naive_bytes: self.naive_bytes,
        }
    }
}

/// The label of an error's class, as it stands in front of the error's own line.
pub fn error_kind_label(kind: ErrorKind) -> (label: &'static str)
    ensures
        label@ == kind.label_text(),
{
    kind.label()
}

/// The value for programs that an error makes.
pub open spec fn error_envelope(e: ErrorView) -> JsonView {
    let body = no_fields()
        .with("kind"@, JsonView::Text(e.kind.label_text()))
        .with("message"@, JsonView::Text(e.message))
        .with("next"@, text_or_null(e.next));
    no_fields().with("error"@, body)
}

/// The value for programs that an error makes.
pub fn error_json(e: &VcError) -> (j: Json)
    ensures
        j@ == error_envelope(e@),
{
    let body = Json::object()
        .with("kind", Json::text(error_kind_label(e.kind)))
        .with("message", Json::text(e.message.as_str()))
        .with("next", Json::text_or_null(&e.next));
    Json::object().with("error", body)
}

/// What goes to the standard output.
#[derive(Debug)]
pub enum Printed {
    Nothing,
    /// This text as it is.
    Text(String),
    /// This value on a line of its own.
    Value(Json),
}

/// What [`Printed`] says.
pub enum PrintedView {
    Nothing,
    Text(Seq<char>),
    Value(JsonView),
}

impl View for Printed {
    type V = PrintedView;

    open spec fn view(&self) -> PrintedView {
        match self {
            Printed::Nothing => PrintedView::Nothing,
            Printed::Text(t) => PrintedView::Text(t@),
            Printed::Value(j) => PrintedView::Value(j@),
        }
    }
}

/// What a command prints, and its exit code.
#[derive(Debug)]
pub struct Emission {
    pub stdout: Printed,
    /// A line for the standard error.
    pub stderr: Option<String>,
    pub code: i32,
}

/// What an [`Emission`] says.
pub struct EmissionView {
    pub stdout: PrintedView,
    pub stderr: Option<Seq<char>>,
    pub code: i32,
}

impl View for Emission {
    type V = EmissionView;

    open spec fn view(&self) -> EmissionView {
        EmissionView { stdout: self.stdout@, stderr: opt_text(self.stderr), code: self.code }
    }
}

/// What a result prints: a success its text or its value, with a warning on the standard
/// error; an error its line on the standard error, or its value on the standard output.
pub open spec fn emitted(json_mode: bool, result: Result<OutcomeView, ErrorView>) -> EmissionView {
    match result {
        Ok(o) => EmissionView {
            stdout: if json_mode {
                PrintedView::Value(o.json)
            } else {
                PrintedView::Text(o.human)
            },
            stderr: match o.warning {
                Some(w) => Some("warning: "@ + w),
                None => None,
            },
            code: 0,
        },
        Err(e) => if json_mode {
            EmissionView {
                stdout: PrintedView::Value(error_envelope(e)),
                stderr: None,
                code: e.kind.code(),
            }
        } else {
            EmissionView {
                stdout: PrintedView::Nothing,
                stderr: Some(error_line(e)),
                code: e.kind.code(),
            }
        },
    }
}

/// The view of a command's result.
pub open spec fn result_view(result: VcResult<CmdOutcome>) -> Result<OutcomeView, ErrorView> {
    match result {
        Ok(o) => Ok(o@),
        Err(e) => Err(e@),
    }
}

/// What a command's result prints, and the exit code.
pub fn emit(json_mode: bool, result: VcResult<CmdOutcome>) -> (out: Emission)
    ensures
        out@ == emitted(json_mode, result_view(result)),
{
    match result {
        Ok(o) => {
            let stderr = match o.warning {
                Some(w) => {
                    let mut line: String = "warning: ".to_owned();
                    line.append(w.as_str());
                    Some(line)
                },
                None => None,
            };
            let stdout = if json_mode {
                Printed::Value(o.json)
            } else {
                Printed::Text(o.human)
            };
            Emission { stdout, stderr, code: 0 }
        },
        Err(e) => {
            let code = e.exit_code();
            if json_mode {
                Emission { stdout: Printed::Value(error_json(&e)), stderr: None, code }
            } else {
                Emission { stdout: Printed::Nothing, stderr: Some(e.to_string()), code }
            }
        },
    }
}

/// A caller can tell success from failure by the exit code alone, and the code is the same
/// whether the output is for people or for programs.
pub proof fn law_exit_code_is_independent_of_the_output_form(
    result: Result<OutcomeView, ErrorView>,
)
    ensures
        emitted(true, result).code == emitted(false, result).code,
        emitted(true, result).code == 0 <==> result is Ok,
        result is Err ==> 1 <= emitted(true, result).code <= 5,
{
}

/// Warnings as one; none when there are none.
pub open spec fn joined_warnings(warnings: Seq<Seq<char>>) -> Option<Seq<char>> {
    if warnings.len() == 0 {
        None
    } else {
        Some(joined_with(warnings, "; "@))
    }
}

/// Joins warnings into one; none when there are none.
pub fn join_warnings(warnings: &Vec<String>) -> (w: Option<String>)
    ensures
        opt_text(w) == joined_warnings(views(warnings@)),
{
    if warnings.len() == 0 {
        None
    } else {
        Some(join(warnings, "; "))
    }
}

/// Nothing is lost on the way out: an answer is printed in the form asked for and its warning
/// is told beside it in either form; a refusal is printed for programs with its kind, its
/// message and what to do next, and told to people in a line.
pub proof fn law_nothing_is_lost_on_the_way_out(o: OutcomeView, e: ErrorView)
    ensures
        emitted(true, Ok(o)).stdout == PrintedView::Value(o.json),
        emitted(false, Ok(o)).stdout == PrintedView::Text(o.human),
        emitted(true, Ok(o)).stderr == emitted(false, Ok(o)).stderr,
        emitted(true, Ok(o)).stderr is Some <==> o.warning is Some,
        o.warning matches Some(w) ==> emitted(true, Ok(o)).stderr == Some("warning: "@ + w),
        emitted(false, Err(e)).stderr == Some(error_line(e)),
        emitted(true, Err(e)).stdout matches PrintedView::Value(j) && (field_of(
            j,
            "error"@,
        ) matches Some(body) && field_of(body, "kind"@) == Some(
            JsonView::Text(e.kind.label_text()),
        ) && field_of(body, "message"@) == Some(JsonView::Text(e.message)) && field_of(
            body,
            "next"@,
        ) == Some(text_or_null(e.next))),
{
    reveal_strlit("error");
    reveal_strlit("kind");
    reveal_strlit("message");
    reveal_strlit("next");
    assert("kind"@[0] != "next"@[0]);
    assert("message"@.len() == 7 && "kind"@.len() == 4 && "next"@.len() == 4);
    let outer = error_envelope(e)->Object_0;
    law_a_field_is_found_under_its_key(outer, "error"@, 0);
    let body = outer[0].1->Object_0;
    law_a_field_is_found_under_its_key(body, "kind"@, 0);
    law_a_field_is_found_under_its_key(body, "message"@, 1);
    law_a_field_is_found_under_its_key(body, "next"@, 2);
}

/// Every warning is in the one that is told, in order; and there is one exactly when there
/// are any.
pub proof fn law_every_warning_is_told(
    before: Seq<Seq<char>>,
    warning: Seq<char>,
    after: Seq<Seq<char>>,
)
    ensures
        joined_warnings(Seq::empty()) is None,
        joined_warnings(before.push(warning) + after) matches Some(told) && told == joined_with(
            before.push(warning),
            "; "@,
        ) + (if after.len() == 0 {
            Seq::empty()
        } else {
            "; "@ + joined_with(after, "; "@)
        }),
{
    let all = before.push(warning) + after;
    if after.len() == 0 {
        assert(all =~= before.push(warning));
    } else {
        law_joining_keeps_every_text(before.push(warning), after, warning, "; "@);
    }
    assert(joined_with(all, "; "@) =~= joined_with(before.push(warning), "; "@) + (if after.len()
        == 0 {
        Seq::empty()
    } else {
        "; "@ + joined_with(after, "; "@)
    }));
}

} // verus!
