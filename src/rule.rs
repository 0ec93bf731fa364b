use vstd::prelude::*;

use crate::error::{result_view, ErrorView, MakeError};

verus! {

/// Source location of a rule, kept for diagnostics only.
pub struct Context {
    pub path: Option<String>,
    pub line_number: usize,
}

impl Context {
    /// A context that points nowhere.
    pub fn new() -> (r: Context)
        ensures
            r.path is None,
            r.line_number == 0,
    {
        Context { path: None, line_number: 0 }
    }
}

/// One parsed build rule. It is never changed once stored in a rule map.
pub struct Rule {
    pub targets: Vec<String>,
    pub prerequisites: Vec<String>,
    pub recipe: Vec<String>,
    pub context: Context,
    pub double_colon: bool,
}

/// What became of one recipe line's process.
pub enum Outcome {
    /// The process ran and exited with this status.
    Exited { code: i32 },
    /// The process was terminated by a signal.
    Killed,
    /// The shell could not be launched.
    SpawnFailed { message: String },
}

/// The command modifier of a recipe line: its first character when that is
/// `@`, `-` or `+`.
pub open spec fn modifier_of(line: Seq<char>) -> Option<char> {
    if line.len() > 0 && (line[0] == '@' || line[0] == '-' || line[0] == '+') {
        Some(line[0])
    } else {
        None
    }
}

/// Reads the command modifier of a recipe line.
pub fn line_modifier(line: &String) -> (r: Option<char>)
    ensures
        r == modifier_of(line@),
{
    let s = line.as_str();
    if s.unicode_len() == 0 {
        return None;
    }
    let c = s.get_char(0);
    if c == '@' || c == '-' || c == '+' {
        Some(c)
    } else {
        None
    }
}

/// Whether a line that is run is also echoed: all but `@` lines.
pub open spec fn echoed(line: Seq<char>) -> bool {
    modifier_of(line) != Some('@')
}

/// Whether a nonzero status of this line is ignored.
pub open spec fn status_ignored(line: Seq<char>, ignore_errors: bool) -> bool {
    ignore_errors || modifier_of(line) == Some('-')
}

/// Tells whether a recipe line is echoed when it runs: all but `@` lines.
pub fn line_echoed(line: &String) -> (r: bool)
    ensures
        r == echoed(line@),
{
    let m = line_modifier(line);
    match m {
        Some(c) => c != '@',
        None => true,
    }
}

/// Verdict on one run of a recipe line of the rule with handle `rule`.
pub open spec fn verdict(
    line: Seq<char>,
    ignore_errors: bool,
    rule: usize,
    outcome: OutcomeView,
) -> Result<(), ErrorView> {
    match outcome {
        OutcomeView::Exited(code) => if code == 0 || status_ignored(line, ignore_errors) {
            Ok(())
        } else {
            Err(ErrorView::NonzeroExit(rule, code))
        },
        OutcomeView::Killed => Err(ErrorView::Killed(rule)),
        OutcomeView::SpawnFailed(m) => Err(ErrorView::SpawnFailed(rule, m)),
    }
}

/// A nonzero status of a line that starts with `-` is no error.
pub proof fn lemma_dash_line_status_ignored(line: Seq<char>, ignore_errors: bool, rule: usize, code: i32)
    requires
        line.len() > 0,
        line[0] == '-',
    ensures
        verdict(line, ignore_errors, rule, OutcomeView::Exited(code)) == Ok::<(), ErrorView>(()),
{
}

/// A nonzero status of a line without modifier fails the build, unless errors
/// are ignored.
pub proof fn lemma_plain_line_status_fails(line: Seq<char>, rule: usize, code: i32)
    requires
        code != 0,
        modifier_of(line) is None,
    ensures
        verdict(line, false, rule, OutcomeView::Exited(code)) == Err::<(), ErrorView>(
            ErrorView::NonzeroExit(rule, code),
        ),
{
}

/// Mathematical form of [`Outcome`].
pub enum OutcomeView {
    Exited(i32),
    Killed,
    SpawnFailed(Seq<char>),
}

impl View for Outcome {
    type V = OutcomeView;

    open spec fn view(&self) -> OutcomeView {
        match self {
            Outcome::Exited { code } => OutcomeView::Exited(*code),
            Outcome::Killed => OutcomeView::Killed,
            Outcome::SpawnFailed { message } => OutcomeView::SpawnFailed(message@),
        }
    }
}

/// Judges how one run of a recipe line ended: a spawn failure and a kill are
/// always errors; a nonzero status is one unless the line starts with `-` or
/// errors are ignored.
pub fn line_verdict(line: &String, ignore_errors: bool, rule: usize, outcome: Outcome) -> (r: Result<
    (),
    MakeError,
>)
    ensures
        result_view(r) == verdict(line@, ignore_errors, rule, outcome@),
{
    match outcome {
        Outcome::Exited { code } => {
            if code == 0 || ignore_errors {
                Ok(())
            } else {
                let m = line_modifier(line);
                if m == Some('-') {
                    Ok(())
                } else {
                    Err(MakeError::NonzeroExit { rule, code })
                }
            }
        },
        Outcome::Killed => Err(MakeError::Killed { rule }),
        Outcome::SpawnFailed { message } => Err(MakeError::SpawnFailed { rule, message }),
    }
}

} // verus!
