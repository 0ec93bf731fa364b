use vstd::prelude::*;

verus! {

/// Errors reported to the host. Errors raised by a rule carry its handle, so
/// the host can report the rule's source location.
pub enum MakeError {
    /// No rule produces the requested target.
    UnknownTarget { target: String },
    /// The target was declared with both `:` and `::`.
    ConflictingColons { target: String, rule: usize },
    /// The target is among its own prerequisites, directly or not.
    DependencyCycle { target: String },
    /// The shell could not be launched for a recipe line.
    SpawnFailed { rule: usize, message: String },
    /// A recipe line exited with a nonzero status that was not ignored.
    NonzeroExit { rule: usize, code: i32 },
    /// A recipe line's process was terminated by a signal.
    Killed { rule: usize },
}

/// Mathematical form of [`MakeError`], with names as character sequences.
pub enum ErrorView {
    UnknownTarget(Seq<char>),
    ConflictingColons(Seq<char>, usize),
    DependencyCycle(Seq<char>),
    SpawnFailed(usize, Seq<char>),
    NonzeroExit(usize, i32),
    Killed(usize),
}

impl View for MakeError {
    type V = ErrorView;

    open spec fn view(&self) -> ErrorView {
        match self {
            MakeError::UnknownTarget { target } => ErrorView::UnknownTarget(target@),
            MakeError::ConflictingColons { target, rule } => ErrorView::ConflictingColons(
                target@,
                *rule,
            ),
            MakeError::DependencyCycle { target } => ErrorView::DependencyCycle(target@),
            MakeError::SpawnFailed { rule, message } => ErrorView::SpawnFailed(*rule, message@),
            MakeError::NonzeroExit { rule, code } => ErrorView::NonzeroExit(*rule, *code),
            MakeError::Killed { rule } => ErrorView::Killed(*rule),
        }
    }
}

/// View of a build result.
pub open spec fn result_view(r: Result<(), MakeError>) -> Result<(), ErrorView> {
    match r {
        Ok(()) => Ok(()),
        Err(e) => Err(e@),
    }
}

} // verus!
