use vstd::prelude::*;

use crate::config::{contains_path, listed, resolve_mtime, resolved, Config, PathStat};
use crate::error::{ErrorView, MakeError};
use crate::rule::{echoed, line_echoed, line_verdict, verdict, Outcome, OutcomeView};
use crate::rule_map::{names_of, RuleMap};

verus! {

/// Where a target's resolution stands.
#[derive(PartialEq, Eq, Structural, Clone, Copy)]
pub enum Stage {
    /// Waiting for the target's own timestamp.
    AwaitTargetStat,
    /// Ready to look at the next prerequisite of the current rule, or to
    /// decide whether the rule runs once none is left.
    Prereq,
    /// Waiting for the current prerequisite's timestamp.
    AwaitPrereqStat,
    /// The current prerequisite is being built above this frame; `stale`
    /// marks the rule for running once that build succeeds.
    AwaitPrereqBuild { stale: bool },
    /// Ready to hand out the current recipe line, or to move to the next rule.
    Line,
    /// Waiting for how the current recipe line's process ended.
    AwaitLine,
    /// The target is resolved.
    Done,
}

/// The resolution of one target.
pub struct Frame {
    pub target: String,
    pub target_mtime: Option<u128>,
    pub stage: Stage,
    pub handle_pos: usize,
    pub prereq_pos: usize,
    pub line_pos: usize,
    pub should_execute: bool,
    pub executed: bool,
}

/// Mathematical form of [`Frame`].
pub struct FrameView {
    pub target: Seq<char>,
    pub target_mtime: Option<u128>,
    pub stage: Stage,
    pub handle_pos: usize,
    pub prereq_pos: usize,
    pub line_pos: usize,
    pub should_execute: bool,
    pub executed: bool,
}

impl View for Frame {
    type V = FrameView;

    open spec fn view(&self) -> FrameView {
        FrameView {
            target: self.target@,
            target_mtime: self.target_mtime,
            stage: self.stage,
            handle_pos: self.handle_pos,
            prereq_pos: self.prereq_pos,
            line_pos: self.line_pos,
            should_execute: self.should_execute,
            executed: self.executed,
        }
    }
}

/// What the host is asked to do next.
pub enum Action {
    /// Look up `path`, then answer with [`Event::Stat`].
    Stat { path: String },
    /// Print `line` without running it, then answer with [`Event::Next`].
    Echo { line: String },
    /// Print `line` if `echo` holds, run it with the shell, then answer with
    /// [`Event::Exit`].
    Run { line: String, echo: bool },
    /// Report that `target` is up to date (`old`: because it is forced old),
    /// then answer with [`Event::Next`].
    UpToDate { target: String, old: bool },
    /// Nothing to do: answer with [`Event::Next`].
    Proceed,
    /// The build is over, with this result.
    Finished { result: Result<(), MakeError> },
}

/// Mathematical form of [`Action`].
pub enum ActionView {
    Stat(Seq<char>),
    Echo(Seq<char>),
    Run(Seq<char>, bool),
    UpToDate(Seq<char>, bool),
    Proceed,
    Finished(Result<(), ErrorView>),
}

impl View for Action {
    type V = ActionView;

    open spec fn view(&self) -> ActionView {
        match self {
            Action::Stat { path } => ActionView::Stat(path@),
            Action::Echo { line } => ActionView::Echo(line@),
            Action::Run { line, echo } => ActionView::Run(line@, *echo),
            Action::UpToDate { target, old } => ActionView::UpToDate(target@, *old),
            Action::Proceed => ActionView::Proceed,
            Action::Finished { result } => ActionView::Finished(
                match result {
                    Ok(()) => Ok(()),
                    Err(e) => Err(e@),
                },
            ),
        }
    }
}

/// The host's answer to the last action.
pub enum Event {
    /// The action needed no answer.
    Next,
    /// What a lookup found.
    Stat { stat: PathStat },
    /// How a recipe line's process ended.
    Exit { outcome: Outcome },
}

/// Mathematical form of [`Event`].
pub enum EventView {
    Next,
    Stat(PathStat),
    Exit(OutcomeView),
}

impl View for Event {
    type V = EventView;

    open spec fn view(&self) -> EventView {
        match self {
            Event::Next => EventView::Next,
            Event::Stat { stat } => EventView::Stat(*stat),
            Event::Exit { outcome } => EventView::Exit(outcome@),
        }
    }
}

/// A frame that starts resolving `t`.
pub open spec fn fresh_frame(t: Seq<char>) -> FrameView {
    FrameView {
        target: t,
        target_mtime: None,
        stage: Stage::AwaitTargetStat,
        handle_pos: 0,
        prereq_pos: 0,
        line_pos: 0,
        should_execute: false,
        executed: false,
    }
}

/// `t` is being resolved somewhere in `frames`.
pub open spec fn on_stack(frames: Seq<FrameView>, t: Seq<char>) -> bool {
    exists|i: int| 0 <= i < frames.len() && #[trigger] frames[i].target == t
}

/// Starts resolving `t` above `below`: an unknown target ends the build, and
/// so does a target already being resolved, which depends on itself.
pub open spec fn enter(map: RuleMap, below: Seq<FrameView>, t: Seq<char>) -> (
    Seq<FrameView>,
    ActionView,
) {
    if !map.index().contains_key(t) {
        (Seq::empty(), ActionView::Finished(Err(ErrorView::UnknownTarget(t))))
    } else if on_stack(below, t) {
        (Seq::empty(), ActionView::Finished(Err(ErrorView::DependencyCycle(t))))
    } else {
        (below.push(fresh_frame(t)), ActionView::Stat(t))
    }
}

/// `f` moved on to its next rule.
pub open spec fn next_rule(f: FrameView, cfg: Config) -> FrameView {
    FrameView {
        stage: Stage::Prereq,
        handle_pos: (f.handle_pos + 1) as usize,
        prereq_pos: 0,
        line_pos: 0,
        should_execute: cfg.always_make,
        ..f
    }
}

/// `f` moved past its current prerequisite; `stale` marks its rule for running.
pub open spec fn next_prereq(f: FrameView, stale: bool) -> FrameView {
    FrameView {
        stage: Stage::Prereq,
        prereq_pos: (f.prereq_pos + 1) as usize,
        should_execute: f.should_execute || stale,
        ..f
    }
}

/// `f` with stage `s`.
pub open spec fn staged(f: FrameView, s: Stage) -> FrameView {
    FrameView { stage: s, ..f }
}

/// The handle of the rule that frame `f` is at.
pub open spec fn handle_at(map: RuleMap, f: FrameView) -> usize {
    map.index()[f.target][f.handle_pos as int]
}

/// The prerequisites of the rule that frame `f` is at.
pub open spec fn prereqs_at(map: RuleMap, f: FrameView) -> Seq<String> {
    map.rules_view()[handle_at(map, f) as int].prerequisites@
}

/// The recipe of the rule that frame `f` is at.
pub open spec fn recipe_at(map: RuleMap, f: FrameView) -> Seq<String> {
    map.rules_view()[handle_at(map, f) as int].recipe@
}

/// One move of the build: the frames after it and the action handed to the
/// host, from the frames before it and the host's answer to the last action.
pub open spec fn step_spec(map: RuleMap, cfg: Config, frames: Seq<FrameView>, ev: EventView) -> (
    Seq<FrameView>,
    ActionView,
) {
    let f = frames.last();
    let rest = frames.drop_last();
    let hs = map.index()[f.target];
    match f.stage {
        Stage::AwaitTargetStat => match ev {
            EventView::Stat(st) => if listed(cfg.old_file@, f.target) {
                (rest.push(staged(f, Stage::Done)), ActionView::UpToDate(f.target, true))
            } else {
                (
                    rest.push(
                        FrameView {
                            target_mtime: resolved(f.target, st, cfg),
                            stage: Stage::Prereq,
                            handle_pos: 0,
                            prereq_pos: 0,
                            should_execute: cfg.always_make,
                            executed: false,
                            ..f
                        },
                    ),
                    ActionView::Proceed,
                )
            },
            _ => (frames, ActionView::Proceed),
        },
        Stage::Prereq => if f.handle_pos >= hs.len() {
            (
                rest.push(staged(f, Stage::Done)),
                if f.executed {
                    ActionView::Proceed
                } else {
                    ActionView::UpToDate(f.target, false)
                },
            )
        } else if f.prereq_pos < prereqs_at(map, f).len() {
            let p = prereqs_at(map, f)[f.prereq_pos as int]@;
            if cfg.always_make {
                enter(map, rest.push(staged(f, Stage::AwaitPrereqBuild { stale: false })), p)
            } else {
                (rest.push(staged(f, Stage::AwaitPrereqStat)), ActionView::Stat(p))
            }
        } else if f.target_mtime is None || f.should_execute {
            (
                rest.push(FrameView { stage: Stage::Line, line_pos: 0, executed: true, ..f }),
                ActionView::Proceed,
            )
        } else {
            (rest.push(next_rule(f, cfg)), ActionView::Proceed)
        },
        Stage::AwaitPrereqStat => match ev {
            EventView::Stat(st) => {
                let p = prereqs_at(map, f)[f.prereq_pos as int]@;
                match resolved(p, st, cfg) {
                    None => enter(
                        map,
                        rest.push(staged(f, Stage::AwaitPrereqBuild { stale: true })),
                        p,
                    ),
                    Some(pm) => (
                        rest.push(
                            next_prereq(
                                f,
                                f.target_mtime is Some && pm > f.target_mtime->0,
                            ),
                        ),
                        ActionView::Proceed,
                    ),
                }
            },
            _ => (frames, ActionView::Proceed),
        },
        Stage::AwaitPrereqBuild { .. } => (frames, ActionView::Proceed),
        Stage::Line => if f.line_pos >= recipe_at(map, f).len() {
            (rest.push(next_rule(f, cfg)), ActionView::Proceed)
        } else {
            let line = recipe_at(map, f)[f.line_pos as int]@;
            if cfg.just_print {
                (
                    rest.push(FrameView { line_pos: (f.line_pos + 1) as usize, ..f }),
                    ActionView::Echo(line),
                )
            } else {
                (rest.push(staged(f, Stage::AwaitLine)), ActionView::Run(line, echoed(line)))
            }
        },
        Stage::AwaitLine => match ev {
            EventView::Exit(o) => {
                let line = recipe_at(map, f)[f.line_pos as int]@;
                match verdict(line, cfg.ignore_errors, handle_at(map, f), o) {
                    Ok(()) => (
                        rest.push(
                            FrameView {
                                stage: Stage::Line,
                                line_pos: (f.line_pos + 1) as usize,
                                ..f
                            },
                        ),
                        ActionView::Proceed,
                    ),
                    Err(e) => (Seq::empty(), ActionView::Finished(Err(e))),
                }
            },
            _ => (frames, ActionView::Proceed),
        },
        Stage::Done => if rest.len() == 0 {
            (Seq::empty(), ActionView::Finished(Ok(())))
        } else {
            let parent = rest.last();
            let stale = match parent.stage {
                Stage::AwaitPrereqBuild { stale } => stale,
                _ => false,
            };
            (rest.drop_last().push(next_prereq(parent, stale)), ActionView::Proceed)
        },
    }
}

/// Frame `f` points at existing rules, prerequisites and lines as its stage
/// needs; a frame below the top waits for a prerequisite's build.
pub open spec fn frame_ok(map: RuleMap, f: FrameView) -> bool {
    let hs = map.index()[f.target];
    &&& map.index().contains_key(f.target)
    &&& f.handle_pos <= hs.len()
    &&& match f.stage {
        Stage::AwaitTargetStat => f.handle_pos == 0,
        Stage::Done => true,
        Stage::Prereq => f.handle_pos < hs.len() ==> f.prereq_pos <= prereqs_at(map, f).len(),
        Stage::AwaitPrereqStat | Stage::AwaitPrereqBuild { .. } => f.handle_pos < hs.len()
            && f.prereq_pos < prereqs_at(map, f).len(),
        Stage::Line => f.handle_pos < hs.len() && f.line_pos <= recipe_at(map, f).len(),
        Stage::AwaitLine => f.handle_pos < hs.len() && f.line_pos < recipe_at(map, f).len(),
    }
}

/// Every frame of a non-empty stack is well formed.
pub open spec fn frames_ok(map: RuleMap, frames: Seq<FrameView>) -> bool {
    &&& frames.len() > 0
    &&& forall|i: int|
        0 <= i < frames.len() ==> #[trigger] frame_ok(map, frames[i])
    &&& forall|i: int| 0 <= i < frames.len() - 1 ==> (#[trigger] frames[i]).stage is AwaitPrereqBuild
}

/// Every frame of `frames` is well formed and waits for a prerequisite's build.
pub open spec fn below_ok(map: RuleMap, frames: Seq<FrameView>) -> bool {
    forall|i: int|
        0 <= i < frames.len() ==> #[trigger] frame_ok(map, frames[i])
            && frames[i].stage is AwaitPrereqBuild
}

/// A build in progress: a stack of target resolutions, the one on top being
/// worked on, each below it waiting for the prerequisite above it.
pub struct Build {
    frames: Vec<Frame>,
}

impl View for Build {
    type V = Seq<FrameView>;

    closed spec fn view(&self) -> Seq<FrameView> {
        self.frames@.map_values(|f: Frame| f@)
    }
}

/// Resolving a target that no rule produces ends the whole build with an
/// unknown-target error, before any recipe line is handed out.
pub proof fn lemma_unknown_target_fails(map: RuleMap, below: Seq<FrameView>, t: Seq<char>)
    requires
        !map.index().contains_key(t),
    ensures
        enter(map, below, t) == (
            Seq::<FrameView>::empty(),
            ActionView::Finished(Err(ErrorView::UnknownTarget(t))),
        ),
{
}

/// Resolving a known target that is already being resolved below ends the
/// build with a dependency-cycle error.
pub proof fn lemma_cycle_fails(map: RuleMap, below: Seq<FrameView>, i: int)
    requires
        0 <= i < below.len(),
        map.index().contains_key(below[i].target),
    ensures
        enter(map, below, below[i].target) == (
            Seq::<FrameView>::empty(),
            ActionView::Finished(Err(ErrorView::DependencyCycle(below[i].target))),
        ),
{
    assert(on_stack(below, below[i].target));
}

/// In print-only mode no move of the build runs a recipe line.
pub proof fn lemma_just_print_never_runs(
    map: RuleMap,
    cfg: Config,
    frames: Seq<FrameView>,
    ev: EventView,
)
    requires
        cfg.just_print,
    ensures
        !(step_spec(map, cfg, frames, ev).1 is Run),
{
}

/// A forced-old target is reported up to date as soon as its lookup is
/// answered, and its resolution ends without reaching any of its rules.
pub proof fn lemma_old_target_up_to_date(
    map: RuleMap,
    cfg: Config,
    frames: Seq<FrameView>,
    stat: PathStat,
)
    requires
        frames.len() > 0,
        frames.last().stage is AwaitTargetStat,
        listed(cfg.old_file@, frames.last().target),
    ensures
        step_spec(map, cfg, frames, EventView::Stat(stat)).1 == ActionView::UpToDate(
            frames.last().target,
            true,
        ),
        step_spec(map, cfg, frames, EventView::Stat(stat)).0 == frames.drop_last().push(
            staged(frames.last(), Stage::Done),
        ),
{
}

/// A target that cannot be found, and is not forced old, whose first rule
/// has no prerequisites, starts that rule's recipe two moves after its
/// lookup is answered.
pub proof fn lemma_missing_target_built(
    map: RuleMap,
    cfg: Config,
    frames: Seq<FrameView>,
    stat: PathStat,
)
    requires
        map.wf(),
        frames_ok(map, frames),
        frames.last().stage is AwaitTargetStat,
        !listed(cfg.old_file@, frames.last().target),
        resolved(frames.last().target, stat, cfg) is None,
        map.rules_view()[map.index()[frames.last().target][0] as int].prerequisites@.len() == 0,
    ensures
        ({
            let s1 = step_spec(map, cfg, frames, EventView::Stat(stat)).0;
            let s2 = step_spec(map, cfg, s1, EventView::Next).0;
            &&& s2.len() == frames.len()
            &&& s2.last().stage == Stage::Line
            &&& s2.last().line_pos == 0
            &&& s2.last().handle_pos == 0
            &&& s2.last().executed
        }),
{
    let f = frames.last();
    assert(frame_ok(map, frames[frames.len() - 1]));
    assert(map.index().contains_key(f.target));
    let s1 = step_spec(map, cfg, frames, EventView::Stat(stat)).0;
    assert(s1.drop_last() =~= frames.drop_last());
}

/// A prerequisite found no newer than an existing target leaves the rule's
/// decision as it was.
pub proof fn lemma_older_prereq_keeps_decision(
    map: RuleMap,
    cfg: Config,
    frames: Seq<FrameView>,
    stat: PathStat,
)
    requires
        frames.len() > 0,
        frames.last().stage is AwaitPrereqStat,
        frames.last().target_mtime is Some,
        ({
            let f = frames.last();
            let p = prereqs_at(map, f)[f.prereq_pos as int]@;
            resolved(p, stat, cfg) is Some && resolved(p, stat, cfg)->0
                <= f.target_mtime->0
        }),
    ensures
        step_spec(map, cfg, frames, EventView::Stat(stat)).0 == frames.drop_last().push(
            next_prereq(frames.last(), false),
        ),
        step_spec(map, cfg, frames, EventView::Stat(stat)).1 == ActionView::Proceed,
{
}

/// A prerequisite strictly newer than an existing target marks the rule for
/// running.
pub proof fn lemma_newer_prereq_marks_rule(
    map: RuleMap,
    cfg: Config,
    frames: Seq<FrameView>,
    stat: PathStat,
)
    requires
        frames.len() > 0,
        frames.last().stage is AwaitPrereqStat,
        frames.last().target_mtime is Some,
        ({
            let f = frames.last();
            let p = prereqs_at(map, f)[f.prereq_pos as int]@;
            resolved(p, stat, cfg) is Some && resolved(p, stat, cfg)->0 > f.target_mtime->0
        }),
    ensures
        step_spec(map, cfg, frames, EventView::Stat(stat)).0 == frames.drop_last().push(
            next_prereq(frames.last(), true),
        ),
        step_spec(map, cfg, frames, EventView::Stat(stat)).0.last().should_execute,
{
}

/// Once its prerequisites are checked, a rule runs exactly when its target is
/// missing or the rule is marked; otherwise the target moves to its next rule.
pub proof fn lemma_rule_runs_when_stale(map: RuleMap, cfg: Config, frames: Seq<FrameView>, ev: EventView)
    requires
        frames.len() > 0,
        frames.last().stage is Prereq,
        frames.last().handle_pos < map.index()[frames.last().target].len(),
        frames.last().prereq_pos >= prereqs_at(map, frames.last()).len(),
    ensures
        step_spec(map, cfg, frames, ev).0.last().stage == (if frames.last().target_mtime is None
            || frames.last().should_execute {
            Stage::Line
        } else {
            Stage::Prereq
        }),
        step_spec(map, cfg, frames, ev).0.last().handle_pos == (if frames.last().target_mtime is None
            || frames.last().should_execute {
            frames.last().handle_pos
        } else {
            (frames.last().handle_pos + 1) as usize
        }),
{
}

/// A target none of whose rules ran is reported up to date when its rules
/// are done.
pub proof fn lemma_idle_target_up_to_date(map: RuleMap, cfg: Config, frames: Seq<FrameView>, ev: EventView)
    requires
        frames.len() > 0,
        frames.last().stage is Prereq,
        frames.last().handle_pos >= map.index()[frames.last().target].len(),
        !frames.last().executed,
    ensures
        step_spec(map, cfg, frames, ev).1 == ActionView::UpToDate(frames.last().target, false),
        step_spec(map, cfg, frames, ev).0.last().stage == Stage::Done,
{
}

/// A target's rules are taken in handle order: while its resolution stays on
/// the stack, a move keeps its rule position or advances it by one.
pub proof fn lemma_rules_in_handle_order(
    map: RuleMap,
    cfg: Config,
    frames: Seq<FrameView>,
    ev: EventView,
)
    requires
        frames_ok(map, frames),
        step_spec(map, cfg, frames, ev).0.len() >= frames.len(),
    ensures
        ({
            let f = frames.last();
            let g = step_spec(map, cfg, frames, ev).0[frames.len() - 1];
            &&& g.target == f.target
            &&& g.handle_pos == f.handle_pos || g.handle_pos == (f.handle_pos + 1) as usize
        }),
{
    assert(frame_ok(map, frames[frames.len() - 1]));
}

/// The position after `i`, for a position `i` inside `v`.
fn next_pos<T>(v: &Vec<T>, i: usize) -> (r: usize)
    requires
        i < v@.len(),
    ensures
        r == i + 1,
{
    let n = v.len();
    if i < n {
        i + 1
    } else {
        i
    }
}

impl Build {
    /// A build of `target`, with its first action: a lookup of the target, or
    /// the end of the build if no rule produces it.
    pub fn start(map: &RuleMap, target: &String) -> (r: (Build, Action))
        requires
            map.wf(),
        ensures
            (r.0@, r.1@) == enter(*map, Seq::empty(), target@),
            r.0@.len() == 0 || frames_ok(*map, r.0@),
    {
        let mut b = Build { frames: Vec::new() };
        assert(b@ =~= Seq::<FrameView>::empty());
        let a = b.enter(map, target.clone());
        (b, a)
    }

    /// The build is over.
    pub fn is_finished(&self) -> (r: bool)
        ensures
            r == (self@.len() == 0),
    {
        self.frames.len() == 0
    }

    /// Puts `f` on top of the stack.
    fn push_frame(&mut self, Ghost(map): Ghost<RuleMap>, f: Frame)
        ensures
            final(self)@ == old(self)@.push(f@),
            below_ok(map, old(self)@) && frame_ok(map, f@) ==> frames_ok(map, final(self)@),
            below_ok(map, old(self)@) && frame_ok(map, f@) && f@.stage is AwaitPrereqBuild
                ==> below_ok(map, final(self)@),
    {
        self.frames.push(f);
        assert(self@ =~= old(self)@.push(f@));
        proof {
            if below_ok(map, old(self)@) && frame_ok(map, f@) {
                assert forall|i: int| 0 <= i < self@.len() implies #[trigger] frame_ok(map, self@[i]) by {
                if i < old(self)@.len() {
                    assert(self@[i] == old(self)@[i]);
                }
            }
            assert forall|i: int| 0 <= i < self@.len() - 1 implies (
            #[trigger] self@[i]).stage is AwaitPrereqBuild by {
                assert(self@[i] == old(self)@[i]);
                assert(frame_ok(map, old(self)@[i]));
            }
            }
        }
    }

    /// Empties the stack, ending the build.
    fn clear(&mut self)
        ensures
            final(self)@ == Seq::<FrameView>::empty(),
    {
        self.frames = Vec::new();
        assert(self@ =~= Seq::<FrameView>::empty());
    }

    /// Takes the top frame off the stack.
    fn pop_frame(&mut self) -> (f: Frame)
        requires
            old(self)@.len() > 0,
        ensures
            f@ == old(self)@.last(),
            final(self)@ == old(self)@.drop_last(),
    {
        let f = self.frames.pop().unwrap();
        assert(self@ =~= old(self)@.drop_last());
        f
    }

    /// Starts resolving `t` on top of the current frames.
    fn enter(&mut self, map: &RuleMap, t: String) -> (a: Action)
        requires
            map.wf(),
        ensures
            (final(self)@, a@) == enter(*map, old(self)@, t@),
            below_ok(*map, old(self)@) ==> final(self)@.len() == 0 || frames_ok(*map, final(self)@),
    {
        let known = match map.handles_of(&t) {
            Some(_) => true,
            None => false,
        };
        if !known {
            self.clear();
            return Action::Finished { result: Err(MakeError::UnknownTarget { target: t }) };
        }
        let mut i: usize = 0;
        while i < self.frames.len()
            invariant
                map.wf(),
                map.index().contains_key(t@),
                self@ == old(self)@,
                i <= self@.len(),
                forall|j: int| 0 <= j < i ==> self@[j].target != t@,
            decreases self@.len() - i,
        {
            if self.frames[i].target == t {
                assert(self@[i as int].target == t@);
                assert(on_stack(old(self)@, t@));
                self.clear();
                return Action::Finished { result: Err(MakeError::DependencyCycle { target: t }) };
            }
            i = i + 1;
        }
        let path = t.clone();
        self.push_frame(
            Ghost(*map),
            Frame {
                target: t,
                target_mtime: None,
                stage: Stage::AwaitTargetStat,
                handle_pos: 0,
                prereq_pos: 0,
                line_pos: 0,
                should_execute: false,
                executed: false,
            },
        );
        Action::Stat { path }
    }

    /// Makes one move of the build on the host's answer to the last action,
    /// and returns the next action. `map` is the map the build was started
    /// on, unchanged since; a finished build takes no more moves.
    pub fn step(&mut self, map: &RuleMap, cfg: &Config, event: Event) -> (a: Action)
        requires
            map.wf(),
            frames_ok(*map, old(self)@),
        ensures
            (final(self)@, a@) == step_spec(*map, *cfg, old(self)@, event@),
            final(self)@.len() == 0 || frames_ok(*map, final(self)@),
    {
        let ghost frames = self@;
        let f = self.pop_frame();
        assert(frame_ok(*map, frames[frames.len() - 1]));
        assert(frames =~= self@.push(f@));
        assert(below_ok(*map, self@)) by {
            assert forall|i: int| 0 <= i < self@.len() implies #[trigger] frame_ok(*map, self@[i])
                && self@[i].stage is AwaitPrereqBuild by {
                assert(self@[i] == frames[i]);
            }
        }
        match f.stage {
            Stage::AwaitTargetStat => self.on_target_stat(map, cfg, f, event),
            Stage::Prereq => self.on_prereq(map, cfg, f),
            Stage::AwaitPrereqStat => self.on_prereq_stat(map, cfg, f, event),
            Stage::AwaitPrereqBuild { .. } => {
                self.push_frame(Ghost(*map), f);
                Action::Proceed
            },
            Stage::Line => self.on_line(map, cfg, f),
            Stage::AwaitLine => self.on_line_exit(map, cfg, f, event),
            Stage::Done => self.on_done(map, cfg, f),
        }
    }

    /// The target's lookup is answered.
    fn on_target_stat(&mut self, map: &RuleMap, cfg: &Config, f: Frame, event: Event) -> (a:
        Action)
        requires
            map.wf(),
            below_ok(*map, old(self)@),
            frame_ok(*map, f@),
            f@.stage is AwaitTargetStat,
        ensures
            (final(self)@, a@) == step_spec(*map, *cfg, old(self)@.push(f@), event@),
            final(self)@.len() == 0 || frames_ok(*map, final(self)@),
    {
        let mut f = f;
        assert(old(self)@.push(f@).drop_last() =~= old(self)@);
        match event {
            Event::Stat { stat } => {
                if contains_path(&cfg.old_file, &f.target) {
                    let target = f.target.clone();
                    f.stage = Stage::Done;
                    self.push_frame(Ghost(*map), f);
                    Action::UpToDate { target, old: true }
                } else {
                    f.target_mtime = resolve_mtime(&f.target, &stat, cfg);
                    f.stage = Stage::Prereq;
                    f.handle_pos = 0;
                    f.prereq_pos = 0;
                    f.should_execute = cfg.always_make;
                    f.executed = false;
                    self.push_frame(Ghost(*map), f);
                    Action::Proceed
                }
            },
            _ => {
                self.push_frame(Ghost(*map), f);
                Action::Proceed
            },
        }
    }

    /// The next prerequisite is looked at, or the rule's decision is made.
    fn on_prereq(&mut self, map: &RuleMap, cfg: &Config, f: Frame) -> (a: Action)
        requires
            map.wf(),
            below_ok(*map, old(self)@),
            frame_ok(*map, f@),
            f@.stage is Prereq,
        ensures
            forall|ev: EventView|
                (final(self)@, a@) == #[trigger] step_spec(*map, *cfg, old(self)@.push(f@), ev),
            final(self)@.len() == 0 || frames_ok(*map, final(self)@),
    {
        let mut f = f;
        assert(old(self)@.push(f@).drop_last() =~= old(self)@);
        let hs = match map.handles_of(&f.target) {
            Some(hs) => hs,
            None => {
                self.push_frame(Ghost(*map), f);
                return Action::Proceed;
            },
        };
        if f.handle_pos >= hs.len() {
            let executed = f.executed;
            let target = f.target.clone();
            f.stage = Stage::Done;
            self.push_frame(Ghost(*map), f);
            if executed {
                Action::Proceed
            } else {
                Action::UpToDate { target, old: false }
            }
        } else {
            let rule = map.rule(hs[f.handle_pos]);
            if f.prereq_pos < rule.prerequisites.len() {
                let p = rule.prerequisites[f.prereq_pos].clone();
                if cfg.always_make {
                    f.stage = Stage::AwaitPrereqBuild { stale: false };
                    self.push_frame(Ghost(*map), f);
                    self.enter(map, p)
                } else {
                    f.stage = Stage::AwaitPrereqStat;
                    self.push_frame(Ghost(*map), f);
                    Action::Stat { path: p }
                }
            } else if f.target_mtime.is_none() || f.should_execute {
                f.stage = Stage::Line;
                f.line_pos = 0;
                f.executed = true;
                self.push_frame(Ghost(*map), f);
                Action::Proceed
            } else {
                f.stage = Stage::Prereq;
                f.handle_pos = next_pos(hs, f.handle_pos);
                f.prereq_pos = 0;
                f.line_pos = 0;
                f.should_execute = cfg.always_make;
                self.push_frame(Ghost(*map), f);
                Action::Proceed
            }
        }
    }

    /// A prerequisite's lookup is answered.
    fn on_prereq_stat(&mut self, map: &RuleMap, cfg: &Config, f: Frame, event: Event) -> (a:
        Action)
        requires
            map.wf(),
            below_ok(*map, old(self)@),
            frame_ok(*map, f@),
            f@.stage is AwaitPrereqStat,
        ensures
            (final(self)@, a@) == step_spec(*map, *cfg, old(self)@.push(f@), event@),
            final(self)@.len() == 0 || frames_ok(*map, final(self)@),
    {
        let mut f = f;
        assert(old(self)@.push(f@).drop_last() =~= old(self)@);
        let hs = match map.handles_of(&f.target) {
            Some(hs) => hs,
            None => {
                self.push_frame(Ghost(*map), f);
                return Action::Proceed;
            },
        };
        match event {
            Event::Stat { stat } => {
                let rule = map.rule(hs[f.handle_pos]);
                let p = rule.prerequisites[f.prereq_pos].clone();
                match resolve_mtime(&p, &stat, cfg) {
                    None => {
                        f.stage = Stage::AwaitPrereqBuild { stale: true };
                        self.push_frame(Ghost(*map), f);
                        self.enter(map, p)
                    },
                    Some(pm) => {
                        let newer = match f.target_mtime {
                            Some(tm) => pm > tm,
                            None => false,
                        };
                        f.stage = Stage::Prereq;
                        f.prereq_pos = next_pos(&rule.prerequisites, f.prereq_pos);
                        f.should_execute = f.should_execute || newer;
                        self.push_frame(Ghost(*map), f);
                        Action::Proceed
                    },
                }
            },
            _ => {
                self.push_frame(Ghost(*map), f);
                Action::Proceed
            },
        }
    }

    /// The next recipe line is handed out, or the target moves to its next rule.
    fn on_line(&mut self, map: &RuleMap, cfg: &Config, f: Frame) -> (a: Action)
        requires
            map.wf(),
            below_ok(*map, old(self)@),
            frame_ok(*map, f@),
            f@.stage is Line,
        ensures
            forall|ev: EventView|
                (final(self)@, a@) == #[trigger] step_spec(*map, *cfg, old(self)@.push(f@), ev),
            final(self)@.len() == 0 || frames_ok(*map, final(self)@),
    {
        let mut f = f;
        assert(old(self)@.push(f@).drop_last() =~= old(self)@);
        let hs = match map.handles_of(&f.target) {
            Some(hs) => hs,
            None => {
                self.push_frame(Ghost(*map), f);
                return Action::Proceed;
            },
        };
        let rule = map.rule(hs[f.handle_pos]);
        if f.line_pos >= rule.recipe.len() {
            f.stage = Stage::Prereq;
            f.handle_pos = next_pos(hs, f.handle_pos);
            f.prereq_pos = 0;
            f.line_pos = 0;
            f.should_execute = cfg.always_make;
            self.push_frame(Ghost(*map), f);
            Action::Proceed
        } else {
            let line = rule.recipe[f.line_pos].clone();
            if cfg.just_print {
                f.line_pos = next_pos(&rule.recipe, f.line_pos);
                self.push_frame(Ghost(*map), f);
                Action::Echo { line }
            } else {
                let echo = line_echoed(&line);
                f.stage = Stage::AwaitLine;
                self.push_frame(Ghost(*map), f);
                Action::Run { line, echo }
            }
        }
    }

    /// A recipe line's process ended.
    fn on_line_exit(&mut self, map: &RuleMap, cfg: &Config, f: Frame, event: Event) -> (a:
        Action)
        requires
            map.wf(),
            below_ok(*map, old(self)@),
            frame_ok(*map, f@),
            f@.stage is AwaitLine,
        ensures
            (final(self)@, a@) == step_spec(*map, *cfg, old(self)@.push(f@), event@),
            final(self)@.len() == 0 || frames_ok(*map, final(self)@),
    {
        let mut f = f;
        assert(old(self)@.push(f@).drop_last() =~= old(self)@);
        let hs = match map.handles_of(&f.target) {
            Some(hs) => hs,
            None => {
                self.push_frame(Ghost(*map), f);
                return Action::Proceed;
            },
        };
        match event {
            Event::Exit { outcome } => {
                let h = hs[f.handle_pos];
                let rule = map.rule(h);
                match line_verdict(&rule.recipe[f.line_pos], cfg.ignore_errors, h, outcome) {
                    Ok(()) => {
                        f.stage = Stage::Line;
                        f.line_pos = next_pos(&rule.recipe, f.line_pos);
                        self.push_frame(Ghost(*map), f);
                        Action::Proceed
                    },
                    Err(e) => {
                        self.clear();
                        Action::Finished { result: Err(e) }
                    },
                }
            },
            _ => {
                self.push_frame(Ghost(*map), f);
                Action::Proceed
            },
        }
    }

    /// The top target is resolved: the build ends, or its dependent goes on.
    fn on_done(&mut self, map: &RuleMap, cfg: &Config, f: Frame) -> (a: Action)
        requires
            map.wf(),
            below_ok(*map, old(self)@),
            frame_ok(*map, f@),
            f@.stage is Done,
        ensures
            forall|ev: EventView|
                (final(self)@, a@) == #[trigger] step_spec(*map, *cfg, old(self)@.push(f@), ev),
            final(self)@.len() == 0 || frames_ok(*map, final(self)@),
    {
        assert(old(self)@.push(f@).drop_last() =~= old(self)@);
        if self.frames.len() == 0 {
            return Action::Finished { result: Ok(()) };
        }
        let ghost below = self@;
        let mut parent = self.pop_frame();
        assert(frame_ok(*map, below[below.len() - 1]));
        assert(below_ok(*map, self@)) by {
            assert forall|i: int| 0 <= i < self@.len() implies #[trigger] frame_ok(*map, self@[i])
                && self@[i].stage is AwaitPrereqBuild by {
                assert(self@[i] == below[i]);
                assert(frame_ok(*map, below[i]));
            }
        }
        let phs = match map.handles_of(&parent.target) {
            Some(phs) => phs,
            None => {
                self.push_frame(Ghost(*map), parent);
                return Action::Proceed;
            },
        };
        let prule = map.rule(phs[parent.handle_pos]);
        let stale = match parent.stage {
            Stage::AwaitPrereqBuild { stale } => stale,
            _ => false,
        };
        parent.stage = Stage::Prereq;
        parent.prereq_pos = next_pos(&prule.prerequisites, parent.prereq_pos);
        parent.should_execute = parent.should_execute || stale;
        self.push_frame(Ghost(*map), parent);
        Action::Proceed
    }
}

} // verus!
