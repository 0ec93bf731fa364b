//! Whole target resolutions against a host whose files do not change and
//! whose recipe lines all succeed: what such a resolution runs, and that it
//! ends.
use vstd::prelude::*;

use crate::config::{listed, resolved, Config, PathStat};
use crate::engine::{
    next_prereq, next_rule, prereqs_at, recipe_at, staged, step_spec, ActionView, EventView,
    FrameView,
    Stage,
};
use crate::rule::{echoed, OutcomeView};
use crate::rule_map::{names_of, RuleMap};

verus! {

/// The host's answer to action `a` when files do not change (`files` gives
/// what a lookup of each path finds) and every recipe line exits with 0.
pub open spec fn answer(a: ActionView, files: spec_fn(Seq<char>) -> PathStat) -> EventView {
    match a {
        ActionView::Stat(p) => EventView::Stat(files(p)),
        ActionView::Run(_, _) => EventView::Exit(OutcomeView::Exited(0)),
        _ => EventView::Next,
    }
}

/// `n` moves of the build from `frames`, the last action handed out being
/// `a`, against the host of [`answer`]: the frames reached and the actions
/// handed out on the way.
pub open spec fn run_moves(
    map: RuleMap,
    cfg: Config,
    frames: Seq<FrameView>,
    a: ActionView,
    files: spec_fn(Seq<char>) -> PathStat,
    n: nat,
) -> (Seq<FrameView>, Seq<ActionView>)
    decreases n,
{
    if n == 0 {
        (frames, Seq::empty())
    } else {
        let (f1, a1) = step_spec(map, cfg, frames, answer(a, files));
        let (fs, acts) = run_moves(map, cfg, f1, a1, files, (n - 1) as nat);
        (fs, seq![a1] + acts)
    }
}

/// `n` moves hand out `n` actions.
pub proof fn lemma_run_moves_len(
    map: RuleMap,
    cfg: Config,
    frames: Seq<FrameView>,
    a: ActionView,
    files: spec_fn(Seq<char>) -> PathStat,
    n: nat,
)
    ensures
        run_moves(map, cfg, frames, a, files, n).1.len() == n,
    decreases n,
{
    if n > 0 {
        let (f1, a1) = step_spec(map, cfg, frames, answer(a, files));
        lemma_run_moves_len(map, cfg, f1, a1, files, (n - 1) as nat);
    }
}

/// `n1 + n2` moves are `n1` moves followed by `n2` more.
pub proof fn lemma_run_moves_split(
    map: RuleMap,
    cfg: Config,
    frames: Seq<FrameView>,
    a: ActionView,
    files: spec_fn(Seq<char>) -> PathStat,
    n1: nat,
    n2: nat,
)
    requires
        n1 > 0,
    ensures
        ({
            let (f1, acts1) = run_moves(map, cfg, frames, a, files, n1);
            let (f2, acts2) = run_moves(map, cfg, f1, acts1.last(), files, n2);
            run_moves(map, cfg, frames, a, files, n1 + n2) == (f2, acts1 + acts2)
        }),
    decreases n1,
{
    let (g1, b1) = step_spec(map, cfg, frames, answer(a, files));
    if n1 > 1 {
        lemma_run_moves_split(map, cfg, g1, b1, files, (n1 - 1) as nat, n2);
        let (f1, acts1) = run_moves(map, cfg, g1, b1, files, (n1 - 1) as nat);
        let (f2, acts2) = run_moves(map, cfg, f1, acts1.last(), files, n2);
        assert(run_moves(map, cfg, frames, a, files, n1).1 == seq![b1] + acts1);
        assert((seq![b1] + acts1).last() == acts1.last());
        assert(seq![b1] + (acts1 + acts2) =~= (seq![b1] + acts1) + acts2);
        assert((n1 + n2 - 1) as nat == (n1 - 1) as nat + n2);
    } else {
        assert(run_moves(map, cfg, g1, b1, files, 0).1 =~= Seq::<ActionView>::empty());
        assert(run_moves(map, cfg, frames, a, files, 1).1 =~= seq![b1]);
        assert(n1 + n2 - 1 == n2);
    }
}

/// Every prerequisite of the rule at `f` from position `j` on is found no
/// newer than `t`.
pub open spec fn prereqs_fresh(
    map: RuleMap,
    cfg: Config,
    f: FrameView,
    files: spec_fn(Seq<char>) -> PathStat,
    t: u128,
    j: int,
) -> bool {
    forall|q: int|
        j <= q < prereqs_at(map, f).len() ==> {
            let p = #[trigger] prereqs_at(map, f)[q]@;
            resolved(p, files(p), cfg) is Some && resolved(p, files(p), cfg)->0 <= t
        }
}

/// No action of `acts` runs a recipe line.
pub open spec fn runs_nothing(acts: Seq<ActionView>) -> bool {
    forall|i: int| 0 <= i < acts.len() ==> !(#[trigger] acts[i] is Run)
}

/// Two moves check one prerequisite found no newer than the target.
proof fn lemma_fresh_prereqs_scanned(
    map: RuleMap,
    cfg: Config,
    frames: Seq<FrameView>,
    a: ActionView,
    files: spec_fn(Seq<char>) -> PathStat,
    t: u128,
)
    requires
        frames.len() > 0,
        frames.last().stage is Prereq,
        frames.last().handle_pos < map.index()[frames.last().target].len(),
        frames.last().prereq_pos < prereqs_at(map, frames.last()).len(),
        frames.last().target_mtime == Some(t),
        !cfg.always_make,
        prereqs_fresh(map, cfg, frames.last(), files, t, frames.last().prereq_pos as int),
    ensures
        ({
            let f = frames.last();
            let (fs, acts) = run_moves(map, cfg, frames, a, files, 2);
            &&& fs == frames.drop_last().push(next_prereq(f, false))
            &&& runs_nothing(acts)
            &&& acts.last() == ActionView::Proceed
        }),
{
    let f = frames.last();
    let p = prereqs_at(map, f)[f.prereq_pos as int]@;
    let (g1, b1) = step_spec(map, cfg, frames, answer(a, files));
    assert(b1 == ActionView::Stat(p));
    assert(g1.drop_last() =~= frames.drop_last());
    assert(g1.last() == staged(f, Stage::AwaitPrereqStat));
    let (g2, b2) = step_spec(map, cfg, g1, answer(b1, files));
    assert(b2 == ActionView::Proceed);
    assert(run_moves(map, cfg, g2, b2, files, 0).1 =~= Seq::<ActionView>::empty());
    assert(run_moves(map, cfg, g1, b1, files, 1).1 =~= seq![b2]);
    let acts = run_moves(map, cfg, frames, a, files, 2).1;
    assert(acts =~= seq![b1, b2]);
}

/// A rule whose remaining prerequisites are all found no newer than the
/// target is passed over without running anything.
proof fn lemma_idle_rule_passed(
    map: RuleMap,
    cfg: Config,
    frames: Seq<FrameView>,
    a: ActionView,
    files: spec_fn(Seq<char>) -> PathStat,
    t: u128,
)
    requires
        frames.len() > 0,
        frames.last().stage is Prereq,
        frames.last().handle_pos < map.index()[frames.last().target].len(),
        frames.last().prereq_pos <= prereqs_at(map, frames.last()).len(),
        prereqs_at(map, frames.last()).len() < usize::MAX,
        frames.last().target_mtime == Some(t),
        !frames.last().should_execute,
        !cfg.always_make,
        prereqs_fresh(map, cfg, frames.last(), files, t, frames.last().prereq_pos as int),
    ensures
        ({
            let f = frames.last();
            let n = (2 * (prereqs_at(map, f).len() - f.prereq_pos) + 1) as nat;
            let (fs, acts) = run_moves(map, cfg, frames, a, files, n);
            &&& fs == frames.drop_last().push(next_rule(f, cfg))
            &&& runs_nothing(acts)
            &&& acts.last() == ActionView::Proceed
        }),
    decreases prereqs_at(map, frames.last()).len() - frames.last().prereq_pos,
{
    let f = frames.last();
    let len = prereqs_at(map, f).len();
    if f.prereq_pos >= len {
        let (g1, b1) = step_spec(map, cfg, frames, answer(a, files));
        assert(run_moves(map, cfg, g1, b1, files, 0).1 =~= Seq::<ActionView>::empty());
        assert(run_moves(map, cfg, frames, a, files, 1).1 =~= seq![b1]);
    } else {
        lemma_fresh_prereqs_scanned(map, cfg, frames, a, files, t);
        let (f1, acts1) = run_moves(map, cfg, frames, a, files, 2);
        let g = next_prereq(f, false);
        assert(f1.last() == g);
        assert(f1.drop_last() =~= frames.drop_last());
        assert(prereqs_at(map, g) == prereqs_at(map, f));
        assert(prereqs_fresh(map, cfg, g, files, t, g.prereq_pos as int));
        lemma_idle_rule_passed(map, cfg, f1, acts1.last(), files, t);
        let m = (2 * (len - g.prereq_pos) + 1) as nat;
        lemma_run_moves_split(map, cfg, frames, a, files, 2, m);
        let (f2, acts2) = run_moves(map, cfg, f1, acts1.last(), files, m);
        lemma_run_moves_len(map, cfg, f1, acts1.last(), files, m);
        assert(next_rule(g, cfg) == next_rule(f, cfg));
        assert((2 + m) as nat == (2 * (len - f.prereq_pos) + 1) as nat);
        assert forall|i: int| 0 <= i < (acts1 + acts2).len() implies !(#[trigger] (acts1
            + acts2)[i] is Run) by {
            if i < acts1.len() {
                assert((acts1 + acts2)[i] == acts1[i]);
            } else {
                assert((acts1 + acts2)[i] == acts2[i - acts1.len()]);
            }
        }
        assert(acts2.len() == m);
        assert((acts1 + acts2).last() == acts2.last());
    }
}

/// The target of `frames`' top frame is resolved to `Done` after `n` moves
/// with no recipe line run, its last action reporting it up to date.
pub open spec fn idle_resolution(
    map: RuleMap,
    cfg: Config,
    frames: Seq<FrameView>,
    a: ActionView,
    files: spec_fn(Seq<char>) -> PathStat,
    n: nat,
) -> bool {
    let (fs, acts) = run_moves(map, cfg, frames, a, files, n);
    &&& n > 0
    &&& fs.len() == frames.len()
    &&& fs.drop_last() == frames.drop_last()
    &&& fs.last().stage == Stage::Done
    &&& runs_nothing(acts)
    &&& acts.last() == ActionView::UpToDate(frames.last().target, false)
}

/// Every prerequisite of the rule with handle `h` is found no newer than `t`.
pub open spec fn rule_fresh(
    map: RuleMap,
    cfg: Config,
    files: spec_fn(Seq<char>) -> PathStat,
    t: u128,
    h: usize,
) -> bool {
    forall|q: int|
        0 <= q < map.rules_view()[h as int].prerequisites@.len() ==> {
            let p = #[trigger] map.rules_view()[h as int].prerequisites@[q]@;
            resolved(p, files(p), cfg) is Some && resolved(p, files(p), cfg)->0 <= t
        }
}

/// The rules from the frame's position on, none stale, are passed over and
/// the target is reported up to date.
proof fn lemma_idle_rules_from(
    map: RuleMap,
    cfg: Config,
    frames: Seq<FrameView>,
    a: ActionView,
    files: spec_fn(Seq<char>) -> PathStat,
    t: u128,
)
    requires
        frames.len() > 0,
        frames.last().stage is Prereq,
        map.index().contains_key(frames.last().target),
        frames.last().handle_pos <= map.index()[frames.last().target].len(),
        map.index()[frames.last().target].len() < usize::MAX,
        frames.last().prereq_pos == 0,
        frames.last().target_mtime == Some(t),
        !frames.last().should_execute,
        !frames.last().executed,
        !cfg.always_make,
        forall|h: int|
            0 <= h < map.index()[frames.last().target].len() ==> rule_fresh(
                map,
                cfg,
                files,
                t,
                #[trigger] map.index()[frames.last().target][h],
            ),
        forall|h: int|
            0 <= h < map.index()[frames.last().target].len() ==> (#[trigger] map.rules_view()[map.index()[frames.last().target][h] as int]).prerequisites@.len() < usize::MAX,
    ensures
        exists|n: nat| idle_resolution(map, cfg, frames, a, files, n),
    decreases map.index()[frames.last().target].len() - frames.last().handle_pos,
{
    let f = frames.last();
    let hs = map.index()[f.target];
    if f.handle_pos >= hs.len() {
        let (g1, b1) = step_spec(map, cfg, frames, answer(a, files));
        assert(run_moves(map, cfg, g1, b1, files, 0).1 =~= Seq::<ActionView>::empty());
        assert(run_moves(map, cfg, frames, a, files, 1).1 =~= seq![b1]);
        assert(g1.drop_last() =~= frames.drop_last());
        assert(idle_resolution(map, cfg, frames, a, files, 1));
    } else {
        assert(rule_fresh(map, cfg, files, t, hs[f.handle_pos as int]));
        assert(map.rules_view()[hs[f.handle_pos as int] as int].prerequisites@.len() < usize::MAX);
        assert(prereqs_fresh(map, cfg, f, files, t, 0));
        lemma_idle_rule_passed(map, cfg, frames, a, files, t);
        let m = (2 * prereqs_at(map, f).len() + 1) as nat;
        let (f1, acts1) = run_moves(map, cfg, frames, a, files, m);
        let g = next_rule(f, cfg);
        assert(f1.last() == g);
        assert(f1.drop_last() =~= frames.drop_last());
        lemma_idle_rules_from(map, cfg, f1, acts1.last(), files, t);
        let k = choose|k: nat| idle_resolution(map, cfg, f1, acts1.last(), files, k);
        lemma_run_moves_split(map, cfg, frames, a, files, m, k);
        let (f2, acts2) = run_moves(map, cfg, f1, acts1.last(), files, k);
        lemma_run_moves_len(map, cfg, f1, acts1.last(), files, k);
        assert forall|i: int| 0 <= i < (acts1 + acts2).len() implies !(#[trigger] (acts1
            + acts2)[i] is Run) by {
            if i < acts1.len() {
                assert((acts1 + acts2)[i] == acts1[i]);
            } else {
                assert((acts1 + acts2)[i] == acts2[i - acts1.len()]);
            }
        }
        assert(f2.drop_last() =~= frames.drop_last());
        assert((acts1 + acts2).last() == acts2.last());
        assert(idle_resolution(map, cfg, frames, a, files, m + k));
    }
}

/// When files do not change, a target that is found at time `t`, is not
/// forced old, and all of whose rules' prerequisites are found no newer than
/// `t` is, with `always_make` off, resolved once its lookup is answered
/// without running any recipe line, and reported up to date.
pub proof fn lemma_fresh_target_up_to_date(
    map: RuleMap,
    cfg: Config,
    frames: Seq<FrameView>,
    files: spec_fn(Seq<char>) -> PathStat,
    t: u128,
)
    requires
        frames.len() > 0,
        frames.last().stage is AwaitTargetStat,
        !listed(cfg.old_file@, frames.last().target),
        map.index().contains_key(frames.last().target),
        map.index()[frames.last().target].len() < usize::MAX,
        forall|h: int|
            0 <= h < map.index()[frames.last().target].len() ==> (#[trigger] map.rules_view()[map.index()[frames.last().target][h] as int]).prerequisites@.len() < usize::MAX,
        resolved(frames.last().target, files(frames.last().target), cfg) == Some(t),
        !cfg.always_make,
        forall|h: int|
            0 <= h < map.index()[frames.last().target].len() ==> rule_fresh(
                map,
                cfg,
                files,
                t,
                #[trigger] map.index()[frames.last().target][h],
            ),
    ensures
        exists|n: nat|
            idle_resolution(map, cfg, frames, ActionView::Stat(frames.last().target), files, n),
{
    let f = frames.last();
    let a = ActionView::Stat(f.target);
    let (g1, b1) = step_spec(map, cfg, frames, answer(a, files));
    assert(g1.drop_last() =~= frames.drop_last());
    assert(b1 == ActionView::Proceed);
    assert(run_moves(map, cfg, g1, b1, files, 0).1 =~= Seq::<ActionView>::empty());
    assert(run_moves(map, cfg, frames, a, files, 1).1 =~= seq![b1]);
    lemma_idle_rules_from(map, cfg, g1, b1, files, t);
    let k = choose|k: nat| idle_resolution(map, cfg, g1, b1, files, k);
    lemma_run_moves_split(map, cfg, frames, a, files, 1, k);
    let (f2, acts2) = run_moves(map, cfg, g1, b1, files, k);
    lemma_run_moves_len(map, cfg, g1, b1, files, k);
    assert forall|i: int| 0 <= i < (seq![b1] + acts2).len() implies !(#[trigger] (seq![b1]
        + acts2)[i] is Run) by {
        if i >= 1 {
            assert((seq![b1] + acts2)[i] == acts2[i - 1]);
        }
    }
    assert(f2.drop_last() =~= frames.drop_last());
    assert((seq![b1] + acts2).last() == acts2.last());
    assert(idle_resolution(map, cfg, frames, a, files, 1 + k));
}

/// The lines that the actions of `acts` run, in order.
pub open spec fn lines_run(acts: Seq<ActionView>) -> Seq<Seq<char>>
    decreases acts.len(),
{
    if acts.len() == 0 {
        Seq::empty()
    } else {
        (match acts[0] {
            ActionView::Run(line, _) => seq![line],
            _ => Seq::empty(),
        }) + lines_run(acts.drop_first())
    }
}

/// The lines run by two runs of actions are those of the first, then those
/// of the second.
pub proof fn lemma_lines_run_concat(a: Seq<ActionView>, b: Seq<ActionView>)
    ensures
        lines_run(a + b) == lines_run(a) + lines_run(b),
    decreases a.len(),
{
    if a.len() == 0 {
        assert(a + b =~= b);
        assert(lines_run(a) + lines_run(b) =~= lines_run(b));
    } else {
        assert((a + b).drop_first() =~= a.drop_first() + b);
        lemma_lines_run_concat(a.drop_first(), b);
        let head = match a[0] {
            ActionView::Run(line, _) => seq![line],
            _ => Seq::<Seq<char>>::empty(),
        };
        assert(head + (lines_run(a.drop_first()) + lines_run(b)) =~= (head + lines_run(
            a.drop_first(),
        )) + lines_run(b));
    }
}

/// A run of actions none of which runs a line runs no line.
proof fn lemma_runs_nothing_lines(acts: Seq<ActionView>)
    requires
        runs_nothing(acts),
    ensures
        lines_run(acts) == Seq::<Seq<char>>::empty(),
    decreases acts.len(),
{
    if acts.len() > 0 {
        assert(!(acts[0] is Run));
        assert forall|i: int| 0 <= i < acts.drop_first().len() implies !(
        #[trigger] acts.drop_first()[i] is Run) by {
            assert(acts.drop_first()[i] == acts[i + 1]);
        }
        lemma_runs_nothing_lines(acts.drop_first());
        assert(lines_run(acts) =~= Seq::<Seq<char>>::empty());
    }
}

/// Every prerequisite of the rule at `f` from position `j` on is found.
pub open spec fn prereqs_found(
    map: RuleMap,
    cfg: Config,
    f: FrameView,
    files: spec_fn(Seq<char>) -> PathStat,
    j: int,
) -> bool {
    forall|q: int|
        j <= q < prereqs_at(map, f).len() ==> {
            let p = #[trigger] prereqs_at(map, f)[q]@;
            resolved(p, files(p), cfg) is Some
        }
}

/// Some prerequisite of the rule at `f` from position `j` on is found newer
/// than `t`.
pub open spec fn some_prereq_newer(
    map: RuleMap,
    cfg: Config,
    f: FrameView,
    files: spec_fn(Seq<char>) -> PathStat,
    t: u128,
    j: int,
) -> bool {
    exists|q: int|
        j <= q < prereqs_at(map, f).len() && {
            let p = #[trigger] prereqs_at(map, f)[q]@;
            resolved(p, files(p), cfg) is Some && resolved(p, files(p), cfg)->0 > t
        }
}

/// Checking the remaining prerequisites, all found, runs nothing and marks
/// the rule if one of them is newer than the target.
proof fn lemma_found_prereqs_scanned(
    map: RuleMap,
    cfg: Config,
    frames: Seq<FrameView>,
    a: ActionView,
    files: spec_fn(Seq<char>) -> PathStat,
    t: u128,
)
    requires
        frames.len() > 0,
        frames.last().stage is Prereq,
        frames.last().handle_pos < map.index()[frames.last().target].len(),
        frames.last().prereq_pos <= prereqs_at(map, frames.last()).len(),
        prereqs_at(map, frames.last()).len() < usize::MAX,
        frames.last().target_mtime == Some(t),
        !cfg.always_make,
        prereqs_found(map, cfg, frames.last(), files, frames.last().prereq_pos as int),
    ensures
        ({
            let f = frames.last();
            let n = (2 * (prereqs_at(map, f).len() - f.prereq_pos)) as nat;
            let (fs, acts) = run_moves(map, cfg, frames, a, files, n);
            &&& fs.drop_last() == frames.drop_last()
            &&& fs.len() == frames.len()
            &&& fs.last() == FrameView {
                prereq_pos: prereqs_at(map, f).len() as usize,
                should_execute: fs.last().should_execute,
                ..f
            }
            &&& (f.should_execute || some_prereq_newer(map, cfg, f, files, t, f.prereq_pos as int))
                ==> fs.last().should_execute
            &&& runs_nothing(acts)
            &&& acts.len() == n
        }),
    decreases prereqs_at(map, frames.last()).len() - frames.last().prereq_pos,
{
    let f = frames.last();
    let len = prereqs_at(map, f).len();
    lemma_run_moves_len(map, cfg, frames, a, files, (2 * (len - f.prereq_pos)) as nat);
    if f.prereq_pos >= len {
        assert(run_moves(map, cfg, frames, a, files, 0).1 =~= Seq::<ActionView>::empty());
    } else {
        let p = prereqs_at(map, f)[f.prereq_pos as int]@;
        let (g1, b1) = step_spec(map, cfg, frames, answer(a, files));
        assert(b1 == ActionView::Stat(p));
        assert(g1.drop_last() =~= frames.drop_last());
        let (g2, b2) = step_spec(map, cfg, g1, answer(b1, files));
        let newer = resolved(p, files(p), cfg)->0 > t;
        let g = next_prereq(f, newer);
        assert(g2.last() == g);
        assert(g2.drop_last() =~= frames.drop_last());
        assert(run_moves(map, cfg, g2, b2, files, 0).1 =~= Seq::<ActionView>::empty());
        assert(run_moves(map, cfg, g1, b1, files, 1).1 =~= seq![b2]);
        let (f1, acts1) = run_moves(map, cfg, frames, a, files, 2);
        assert(acts1 =~= seq![b1, b2]);
        assert(f1 == g2);
        assert(prereqs_at(map, g) == prereqs_at(map, f));
        assert(prereqs_found(map, cfg, g, files, g.prereq_pos as int));
        lemma_found_prereqs_scanned(map, cfg, f1, acts1.last(), files, t);
        let m = (2 * (len - g.prereq_pos)) as nat;
        lemma_run_moves_split(map, cfg, frames, a, files, 2, m);
        let (f2, acts2) = run_moves(map, cfg, f1, acts1.last(), files, m);
        assert((2 + m) as nat == (2 * (len - f.prereq_pos)) as nat);
        if some_prereq_newer(map, cfg, f, files, t, f.prereq_pos as int) && !newer {
            let q = choose|q: int|
                f.prereq_pos <= q < prereqs_at(map, f).len() && {
                    let p = #[trigger] prereqs_at(map, f)[q]@;
                    resolved(p, files(p), cfg) is Some && resolved(p, files(p), cfg)->0 > t
                };
            assert(q != f.prereq_pos);
            assert(some_prereq_newer(map, cfg, g, files, t, g.prereq_pos as int));
        }
        assert forall|i: int| 0 <= i < (acts1 + acts2).len() implies !(#[trigger] (acts1
            + acts2)[i] is Run) by {
            if i < acts1.len() {
                assert((acts1 + acts2)[i] == acts1[i]);
            } else {
                assert((acts1 + acts2)[i] == acts2[i - acts1.len()]);
            }
        }
    }
}

/// The remaining recipe lines of a rule are run in order, then the target
/// moves to its next rule.
proof fn lemma_lines_ran(
    map: RuleMap,
    cfg: Config,
    frames: Seq<FrameView>,
    a: ActionView,
    files: spec_fn(Seq<char>) -> PathStat,
)
    requires
        frames.len() > 0,
        frames.last().stage is Line,
        frames.last().handle_pos < map.index()[frames.last().target].len(),
        frames.last().line_pos <= recipe_at(map, frames.last()).len(),
        recipe_at(map, frames.last()).len() < usize::MAX,
        !cfg.just_print,
    ensures
        ({
            let f = frames.last();
            let n = (2 * (recipe_at(map, f).len() - f.line_pos) + 1) as nat;
            let (fs, acts) = run_moves(map, cfg, frames, a, files, n);
            &&& fs == frames.drop_last().push(next_rule(f, cfg))
            &&& lines_run(acts) == names_of(
                recipe_at(map, f).subrange(f.line_pos as int, recipe_at(map, f).len() as int),
            )
            &&& acts.len() == n
            &&& acts.last() == ActionView::Proceed
        }),
    decreases recipe_at(map, frames.last()).len() - frames.last().line_pos,
{
    let f = frames.last();
    let len = recipe_at(map, f).len();
    let n = (2 * (len - f.line_pos) + 1) as nat;
    lemma_run_moves_len(map, cfg, frames, a, files, n);
    if f.line_pos >= len {
        let (g1, b1) = step_spec(map, cfg, frames, answer(a, files));
        assert(run_moves(map, cfg, g1, b1, files, 0).1 =~= Seq::<ActionView>::empty());
        let acts = run_moves(map, cfg, frames, a, files, 1).1;
        assert(acts =~= seq![b1]);
        assert(lines_run(acts.drop_first()) == Seq::<Seq<char>>::empty());
        assert(lines_run(acts) =~= Seq::<Seq<char>>::empty());
        assert(names_of(recipe_at(map, f).subrange(f.line_pos as int, len as int))
            =~= Seq::<Seq<char>>::empty());
    } else {
        let line = recipe_at(map, f)[f.line_pos as int]@;
        let (g1, b1) = step_spec(map, cfg, frames, answer(a, files));
        assert(b1 == ActionView::Run(line, echoed(line)));
        assert(g1.drop_last() =~= frames.drop_last());
        let (g2, b2) = step_spec(map, cfg, g1, answer(b1, files));
        let g = FrameView { stage: Stage::Line, line_pos: (f.line_pos + 1) as usize, ..f };
        assert(g2.last() == g);
        assert(g2.drop_last() =~= frames.drop_last());
        assert(run_moves(map, cfg, g2, b2, files, 0).1 =~= Seq::<ActionView>::empty());
        assert(run_moves(map, cfg, g1, b1, files, 1).1 =~= seq![b2]);
        let (f1, acts1) = run_moves(map, cfg, frames, a, files, 2);
        assert(acts1 =~= seq![b1, b2]);
        assert(lines_run(acts1.drop_first().drop_first()) == Seq::<Seq<char>>::empty());
        assert(lines_run(acts1.drop_first()) =~= Seq::<Seq<char>>::empty());
        assert(lines_run(acts1) =~= seq![line]);
        assert(f1 == g2);
        assert(recipe_at(map, g) == recipe_at(map, f));
        lemma_lines_ran(map, cfg, f1, acts1.last(), files);
        let m = (2 * (len - g.line_pos) + 1) as nat;
        lemma_run_moves_split(map, cfg, frames, a, files, 2, m);
        let (f2, acts2) = run_moves(map, cfg, f1, acts1.last(), files, m);
        assert((2 + m) as nat == n);
        lemma_lines_run_concat(acts1, acts2);
        assert(next_rule(g, cfg) == next_rule(f, cfg));
        let all = recipe_at(map, f).subrange(f.line_pos as int, len as int);
        assert(names_of(all) =~= seq![line] + names_of(
            recipe_at(map, f).subrange(g.line_pos as int, len as int),
        ));
        assert((acts1 + acts2).last() == acts2.last());
    }
}

/// The target of `frames`' top frame is resolved to `Done` after `n` moves,
/// the lines run on the way being those of `recipe`, in order.
pub open spec fn recipe_resolution(
    map: RuleMap,
    cfg: Config,
    frames: Seq<FrameView>,
    a: ActionView,
    files: spec_fn(Seq<char>) -> PathStat,
    n: nat,
    recipe: Seq<String>,
) -> bool {
    let (fs, acts) = run_moves(map, cfg, frames, a, files, n);
    &&& fs.drop_last() == frames.drop_last()
    &&& fs.len() == frames.len()
    &&& fs.last().stage == Stage::Done
    &&& lines_run(acts) == names_of(recipe)
}

/// When files do not change and every recipe line exits with 0, a target
/// with one rule that is found at time `t`, is not forced old, and whose
/// prerequisites are all found, one of them newer than `t`, is (with
/// `always_make` and print-only mode off) resolved once its lookup is
/// answered with each line of its recipe run exactly once, in order.
pub proof fn lemma_stale_target_runs_recipe_once(
    map: RuleMap,
    cfg: Config,
    frames: Seq<FrameView>,
    files: spec_fn(Seq<char>) -> PathStat,
    t: u128,
)
    requires
        frames.len() > 0,
        frames.last().stage is AwaitTargetStat,
        map.index().contains_key(frames.last().target),
        map.index()[frames.last().target].len() == 1,
        !listed(cfg.old_file@, frames.last().target),
        resolved(frames.last().target, files(frames.last().target), cfg) == Some(t),
        !cfg.always_make,
        !cfg.just_print,
        ({
            let r = map.rules_view()[map.index()[frames.last().target][0] as int];
            &&& r.prerequisites@.len() < usize::MAX
            &&& r.recipe@.len() < usize::MAX
            &&& forall|q: int|
                0 <= q < r.prerequisites@.len() ==> {
                    let p = #[trigger] r.prerequisites@[q]@;
                    resolved(p, files(p), cfg) is Some
                }
            &&& exists|q: int|
                0 <= q < r.prerequisites@.len() && {
                    let p = #[trigger] r.prerequisites@[q]@;
                    resolved(p, files(p), cfg) is Some && resolved(p, files(p), cfg)->0 > t
                }
        }),
    ensures
        exists|n: nat|
            recipe_resolution(
                map,
                cfg,
                frames,
                ActionView::Stat(frames.last().target),
                files,
                n,
                map.rules_view()[map.index()[frames.last().target][0] as int].recipe@,
            ),
{
    let f = frames.last();
    let r = map.rules_view()[map.index()[f.target][0] as int];
    let a = ActionView::Stat(f.target);
    // The lookup is answered.
    let (g1, b1) = step_spec(map, cfg, frames, answer(a, files));
    assert(g1.drop_last() =~= frames.drop_last());
    assert(run_moves(map, cfg, g1, b1, files, 0).1 =~= Seq::<ActionView>::empty());
    let (h1, acts1) = run_moves(map, cfg, frames, a, files, 1);
    assert(acts1 =~= seq![b1]);
    assert(h1 == g1);
    let f1 = g1.last();
    assert(prereqs_at(map, f1) == r.prerequisites@);
    assert(recipe_at(map, f1) == r.recipe@);
    assert(prereqs_found(map, cfg, f1, files, 0));
    assert(some_prereq_newer(map, cfg, f1, files, t, 0));
    // The prerequisites are checked.
    lemma_found_prereqs_scanned(map, cfg, g1, b1, files, t);
    let n2 = (2 * r.prerequisites@.len()) as nat;
    let (h2, acts2) = run_moves(map, cfg, g1, b1, files, n2);
    lemma_run_moves_split(map, cfg, frames, a, files, 1, n2);
    // The rule is marked and starts its recipe.
    let last2 = (acts1 + acts2).last();
    let (g3, b3) = step_spec(map, cfg, h2, answer(last2, files));
    assert(g3.drop_last() =~= frames.drop_last());
    assert(run_moves(map, cfg, g3, b3, files, 0).1 =~= Seq::<ActionView>::empty());
    let (h3, acts3) = run_moves(map, cfg, h2, last2, files, 1);
    assert(acts3 =~= seq![b3]);
    assert(h3 == g3);
    lemma_run_moves_split(map, cfg, frames, a, files, 1 + n2, 1);
    let f3 = g3.last();
    assert(recipe_at(map, f3) == r.recipe@);
    assert(f3.line_pos == 0);
    // The recipe runs.
    let acts123 = (acts1 + acts2) + acts3;
    lemma_lines_ran(map, cfg, g3, acts123.last(), files);
    let n4 = (2 * r.recipe@.len() + 1) as nat;
    let (h4, acts4) = run_moves(map, cfg, g3, acts123.last(), files, n4);
    lemma_run_moves_split(map, cfg, frames, a, files, 1 + n2 + 1, n4);
    // No rule is left.
    let all4 = acts123 + acts4;
    lemma_run_moves_len(map, cfg, g3, acts123.last(), files, n4);
    assert(all4.last() == acts4.last());
    let (g5, b5) = step_spec(map, cfg, h4, answer(all4.last(), files));
    assert(g5.drop_last() =~= frames.drop_last());
    assert(run_moves(map, cfg, g5, b5, files, 0).1 =~= Seq::<ActionView>::empty());
    let (h5, acts5) = run_moves(map, cfg, h4, all4.last(), files, 1);
    assert(acts5 =~= seq![b5]);
    assert(h5 == g5);
    lemma_run_moves_split(map, cfg, frames, a, files, 1 + n2 + 1 + n4, 1);
    // Only the recipe's lines ran.
    lemma_runs_nothing_lines(acts1);
    lemma_runs_nothing_lines(acts2);
    assert(lines_run(acts3.drop_first()) == Seq::<Seq<char>>::empty());
    assert(lines_run(acts3) =~= Seq::<Seq<char>>::empty());
    assert(lines_run(acts5.drop_first()) == Seq::<Seq<char>>::empty());
    assert(lines_run(acts5) =~= Seq::<Seq<char>>::empty());
    lemma_lines_run_concat(acts1, acts2);
    lemma_lines_run_concat(acts1 + acts2, acts3);
    lemma_lines_run_concat(acts123, acts4);
    lemma_lines_run_concat(all4, acts5);
    assert(r.recipe@.subrange(0, r.recipe@.len() as int) =~= r.recipe@);
    let n = 1 + n2 + 1 + n4 + 1;
    assert(lines_run(all4 + acts5) =~= names_of(r.recipe@));
    assert(g5.last().stage == Stage::Done);
    assert(recipe_resolution(map, cfg, frames, a, files, n, r.recipe@));
}

/// The lines of the recipes of the rules with handles `hs[h..]`, in order.
pub open spec fn recipes_from(map: RuleMap, hs: Seq<usize>, h: int) -> Seq<Seq<char>>
    decreases hs.len() - h,
{
    if h < 0 || h >= hs.len() {
        Seq::empty()
    } else {
        names_of(map.rules_view()[hs[h] as int].recipe@) + recipes_from(map, hs, h + 1)
    }
}

/// Every rule with a handle in `hs` has no prerequisites and a recipe whose
/// length fits a position.
pub open spec fn plain_rules(map: RuleMap, hs: Seq<usize>) -> bool {
    forall|h: int|
        0 <= h < hs.len() ==> {
            let r = #[trigger] map.rules_view()[hs[h] as int];
            &&& r.prerequisites@.len() == 0
            &&& r.recipe@.len() < usize::MAX
        }
}

/// The target of `frames`' top frame is resolved to `Done` after `n` moves,
/// the lines run on the way being `lines`.
pub open spec fn lines_resolution(
    map: RuleMap,
    cfg: Config,
    frames: Seq<FrameView>,
    a: ActionView,
    files: spec_fn(Seq<char>) -> PathStat,
    n: nat,
    lines: Seq<Seq<char>>,
) -> bool {
    let (fs, acts) = run_moves(map, cfg, frames, a, files, n);
    &&& n > 0
    &&& fs.drop_last() == frames.drop_last()
    &&& fs.len() == frames.len()
    &&& fs.last().stage == Stage::Done
    &&& lines_run(acts) == lines
}

/// For a missing target, the recipes of its rules from the frame's position
/// on run in order.
proof fn lemma_missing_target_rules_from(
    map: RuleMap,
    cfg: Config,
    frames: Seq<FrameView>,
    a: ActionView,
    files: spec_fn(Seq<char>) -> PathStat,
)
    requires
        frames.len() > 0,
        frames.last().stage is Prereq,
        frames.last().prereq_pos == 0,
        frames.last().target_mtime is None,
        frames.last().handle_pos <= map.index()[frames.last().target].len(),
        map.index()[frames.last().target].len() < usize::MAX,
        plain_rules(map, map.index()[frames.last().target]),
        !cfg.just_print,
    ensures
        exists|n: nat|
            lines_resolution(
                map,
                cfg,
                frames,
                a,
                files,
                n,
                recipes_from(map, map.index()[frames.last().target], frames.last().handle_pos as int),
            ),
    decreases map.index()[frames.last().target].len() - frames.last().handle_pos,
{
    let f = frames.last();
    let hs = map.index()[f.target];
    let (g1, b1) = step_spec(map, cfg, frames, answer(a, files));
    assert(g1.drop_last() =~= frames.drop_last());
    assert(run_moves(map, cfg, g1, b1, files, 0).1 =~= Seq::<ActionView>::empty());
    let (h1, acts1) = run_moves(map, cfg, frames, a, files, 1);
    assert(acts1 =~= seq![b1]);
    assert(h1 == g1);
    assert(lines_run(acts1.drop_first()) == Seq::<Seq<char>>::empty());
    if f.handle_pos >= hs.len() {
        assert(lines_run(acts1) =~= Seq::<Seq<char>>::empty());
        assert(lines_resolution(map, cfg, frames, a, files, 1, recipes_from(map, hs, f.handle_pos as int)));
    } else {
        let r = map.rules_view()[hs[f.handle_pos as int] as int];
        assert(r.prerequisites@.len() == 0 && r.recipe@.len() < usize::MAX);
        assert(!(b1 is Run));
        assert(lines_run(acts1) =~= Seq::<Seq<char>>::empty());
        let f1 = g1.last();
        assert(recipe_at(map, f1) == r.recipe@);
        lemma_lines_ran(map, cfg, g1, b1, files);
        let m = (2 * r.recipe@.len() + 1) as nat;
        let (h2, acts2) = run_moves(map, cfg, g1, b1, files, m);
        lemma_run_moves_split(map, cfg, frames, a, files, 1, m);
        let g = next_rule(f1, cfg);
        assert(h2.last() == g);
        assert(h2.drop_last() =~= frames.drop_last());
        let all2 = acts1 + acts2;
        lemma_lines_run_concat(acts1, acts2);
        assert(all2.last() == acts2.last());
        lemma_missing_target_rules_from(map, cfg, h2, all2.last(), files);
        let k = choose|k: nat|
            lines_resolution(
                map,
                cfg,
                h2,
                all2.last(),
                files,
                k,
                recipes_from(map, hs, g.handle_pos as int),
            );
        lemma_run_moves_split(map, cfg, frames, a, files, 1 + m, k);
        let (h3, acts3) = run_moves(map, cfg, h2, all2.last(), files, k);
        lemma_lines_run_concat(all2, acts3);
        assert(r.recipe@.subrange(0, r.recipe@.len() as int) =~= r.recipe@);
        assert(h3.drop_last() =~= frames.drop_last());
        assert(lines_resolution(
            map,
            cfg,
            frames,
            a,
            files,
            1 + m + k,
            recipes_from(map, hs, f.handle_pos as int),
        ));
    }
}

/// When every recipe line exits with 0, a target that cannot be found and is
/// not forced old, whose rules have no prerequisites, runs the recipes of
/// all its rules, in declaration order, once its lookup is answered (print-only
/// mode off).
pub proof fn lemma_missing_target_runs_rules_in_order(
    map: RuleMap,
    cfg: Config,
    frames: Seq<FrameView>,
    files: spec_fn(Seq<char>) -> PathStat,
)
    requires
        frames.len() > 0,
        frames.last().stage is AwaitTargetStat,
        map.index().contains_key(frames.last().target),
        map.index()[frames.last().target].len() < usize::MAX,
        !listed(cfg.old_file@, frames.last().target),
        resolved(frames.last().target, files(frames.last().target), cfg) is None,
        plain_rules(map, map.index()[frames.last().target]),
        !cfg.just_print,
    ensures
        exists|n: nat|
            lines_resolution(
                map,
                cfg,
                frames,
                ActionView::Stat(frames.last().target),
                files,
                n,
                recipes_from(map, map.index()[frames.last().target], 0),
            ),
{
    let f = frames.last();
    let hs = map.index()[f.target];
    let a = ActionView::Stat(f.target);
    let (g1, b1) = step_spec(map, cfg, frames, answer(a, files));
    assert(g1.drop_last() =~= frames.drop_last());
    assert(b1 == ActionView::Proceed);
    assert(run_moves(map, cfg, g1, b1, files, 0).1 =~= Seq::<ActionView>::empty());
    let (h1, acts1) = run_moves(map, cfg, frames, a, files, 1);
    assert(acts1 =~= seq![b1]);
    assert(lines_run(acts1.drop_first()) == Seq::<Seq<char>>::empty());
    assert(lines_run(acts1) =~= Seq::<Seq<char>>::empty());
    lemma_missing_target_rules_from(map, cfg, g1, b1, files);
    let k = choose|k: nat| lines_resolution(map, cfg, g1, b1, files, k, recipes_from(map, hs, 0));
    lemma_run_moves_split(map, cfg, frames, a, files, 1, k);
    let (h2, acts2) = run_moves(map, cfg, g1, b1, files, k);
    lemma_lines_run_concat(acts1, acts2);
    assert(h2.drop_last() =~= frames.drop_last());
    assert(lines_resolution(map, cfg, frames, a, files, 1 + k, recipes_from(map, hs, 0)));
}

} // verus!
