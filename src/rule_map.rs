use vstd::prelude::*;

use crate::error::{ErrorView, MakeError};
use crate::engine::{enter, frames_ok, Action, Build};
use crate::rule::Rule;

verus! {

/// The texts of a sequence of strings.
pub open spec fn names_of(v: Seq<String>) -> Seq<Seq<char>> {
    v.map_values(|s: String| s@)
}

/// Well-formedness of a target index over a rule store: every list is
/// non-empty, names stored rules, keeps one colon kind, and holds one handle
/// where that kind is `:`.
pub open spec fn index_valid(index: Map<Seq<char>, Seq<usize>>, rules: Seq<Rule>) -> bool {
    forall|k: Seq<char>| #[trigger]
        index.contains_key(k) ==> {
            let hs = index[k];
            &&& hs.len() > 0
            &&& forall|j: int| 0 <= j < hs.len() ==> #[trigger] hs[j] < rules.len()
            &&& forall|j: int|
                0 <= j < hs.len() ==> (#[trigger] rules[hs[j] as int]).double_colon
                    == rules[hs[0] as int].double_colon
            &&& !rules[hs[0] as int].double_colon ==> hs.len() == 1
        }
}

/// Some name in `names` is `k`.
pub open spec fn old_index_has(names: Seq<String>, k: Seq<char>) -> bool {
    exists|j: int| 0 <= j < names.len() && names[j]@ == k
}

/// State of an insertion after some of the new rule's targets.
pub struct InsertState {
    pub index: Map<Seq<char>, Seq<usize>>,
    pub conflict: Option<Seq<char>>,
    pub ignored: nat,
}

/// Adds target `k` of the rule with handle `h` and colon kind `dc`.
pub open spec fn insert_target(
    s: InsertState,
    rules: Seq<Rule>,
    h: usize,
    dc: bool,
    k: Seq<char>,
) -> InsertState {
    if s.conflict is Some {
        s
    } else if !s.index.contains_key(k) {
        InsertState { index: s.index.insert(k, seq![h]), conflict: None, ignored: s.ignored }
    } else if rules[s.index[k][0] as int].double_colon != dc {
        InsertState { index: s.index, conflict: Some(k), ignored: s.ignored }
    } else if dc {
        InsertState {
            index: s.index.insert(k, s.index[k].push(h)),
            conflict: None,
            ignored: s.ignored,
        }
    } else {
        InsertState { index: s.index, conflict: None, ignored: s.ignored + 1 }
    }
}

/// The insertion state after the first `i` of `targets`.
pub open spec fn insert_upto(
    index: Map<Seq<char>, Seq<usize>>,
    rules: Seq<Rule>,
    targets: Seq<Seq<char>>,
    h: usize,
    dc: bool,
    i: nat,
) -> InsertState
    decreases i,
{
    if i == 0 {
        InsertState { index, conflict: None, ignored: 0 }
    } else {
        insert_target(
            insert_upto(index, rules, targets, h, dc, (i - 1) as nat),
            rules,
            h,
            dc,
            targets[i - 1],
        )
    }
}

/// Once a conflict is found, the rest of the targets change nothing.
pub proof fn lemma_conflict_stays(
    index: Map<Seq<char>, Seq<usize>>,
    rules: Seq<Rule>,
    targets: Seq<Seq<char>>,
    h: usize,
    dc: bool,
    i: nat,
    n: nat,
)
    requires
        i <= n,
        insert_upto(index, rules, targets, h, dc, i).conflict is Some,
    ensures
        insert_upto(index, rules, targets, h, dc, n) == insert_upto(index, rules, targets, h, dc, i),
    decreases n - i,
{
    if n > i {
        lemma_conflict_stays(index, rules, targets, h, dc, i, (n - 1) as nat);
    }
}

/// A `::` rule for a target that has only `::` rules, or none, is kept after
/// them: the target's handle list grows by the new handle, in order.
pub proof fn lemma_double_colon_kept(map: RuleMap, rule: Rule, k: Seq<char>)
    requires
        map.wf(),
        rule.double_colon,
        names_of(rule.targets@) == seq![k],
        map.index().contains_key(k) ==> map.rules_view()[map.index()[k][0] as int].double_colon,
    ensures
        map.insert_outcome(rule).conflict is None,
        map.insert_outcome(rule).index[k] == (if map.index().contains_key(k) {
            map.index()[k]
        } else {
            Seq::<usize>::empty()
        }).push(map.rules_view().len() as usize),
{
    assert(names_of(rule.targets@).len() == rule.targets@.len());
    let h = map.rules_view().len() as usize;
    let rules = map.rules_view().push(rule);
    assert(insert_upto(map.index(), rules, seq![k], h, true, 1) == insert_target(
        insert_upto(map.index(), rules, seq![k], h, true, 0),
        rules,
        h,
        true,
        k,
    ));
    if map.index().contains_key(k) {
        assert(map.index()[k][0] < map.rules_view().len());
        assert(rules[map.index()[k][0] as int] == map.rules_view()[map.index()[k][0] as int]);
    } else {
        assert(seq![h] =~= Seq::<usize>::empty().push(h));
    }
}

/// A second `:` definition of a `:` target is ignored: the index is
/// unchanged, and the insertion succeeds with one ignored definition.
pub proof fn lemma_single_colon_first_wins(map: RuleMap, rule: Rule, k: Seq<char>)
    requires
        map.wf(),
        !rule.double_colon,
        names_of(rule.targets@) == seq![k],
        map.index().contains_key(k),
        !map.rules_view()[map.index()[k][0] as int].double_colon,
    ensures
        map.insert_outcome(rule).conflict is None,
        map.insert_outcome(rule).index == map.index(),
        map.insert_outcome(rule).ignored == 1,
{
    assert(names_of(rule.targets@).len() == rule.targets@.len());
    let h = map.rules_view().len() as usize;
    let rules = map.rules_view().push(rule);
    assert(map.index()[k][0] < map.rules_view().len());
    assert(rules[map.index()[k][0] as int] == map.rules_view()[map.index()[k][0] as int]);
    assert(insert_upto(map.index(), rules, seq![k], h, false, 1) == insert_target(
        insert_upto(map.index(), rules, seq![k], h, false, 0),
        rules,
        h,
        false,
        k,
    ));
}

/// A rule whose target was declared with the other colon kind is a conflict.
pub proof fn lemma_mixed_colons_conflict(map: RuleMap, rule: Rule, k: Seq<char>)
    requires
        map.wf(),
        names_of(rule.targets@) == seq![k],
        map.index().contains_key(k),
        map.rules_view()[map.index()[k][0] as int].double_colon != rule.double_colon,
    ensures
        map.insert_outcome(rule).conflict == Some(k),
        map.insert_outcome(rule).index == map.index(),
{
    assert(names_of(rule.targets@).len() == rule.targets@.len());
    let h = map.rules_view().len() as usize;
    let rules = map.rules_view().push(rule);
    assert(map.index()[k][0] < map.rules_view().len());
    assert(rules[map.index()[k][0] as int] == map.rules_view()[map.index()[k][0] as int]);
    assert(insert_upto(map.index(), rules, seq![k], h, rule.double_colon, 1) == insert_target(
        insert_upto(map.index(), rules, seq![k], h, rule.double_colon, 0),
        rules,
        h,
        rule.double_colon,
        k,
    ));
}

/// Rules in an append-only store, indexed by target name. A handle is a
/// rule's position in the store.
pub struct RuleMap {
    rules: Vec<Rule>,
    names: Vec<String>,
    lists: Vec<Vec<usize>>,
    index: Ghost<Map<Seq<char>, Seq<usize>>>,
}

impl RuleMap {
    /// The stored rules, by handle.
    pub closed spec fn rules_view(&self) -> Seq<Rule> {
        self.rules@
    }

    /// The handles of the rules of each target, in declaration order.
    pub closed spec fn index(&self) -> Map<Seq<char>, Seq<usize>> {
        self.index@
    }

    /// The outcome of inserting `rule` into this map.
    pub open spec fn insert_outcome(&self, rule: Rule) -> InsertState {
        insert_upto(
            self.index(),
            self.rules_view().push(rule),
            names_of(rule.targets@),
            self.rules_view().len() as usize,
            rule.double_colon,
            rule.targets@.len(),
        )
    }

    /// The name and handle vectors hold exactly the index.
    pub closed spec fn entries_match(&self) -> bool {
        &&& self.names@.len() == self.lists@.len()
        &&& forall|i: int, j: int|
            0 <= i < j < self.names@.len() ==> self.names@[i]@ != self.names@[j]@
        &&& forall|i: int|
            0 <= i < self.names@.len() ==> #[trigger] self.index@.contains_key(self.names@[i]@)
                && self.index@[self.names@[i]@] == self.lists@[i]@
        &&& forall|k: Seq<char>| #[trigger]
            self.index@.contains_key(k) ==> exists|i: int|
                0 <= i < self.names@.len() && self.names@[i]@ == k
    }

    /// The map's invariant.
    pub open spec fn wf(&self) -> bool {
        &&& self.entries_match()
        &&& index_valid(self.index(), self.rules_view())
    }

    /// An empty map.
    pub fn new() -> (r: RuleMap)
        ensures
            r.wf(),
            r.rules_view().len() == 0,
            r.index() == Map::<Seq<char>, Seq<usize>>::empty(),
    {
        RuleMap { rules: Vec::new(), names: Vec::new(), lists: Vec::new(), index: Ghost(Map::empty()) }
    }

    /// Number of stored rules.
    pub fn len(&self) -> (r: usize)
        ensures
            r == self.rules_view().len(),
    {
        self.rules.len()
    }

    /// The rule with handle `h`.
    pub fn rule(&self, h: usize) -> (r: &Rule)
        requires
            h < self.rules_view().len(),
        ensures
            *r == self.rules_view()[h as int],
    {
        &self.rules[h]
    }

    fn find(&self, name: &String) -> (r: Option<usize>)
        requires
            self.entries_match(),
        ensures
            match r {
                Some(i) => i < self.names@.len() && self.names@[i as int]@ == name@,
                None => !self.index@.contains_key(name@),
            },
    {
        let mut i: usize = 0;
        while i < self.names.len()
            invariant
                self.entries_match(),
                i <= self.names@.len(),
                forall|j: int| 0 <= j < i ==> self.names@[j]@ != name@,
            decreases self.names@.len() - i,
        {
            if self.names[i] == *name {
                return Some(i);
            }
            i = i + 1;
        }
        None
    }

    /// The handles of the rules that produce `target`, if any.
    pub fn handles_of(&self, target: &String) -> (r: Option<&Vec<usize>>)
        requires
            self.wf(),
        ensures
            r is Some <==> self.index().contains_key(target@),
            r is Some ==> r->0@ == self.index()[target@],
    {
        match self.find(target) {
            Some(i) => {
                assert(self.index@.contains_key(self.names@[i as int]@));
                Some(&self.lists[i])
            },
            None => None,
        }
    }

    /// Stores `rule` and files it under each of its targets, in order. A new
    /// target gets a list of its own; a `::` rule joins the list of a `::`
    /// target; a duplicate `:` definition is ignored, and `Ok` counts those.
    /// A target already declared with the other colon kind stops the filing
    /// there with a conflict error; the rule stays stored.
    pub fn insert(&mut self, rule: Rule) -> (r: Result<usize, MakeError>)
        requires
            old(self).wf(),
        ensures
            final(self).wf(),
            final(self).rules_view() == old(self).rules_view().push(rule),
            final(self).index() == old(self).insert_outcome(rule).index,
            match r {
                Ok(n) => old(self).insert_outcome(rule).conflict is None && n
                    == old(self).insert_outcome(rule).ignored,
                Err(e) => old(self).insert_outcome(rule).conflict is Some && e@
                    == ErrorView::ConflictingColons(
                    old(self).insert_outcome(rule).conflict->0,
                    old(self).rules_view().len() as usize,
                ),
            },
    {
        let h = self.rules.len();
        let dc = rule.double_colon;
        let ghost rules_ext = self.rules@.push(rule);
        let ghost targets = names_of(rule.targets@);
        let ghost index0 = self.index@;
        let mut ignored: usize = 0;
        let mut i: usize = 0;
        while i < rule.targets.len()
            invariant
                self.rules@ == old(self).rules@,
                h == self.rules@.len(),
                rules_ext == self.rules@.push(rule),
                dc == rule.double_colon,
                targets == names_of(rule.targets@),
                index0 == old(self).index@,
                i <= rule.targets@.len(),
                ignored <= i,
                self.entries_match(),
                index_valid(self.index@, rules_ext),
                insert_upto(index0, rules_ext, targets, h, dc, i as nat).conflict is None,
                insert_upto(index0, rules_ext, targets, h, dc, i as nat).index == self.index@,
                insert_upto(index0, rules_ext, targets, h, dc, i as nat).ignored == ignored,
            decreases rule.targets@.len() - i,
        {
            let target = &rule.targets[i];
            let ghost k = target@;
            assert(targets[i as int] == k);
            let ghost prev = insert_upto(index0, rules_ext, targets, h, dc, i as nat);
            assert(insert_upto(index0, rules_ext, targets, h, dc, (i + 1) as nat) == insert_target(
                prev,
                rules_ext,
                h,
                dc,
                k,
            ));
            match self.find(target) {
                None => {
                    let ghost names_before = self.names@;
                    self.names.push(target.clone());
                    self.lists.push(vec![h]);
                    self.index = Ghost(self.index@.insert(k, seq![h]));
                    assert(self.lists@.last()@ =~= seq![h]);
                    assert forall|m: int| 0 <= m < self.names@.len() implies #[trigger]
                        self.index@.contains_key(self.names@[m]@)
                            && self.index@[self.names@[m]@] == self.lists@[m]@ by {
                        if m < names_before.len() {
                            assert(self.names@[m] == names_before[m]);
                        }
                    }
                    assert forall|k2: Seq<char>| #[trigger]
                        self.index@.contains_key(k2) implies exists|j: int|
                            0 <= j < self.names@.len() && self.names@[j]@ == k2 by {
                        if k2 != k {
                            assert(old_index_has(names_before, k2));
                            let j = choose|j: int|
                                0 <= j < names_before.len() && names_before[j]@ == k2;
                            assert(self.names@[j]@ == k2);
                        } else {
                            assert(self.names@[names_before.len() as int]@ == k2);
                        }
                    }
                },
                Some(j) => {
                    assert(self.index@.contains_key(self.names@[j as int]@));
                    let first = self.lists[j][0];
                    let first_dc = if first < self.rules.len() {
                        self.rules[first].double_colon
                    } else {
                        dc
                    };
                    if first_dc != dc {
                        let name = target.clone();
                        proof {
                            lemma_conflict_stays(
                                index0,
                                rules_ext,
                                targets,
                                h,
                                dc,
                                (i + 1) as nat,
                                targets.len(),
                            );
                        }
                        self.rules.push(rule);
                        return Err(MakeError::ConflictingColons { target: name, rule: h });
                    }
                    if dc {
                        let ghost lists_before = self.lists@;
                        self.lists[j].push(h);
                        self.index = Ghost(self.index@.insert(k, prev.index[k].push(h)));
                        assert forall|m: int| 0 <= m < self.names@.len() implies #[trigger]
                            self.index@.contains_key(self.names@[m]@)
                                && self.index@[self.names@[m]@] == self.lists@[m]@ by {
                            if m != j {
                                assert(self.lists@[m] == lists_before[m]);
                            }
                        }
                    } else {
                        ignored = ignored + 1;
                    }
                },
            }
            i = i + 1;
        }
        let ghost names_pre = self.names@;
        let ghost lists_pre = self.lists@;
        self.rules.push(rule);
        assert(self.names@ == names_pre && self.lists@ == lists_pre);
        assert(self.rules@ =~= rules_ext);
        Ok(ignored)
    }

    /// Starts building `target`: returns the build and its first action,
    /// which ends the build with an unknown-target error when no rule
    /// produces `target`. The host then answers each action through
    /// [`Build::step`] until the build is finished.
    pub fn execute(&self, target: &String) -> (r: (Build, Action))
        requires
            self.wf(),
        ensures
            (r.0@, r.1@) == enter(*self, Seq::empty(), target@),
            r.0@.len() == 0 || frames_ok(*self, r.0@),
    {
        Build::start(self, target)
    }
}

} // verus!
