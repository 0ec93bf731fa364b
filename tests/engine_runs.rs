use std::collections::HashMap;

use make_core::config::{contains_path, resolve_mtime, YEAR_NANOS};
use make_core::rule::{line_echoed, line_modifier, line_verdict};
use make_core::{Action, Config, Context, Event, MakeError, Outcome, PathStat, Rule, RuleMap};

fn strings(v: &[&str]) -> Vec<String> {
    v.iter().map(|s| s.to_string()).collect()
}

fn rule(targets: &[&str], prereqs: &[&str], recipe: &[&str], double_colon: bool) -> Rule {
    Rule {
        targets: strings(targets),
        prerequisites: strings(prereqs),
        recipe: strings(recipe),
        context: Context::new(),
        double_colon,
    }
}

fn config() -> Config {
    Config {
        old_file: vec![],
        new_file: vec![],
        always_make: false,
        just_print: false,
        ignore_errors: false,
    }
}

/// A simulated host: file times in memory, and recipe lines of the forms
/// `touch <path>` (sets the path's time to the clock) and `exit <n>`.
struct Host {
    files: HashMap<String, u128>,
    clock: u128,
    runs: Vec<String>,
    echoed: Vec<String>,
    printed: Vec<String>,
    up_to_date: Vec<(String, bool)>,
    kill_all: bool,
    spawn_fails: bool,
}

impl Host {
    fn new(files: &[(&str, u128)]) -> Host {
        Host {
            files: files.iter().map(|(p, t)| (p.to_string(), *t)).collect(),
            clock: 1000,
            runs: vec![],
            echoed: vec![],
            printed: vec![],
            up_to_date: vec![],
            kill_all: false,
            spawn_fails: false,
        }
    }

    fn run_line(&mut self, line: &str) -> Outcome {
        self.runs.push(line.to_string());
        if self.spawn_fails {
            return Outcome::SpawnFailed { message: "no shell".to_string() };
        }
        if self.kill_all {
            return Outcome::Killed;
        }
        let cmd = line.trim_start_matches(|c| c == '@' || c == '-' || c == '+');
        if let Some(path) = cmd.strip_prefix("touch ") {
            self.files.insert(path.to_string(), self.clock);
            self.clock += 1;
            Outcome::Exited { code: 0 }
        } else if let Some(n) = cmd.strip_prefix("exit ") {
            Outcome::Exited { code: n.parse().unwrap() }
        } else {
            Outcome::Exited { code: 0 }
        }
    }

    fn build(&mut self, map: &RuleMap, cfg: &Config, target: &str) -> Result<(), MakeError> {
        let (mut build, mut action) = map.execute(&target.to_string());
        for _ in 0..10_000 {
            let event = match action {
                Action::Finished { result } => return result,
                Action::Stat { path } => {
                    let stat = match self.files.get(&path) {
                        Some(t) => PathStat { readable: true, modified: Some(*t), now: self.clock },
                        None => PathStat { readable: false, modified: None, now: self.clock },
                    };
                    Event::Stat { stat }
                }
                Action::Echo { line } => {
                    self.printed.push(line);
                    Event::Next
                }
                Action::Run { line, echo } => {
                    if echo {
                        self.echoed.push(line.clone());
                    }
                    Event::Exit { outcome: self.run_line(&line) }
                }
                Action::UpToDate { target, old } => {
                    self.up_to_date.push((target, old));
                    Event::Next
                }
                Action::Proceed => Event::Next,
            };
            assert!(!build.is_finished());
            action = build.step(map, cfg, event);
        }
        panic!("build did not finish");
    }
}

fn map_of(rules: Vec<Rule>) -> RuleMap {
    let mut map = RuleMap::new();
    for r in rules {
        assert!(map.insert(r).is_ok());
    }
    map
}

#[test]
fn unknown_target_fails_without_running() {
    let map = map_of(vec![rule(&["a"], &[], &["touch a"], false)]);
    let mut host = Host::new(&[]);
    let r = host.build(&map, &config(), "zzz");
    assert!(matches!(r, Err(MakeError::UnknownTarget { ref target }) if target == "zzz"));
    assert!(host.runs.is_empty());
}

#[test]
fn unknown_prerequisite_fails_the_build() {
    let map = map_of(vec![rule(&["a"], &["missing"], &["touch a"], false)]);
    let mut host = Host::new(&[]);
    let r = host.build(&map, &config(), "a");
    assert!(matches!(r, Err(MakeError::UnknownTarget { ref target }) if target == "missing"));
    assert!(host.runs.is_empty());
}

#[test]
fn dependency_cycle_is_reported() {
    let map = map_of(vec![
        rule(&["a"], &["b"], &["touch a"], false),
        rule(&["b"], &["a"], &["touch b"], false),
    ]);
    let mut host = Host::new(&[]);
    let r = host.build(&map, &config(), "a");
    assert!(matches!(r, Err(MakeError::DependencyCycle { ref target }) if target == "a"));
    assert!(host.runs.is_empty());
}

#[test]
fn shared_prerequisite_is_visited_twice() {
    let map = map_of(vec![
        rule(&["top"], &["l", "r"], &["touch top"], false),
        rule(&["l"], &["base"], &["touch l"], false),
        rule(&["r"], &["base"], &["touch r"], false),
        rule(&["base"], &[], &["echo base"], false),
    ]);
    let mut host = Host::new(&[]);
    assert!(host.build(&map, &config(), "top").is_ok());
    assert_eq!(
        host.runs,
        strings(&["echo base", "touch l", "echo base", "touch r", "touch top"])
    );
}

#[test]
fn double_colon_rules_all_run_in_order() {
    let mut map = RuleMap::new();
    assert_eq!(map.insert(rule(&["t"], &[], &["echo one"], true)).ok(), Some(0));
    assert!(map.insert(rule(&["other"], &[], &["echo other"], true)).is_ok());
    assert_eq!(map.insert(rule(&["t"], &[], &["echo two"], true)).ok(), Some(0));
    assert_eq!(map.insert(rule(&["t"], &[], &["echo three"], true)).ok(), Some(0));
    let mut host = Host::new(&[]);
    assert!(host.build(&map, &config(), "t").is_ok());
    assert_eq!(host.runs, strings(&["echo one", "echo two", "echo three"]));
}

#[test]
fn single_colon_duplicate_is_ignored() {
    let mut map = RuleMap::new();
    assert_eq!(map.insert(rule(&["t"], &[], &["echo first"], false)).ok(), Some(0));
    assert_eq!(map.insert(rule(&["t"], &[], &["echo second"], false)).ok(), Some(1));
    assert_eq!(map.len(), 2);
    let mut host = Host::new(&[]);
    assert!(host.build(&map, &config(), "t").is_ok());
    assert_eq!(host.runs, strings(&["echo first"]));
}

#[test]
fn single_then_double_colon_conflicts() {
    let mut map = RuleMap::new();
    assert!(map.insert(rule(&["t"], &[], &["echo a"], false)).is_ok());
    let r = map.insert(rule(&["t"], &[], &["echo b"], true));
    assert!(matches!(r, Err(MakeError::ConflictingColons { ref target, rule: 1 }) if target == "t"));
    assert_eq!(map.len(), 2);
}

#[test]
fn double_then_single_colon_conflicts() {
    let mut map = RuleMap::new();
    assert!(map.insert(rule(&["t"], &[], &["echo a"], true)).is_ok());
    let r = map.insert(rule(&["u", "t"], &[], &["echo b"], false));
    assert!(matches!(r, Err(MakeError::ConflictingColons { ref target, rule: 1 }) if target == "t"));
    // The targets filed before the conflict stay filed.
    let mut host = Host::new(&[]);
    assert!(host.build(&map, &config(), "u").is_ok());
    assert_eq!(host.runs, strings(&["echo b"]));
}

#[test]
fn missing_target_without_prerequisites_is_built() {
    let map = map_of(vec![rule(&["a"], &[], &["touch a"], false)]);
    let mut host = Host::new(&[]);
    assert!(host.build(&map, &config(), "a").is_ok());
    assert_eq!(host.runs, strings(&["touch a"]));
    assert!(host.up_to_date.is_empty());
}

#[test]
fn fresh_target_is_up_to_date() {
    let map = map_of(vec![
        rule(&["a"], &["b", "c"], &["touch a"], false),
        rule(&["b"], &[], &[], false),
        rule(&["c"], &[], &[], false),
    ]);
    let mut host = Host::new(&[("a", 50), ("b", 10), ("c", 50)]);
    assert!(host.build(&map, &config(), "a").is_ok());
    assert!(host.runs.is_empty());
    assert_eq!(host.up_to_date, vec![("a".to_string(), false)]);
}

#[test]
fn newer_prerequisite_runs_recipe_once() {
    let map = map_of(vec![
        rule(&["a"], &["b", "c"], &["touch a"], false),
        rule(&["b"], &[], &[], false),
        rule(&["c"], &[], &[], false),
    ]);
    let mut host = Host::new(&[("a", 50), ("b", 60), ("c", 70)]);
    assert!(host.build(&map, &config(), "a").is_ok());
    assert_eq!(host.runs, strings(&["touch a"]));
}

#[test]
fn missing_prerequisite_is_built_first() {
    let map = map_of(vec![
        rule(&["a"], &["b"], &["touch a"], false),
        rule(&["b"], &[], &["touch b"], false),
    ]);
    let mut host = Host::new(&[("a", 50)]);
    assert!(host.build(&map, &config(), "a").is_ok());
    assert_eq!(host.runs, strings(&["touch b", "touch a"]));
}

#[test]
fn always_make_rebuilds_everything() {
    let map = map_of(vec![
        rule(&["a"], &["b"], &["touch a"], false),
        rule(&["b"], &[], &["touch b"], false),
    ]);
    let mut host = Host::new(&[("a", 50), ("b", 10)]);
    let cfg = Config { always_make: true, ..config() };
    assert!(host.build(&map, &cfg, "a").is_ok());
    assert_eq!(host.runs, strings(&["touch b", "touch a"]));
}

#[test]
fn old_file_target_is_never_built() {
    let map = map_of(vec![
        rule(&["a"], &["b"], &["touch a"], false),
        rule(&["b"], &[], &[], false),
    ]);
    let mut host = Host::new(&[("a", 5), ("b", 60)]);
    let cfg = Config { old_file: strings(&["a"]), ..config() };
    assert!(host.build(&map, &cfg, "a").is_ok());
    assert!(host.runs.is_empty());
    assert_eq!(host.up_to_date, vec![("a".to_string(), true)]);
}

#[test]
fn old_file_prerequisite_does_not_force_rebuild() {
    let map = map_of(vec![
        rule(&["a"], &["b"], &["touch a"], false),
        rule(&["b"], &[], &[], false),
    ]);
    let mut host = Host::new(&[("a", 50), ("b", 60)]);
    let cfg = Config { old_file: strings(&["b"]), ..config() };
    assert!(host.build(&map, &cfg, "a").is_ok());
    assert!(host.runs.is_empty());
}

#[test]
fn new_file_prerequisite_forces_rebuild() {
    let map = map_of(vec![
        rule(&["a"], &["b"], &["touch a"], false),
        rule(&["b"], &[], &[], false),
    ]);
    let mut host = Host::new(&[("a", 50), ("b", 10)]);
    let cfg = Config { new_file: strings(&["b"]), ..config() };
    assert!(host.build(&map, &cfg, "a").is_ok());
    assert_eq!(host.runs, strings(&["touch a"]));
}

#[test]
fn dash_line_ignores_exit_status() {
    let map = map_of(vec![rule(&["a"], &[], &["-exit 7", "touch a"], false)]);
    let mut host = Host::new(&[]);
    assert!(host.build(&map, &config(), "a").is_ok());
    assert_eq!(host.runs, strings(&["-exit 7", "touch a"]));
}

#[test]
fn plain_line_exit_status_fails() {
    let map = map_of(vec![rule(&["a"], &[], &["exit 7", "touch a"], false)]);
    let mut host = Host::new(&[]);
    let r = host.build(&map, &config(), "a");
    assert!(matches!(r, Err(MakeError::NonzeroExit { rule: 0, code: 7 })));
    assert_eq!(host.runs, strings(&["exit 7"]));
}

#[test]
fn ignore_errors_continues_after_failure() {
    let map = map_of(vec![rule(&["a"], &[], &["exit 3", "touch a"], false)]);
    let mut host = Host::new(&[]);
    let cfg = Config { ignore_errors: true, ..config() };
    assert!(host.build(&map, &cfg, "a").is_ok());
    assert_eq!(host.runs.len(), 2);
}

#[test]
fn killed_line_is_fatal_even_with_dash() {
    let map = map_of(vec![rule(&["a"], &[], &["-sleep 9"], false)]);
    let mut host = Host::new(&[]);
    host.kill_all = true;
    let cfg = Config { ignore_errors: true, ..config() };
    let r = host.build(&map, &cfg, "a");
    assert!(matches!(r, Err(MakeError::Killed { rule: 0 })));
}

#[test]
fn spawn_failure_is_reported() {
    let map = map_of(vec![rule(&["a"], &[], &["touch a"], false)]);
    let mut host = Host::new(&[]);
    host.spawn_fails = true;
    let r = host.build(&map, &config(), "a");
    assert!(matches!(r, Err(MakeError::SpawnFailed { rule: 0, ref message }) if message == "no shell"));
}

#[test]
fn at_line_runs_without_echo() {
    let map = map_of(vec![rule(&["a"], &[], &["@touch a", "echo hi"], false)]);
    let mut host = Host::new(&[]);
    assert!(host.build(&map, &config(), "a").is_ok());
    assert_eq!(host.runs, strings(&["@touch a", "echo hi"]));
    assert_eq!(host.echoed, strings(&["echo hi"]));
}

#[test]
fn just_print_echoes_every_line_and_runs_none() {
    let map = map_of(vec![
        rule(&["a"], &["b"], &["@touch a", "-exit 7"], false),
        rule(&["b"], &[], &["+touch b"], false),
    ]);
    let mut host = Host::new(&[]);
    let cfg = Config { just_print: true, ..config() };
    assert!(host.build(&map, &cfg, "a").is_ok());
    assert!(host.runs.is_empty());
    assert_eq!(host.printed, strings(&["+touch b", "@touch a", "-exit 7"]));
}

#[test]
fn build_then_rebuild_is_up_to_date() {
    let map = map_of(vec![rule(&["A"], &["B"], &["touch A"], false), rule(&["B"], &[], &[], false)]);
    let mut host = Host::new(&[("B", 10)]);
    assert!(host.build(&map, &config(), "A").is_ok());
    assert_eq!(host.runs, strings(&["touch A"]));
    host.runs.clear();
    assert!(host.build(&map, &config(), "A").is_ok());
    assert!(host.runs.is_empty());
    assert!(host.up_to_date.contains(&("A".to_string(), false)));
}

#[test]
fn existing_older_target_is_rebuilt() {
    let map = map_of(vec![rule(&["A"], &["B"], &["touch A"], false), rule(&["B"], &[], &[], false)]);
    let mut host = Host::new(&[("A", 5), ("B", 10)]);
    assert!(host.build(&map, &config(), "A").is_ok());
    assert_eq!(host.runs, strings(&["touch A"]));
}

#[test]
fn resolve_mtime_applies_overrides() {
    let cfg = Config { old_file: strings(&["old"]), new_file: strings(&["new"]), ..config() };
    let seen = PathStat { readable: true, modified: Some(42), now: 100 };
    let gone = PathStat { readable: false, modified: None, now: 100 };
    assert_eq!(resolve_mtime(&"x".to_string(), &seen, &cfg), Some(42));
    assert_eq!(resolve_mtime(&"x".to_string(), &gone, &cfg), None);
    assert_eq!(resolve_mtime(&"old".to_string(), &seen, &cfg), Some(0));
    assert_eq!(resolve_mtime(&"old".to_string(), &gone, &cfg), None);
    assert_eq!(resolve_mtime(&"new".to_string(), &seen, &cfg), Some(100 + YEAR_NANOS));
    let late = PathStat { readable: true, modified: Some(1), now: u128::MAX - 5 };
    assert_eq!(resolve_mtime(&"new".to_string(), &late, &cfg), Some(u128::MAX));
}

#[test]
fn contains_path_matches_whole_names() {
    let paths = strings(&["ab", "c"]);
    assert!(contains_path(&paths, &"ab".to_string()));
    assert!(!contains_path(&paths, &"a".to_string()));
    assert!(!contains_path(&vec![], &"a".to_string()));
}

#[test]
fn line_modifiers_are_read() {
    assert_eq!(line_modifier(&"@echo".to_string()), Some('@'));
    assert_eq!(line_modifier(&"-rm x".to_string()), Some('-'));
    assert_eq!(line_modifier(&"+make".to_string()), Some('+'));
    assert_eq!(line_modifier(&"echo".to_string()), None);
    assert_eq!(line_modifier(&"".to_string()), None);
    assert!(!line_echoed(&"@echo".to_string()));
    assert!(line_echoed(&"-echo".to_string()));
}

#[test]
fn line_verdicts() {
    let l = "-false".to_string();
    assert!(line_verdict(&l, false, 3, Outcome::Exited { code: 7 }).is_ok());
    let p = "false".to_string();
    assert!(matches!(
        line_verdict(&p, false, 3, Outcome::Exited { code: 7 }),
        Err(MakeError::NonzeroExit { rule: 3, code: 7 })
    ));
    assert!(line_verdict(&p, true, 3, Outcome::Exited { code: 7 }).is_ok());
    assert!(line_verdict(&p, false, 3, Outcome::Exited { code: 0 }).is_ok());
}
