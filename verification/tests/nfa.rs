use regex_engine::nfa::{epsilon_closure, EpsilonNFA, Rule};
use std::collections::BTreeSet;
use std::rc::Rc;

type Pred = fn(&char) -> bool;

fn is_a(c: &char) -> bool {
    *c == 'a'
}

fn is_b(c: &char) -> bool {
    *c == 'b'
}

fn set(items: &[usize]) -> BTreeSet<usize> {
    items.iter().copied().collect()
}

fn on(from: usize, to: usize, f: Pred) -> Rule<Pred> {
    Rule::new_check(from, to, Rc::new(f))
}

fn eps(from: usize, to: usize) -> Rule<Pred> {
    Rule::new_epsilon(from, to)
}

/// States 0 -eps-> 1 -a-> 2 -eps-> 3 -b-> 4, with a loop 2 -a-> 2.
fn sample() -> EpsilonNFA<Pred> {
    let rules = vec![eps(0, 1), on(1, 2, is_a), eps(2, 3), on(3, 4, is_b), on(2, 2, is_a)];
    EpsilonNFA::new(0, rules, set(&[4]))
}

#[test]
fn rule_kinds() {
    assert!(eps(0, 1).is_epsilon_rule());
    let r = on(3, 7, is_a);
    assert!(!r.is_epsilon_rule());
    assert_eq!(r.from, 3);
    assert_eq!(r.to, 7);
    assert!((r.check.as_ref().unwrap())(&'a'));
}

#[test]
fn duplicate_shares_the_test() {
    let f: Rc<Pred> = Rc::new(is_a);
    let r = Rule::new_check(1, 2, f.clone());
    assert_eq!(Rc::strong_count(&f), 2);
    let d = r.duplicate();
    assert_eq!(Rc::strong_count(&f), 3);
    assert_eq!(d.from, 1);
    assert_eq!(d.to, 2);
    assert!(Rc::ptr_eq(d.check.as_ref().unwrap(), &f));
    let e = eps(4, 5).duplicate();
    assert!(e.is_epsilon_rule());
    assert_eq!((e.from, e.to), (4, 5));
}

#[test]
fn closure_follows_epsilon_rules_only() {
    let rules = vec![eps(0, 1), eps(1, 2), on(2, 3, is_a), eps(3, 4)];
    assert_eq!(epsilon_closure(&[0], &rules), set(&[0, 1, 2]));
    assert_eq!(epsilon_closure(&[3], &rules), set(&[3, 4]));
    assert_eq!(epsilon_closure(&[], &rules), set(&[]));
}

#[test]
fn closure_terminates_on_cycles() {
    let rules = vec![eps(0, 1), eps(1, 0), eps(1, 2), eps(2, 2)];
    assert_eq!(epsilon_closure(&[0], &rules), set(&[0, 1, 2]));
    assert_eq!(epsilon_closure(&[2, 2], &rules), set(&[2]));
}

#[test]
fn closure_contains_seeds_and_is_idempotent() {
    let rules = vec![eps(0, 1), eps(1, 5), eps(7, 8), on(5, 6, is_a)];
    let seeds = [0usize, 9];
    let once = epsilon_closure(&seeds, &rules);
    assert_eq!(once, set(&[0, 1, 5, 9]));
    assert!(seeds.iter().all(|s| once.contains(s)));
    let again: Vec<usize> = once.iter().copied().collect();
    assert_eq!(epsilon_closure(&again, &rules), once);
}

#[test]
fn new_starts_from_the_closure_of_the_seed() {
    let nfa = sample();
    assert_eq!(nfa.current_state, set(&[0, 1]));
    assert_eq!(nfa._initial_state, set(&[0, 1]));
    assert_eq!(nfa.goal_states, set(&[4]));
    assert_eq!(nfa.rules.len(), 5);
}

#[test]
fn try_update_takes_every_matching_rule() {
    let mut nfa = sample();
    assert!(nfa.try_update(&'a'));
    assert_eq!(nfa.current_state, set(&[2, 3]));
    assert!(nfa.try_update(&'a'));
    assert_eq!(nfa.current_state, set(&[2, 3]));
    assert!(nfa.try_update(&'b'));
    assert_eq!(nfa.current_state, set(&[4]));
}

#[test]
fn failed_update_leaves_the_state() {
    let mut nfa = sample();
    assert!(!nfa.try_update(&'b'));
    assert_eq!(nfa.current_state, set(&[0, 1]));
    assert!(nfa.try_update(&'a'));
    assert!(!nfa.try_update(&'x'));
    assert_eq!(nfa.current_state, set(&[2, 3]));
}

#[test]
fn run_stops_at_the_first_failed_step() {
    let mut nfa = sample();
    assert!(!nfa.run(&['a', 'x', 'b']));
    assert_eq!(nfa.current_state, set(&[2, 3]));
    nfa.reset();
    assert!(nfa.run(&[]));
    assert_eq!(nfa.current_state, set(&[0, 1]));
}

#[test]
fn accept_needs_a_goal_state() {
    let mut nfa = sample();
    assert!(nfa.accept(&['a', 'a', 'b']));
    nfa.reset();
    assert!(!nfa.accept(&['a', 'a']));
    nfa.reset();
    assert!(!nfa.accept(&['b']));
    nfa.reset();
    assert!(!nfa.accept(&[]));
}

#[test]
fn reset_then_rerun_gives_the_same_result() {
    let mut nfa = sample();
    let input = ['a', 'a', 'a', 'b'];
    let first = nfa.accept(&input);
    let state = nfa.current_state.clone();
    assert!(first);
    nfa.reset();
    assert_eq!(nfa.current_state, nfa._initial_state);
    assert_eq!(nfa.accept(&input), first);
    assert_eq!(nfa.current_state, state);
    nfa.reset();
    let rejected = ['a', 'b', 'b'];
    let second = nfa.accept(&rejected);
    assert!(!second);
    nfa.reset();
    assert_eq!(nfa.accept(&rejected), second);
}

#[test]
fn clones_keep_state_and_share_tests() {
    let f: Rc<Pred> = Rc::new(is_b);
    let rule = Rule::new_check(2, 5, f.clone());
    let copy = rule.clone();
    assert_eq!((copy.from, copy.to), (2, 5));
    assert!(Rc::ptr_eq(copy.check.as_ref().unwrap(), &f));

    let mut nfa = sample();
    assert!(nfa.try_update(&'a'));
    let mut other = nfa.clone();
    assert_eq!(other.current_state, set(&[2, 3]));
    assert_eq!(other._initial_state, set(&[0, 1]));
    assert_eq!(other.goal_states, set(&[4]));
    assert_eq!(other.rules.len(), 5);
    assert!(other.try_update(&'b'));
    assert_eq!(other.current_state, set(&[4]));
    assert_eq!(nfa.current_state, set(&[2, 3]));
}
