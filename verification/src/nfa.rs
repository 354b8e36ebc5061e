//! The epsilon-NFA simulator: a set of active states advanced one symbol at a time.

use crate::predicate::{accepts, apply, decided, pure_test, share};
use std::collections::BTreeSet;
use std::rc::Rc;
use vstd::prelude::*;

verus! {

/// An automaton position.
pub type State = usize;

/// A transition between two states, unconditional (epsilon) when it carries no test.
pub struct Rule<F> {
    pub from: State,
    pub to: State,
    pub check: Option<Rc<F>>,
}

impl<F> Rule<F> {
    /// A transition taken on the symbols that `f` accepts.
    pub fn new_check(from: State, to: State, f: Rc<F>) -> (r: Self)
        ensures
            r.from == from,
            r.to == to,
            r.check == Some(f),
    {
        Rule { from, to, check: Some(f) }
    }

    /// A transition taken without consuming a symbol.
    pub fn new_epsilon(from: State, to: State) -> (r: Self)
        ensures
            r.from == from,
            r.to == to,
            r.check is None,
    {
        Rule { from, to, check: None }
    }

    pub open spec fn is_epsilon(&self) -> bool {
        self.check is None
    }

    pub fn is_epsilon_rule(&self) -> (b: bool)
        ensures
            b == self.is_epsilon(),
    {
        self.check.is_none()
    }

    /// A second rule with the same endpoints that shares this rule's test.
    pub fn duplicate(&self) -> (r: Self)
        ensures
            r == *self,
    {
        let check = match &self.check {
            Some(f) => Some(share(f)),
            None => None,
        };
        Rule { from: self.from, to: self.to, check }
    }
}

impl<F> Clone for Rule<F> {
    /// A second rule with the same endpoints that shares this rule's test.
    fn clone(&self) -> (r: Self)
        ensures
            r == *self,
    {
        self.duplicate()
    }
}

/// Every test carried by the rules is pure.
pub open spec fn pure_rules<I, F: Fn(&I) -> bool>(rules: Seq<Rule<F>>) -> bool {
    forall|i: int|
        0 <= i < rules.len() && (#[trigger] rules[i]).check is Some ==> pure_test::<I, F>(
            &*(rules[i].check->0),
        )
}

/// The set `c` is closed under the epsilon rules.
pub open spec fn closed<F>(c: Set<State>, rules: Seq<Rule<F>>) -> bool {
    forall|i: int|
        0 <= i < rules.len() && (#[trigger] rules[i]).is_epsilon() && c.contains(rules[i].from)
            ==> c.contains(rules[i].to)
}

/// The smallest set that contains `seeds` and is closed under the epsilon
/// rules: what every closed superset of `seeds` has in common.
pub open spec fn closure<F>(seeds: Set<State>, rules: Seq<Rule<F>>) -> Set<State> {
    Set::new(
        |s: State|
            forall|c: Set<State>|
                seeds.subset_of(c) && #[trigger] closed(c, rules) ==> c.contains(s),
    )
}

/// The closure contains its seeds.
pub proof fn lemma_closure_has_seeds<F>(seeds: Set<State>, rules: Seq<Rule<F>>)
    ensures
        seeds.subset_of(closure(seeds, rules)),
{
}

/// The closure is closed.
pub proof fn lemma_closure_closed<F>(seeds: Set<State>, rules: Seq<Rule<F>>)
    ensures
        closed(closure(seeds, rules), rules),
{
    let cl = closure(seeds, rules);
    assert forall|i: int|
        0 <= i < rules.len() && (#[trigger] rules[i]).is_epsilon() && cl.contains(
            rules[i].from,
        ) implies cl.contains(rules[i].to) by {
        assert forall|c: Set<State>|
            seeds.subset_of(c) && #[trigger] closed(c, rules) implies c.contains(rules[i].to) by {
            assert(c.contains(rules[i].from));
        }
    }
}

/// A closed set that contains the seeds contains their closure.
pub proof fn lemma_closure_least<F>(seeds: Set<State>, rules: Seq<Rule<F>>, c: Set<State>)
    requires
        seeds.subset_of(c),
        closed(c, rules),
    ensures
        closure(seeds, rules).subset_of(c),
{
}

/// Closing a set that is already closed returns it unchanged, so closing twice
/// is closing once.
pub proof fn lemma_closure_idempotent<F>(seeds: Set<State>, rules: Seq<Rule<F>>)
    ensures
        closure(closure(seeds, rules), rules) == closure(seeds, rules),
        closed(seeds, rules) ==> closure(seeds, rules) == seeds,
{
    let cl = closure(seeds, rules);
    lemma_closure_closed(seeds, rules);
    lemma_closure_least(cl, rules, cl);
    lemma_closure_has_seeds(cl, rules);
    assert(closure(cl, rules) =~= cl);
    if closed(seeds, rules) {
        lemma_closure_least(seeds, rules, seeds);
        lemma_closure_has_seeds(seeds, rules);
        assert(cl =~= seeds);
    }
}

/// How many rules lead to a state that `seen` lacks.
pub open spec fn pending<F>(rules: Seq<Rule<F>>, seen: Set<State>) -> nat
    decreases rules.len(),
{
    if rules.len() == 0 {
        0
    } else {
        pending(rules.drop_last(), seen) + if seen.contains(rules.last().to) {
            0nat
        } else {
            1nat
        }
    }
}

proof fn lemma_pending_insert<F>(rules: Seq<Rule<F>>, seen: Set<State>, x: State)
    ensures
        pending(rules, seen.insert(x)) <= pending(rules, seen),
        !seen.contains(x) && (exists|i: int| 0 <= i < rules.len() && rules[i].to == x) ==> pending(
            rules,
            seen.insert(x),
        ) < pending(rules, seen),
    decreases rules.len(),
{
    if rules.len() > 0 {
        let front = rules.drop_last();
        lemma_pending_insert(front, seen, x);
        if !seen.contains(x) && (exists|i: int| 0 <= i < rules.len() && rules[i].to == x) {
            let i = choose|i: int| 0 <= i < rules.len() && rules[i].to == x;
            if i < rules.len() - 1 {
                assert(front[i].to == x);
            }
        }
    }
}

/// The smallest set of states that contains `from_states` and is closed under
/// the epsilon rules among `rules`.
pub fn epsilon_closure<F>(from_states: &[State], rules: &[Rule<F>]) -> (result: BTreeSet<State>)
    ensures
        result@ == closure(from_states@.to_set(), rules@),
{

    let ghost seeds = from_states@.to_set();
    let mut result: BTreeSet<State> = BTreeSet::new();
    let mut state_queue: Vec<State> = Vec::new();
    let mut k: usize = 0;
    while k < from_states.len()
        invariant
            k <= from_states.len(),
            state_queue@ == from_states@.take(k as int),
            result@ == from_states@.take(k as int).to_set(),
        decreases from_states.len() - k,
    {
        result.insert(from_states[k]);
        state_queue.push(from_states[k]);
        proof {
            let a = from_states@.take(k as int);
            let b = from_states@.take(k + 1);
            assert(b =~= a.push(from_states@[k as int]));
            assert(b.to_set() =~= a.to_set().insert(from_states@[k as int])) by {
                assert forall|s: State| b.to_set().contains(s) implies a.to_set().insert(
                    from_states@[k as int],
                ).contains(s) by {
                    let j = choose|j: int| 0 <= j < b.len() && b[j] == s;
                    if j < a.len() {
                        assert(a[j] == s);
                    }
                }
                assert forall|s: State|
                    a.to_set().insert(from_states@[k as int]).contains(
                        s,
                    ) implies b.to_set().contains(s) by {
                    if a.to_set().contains(s) {
                        let j = choose|j: int| 0 <= j < a.len() && a[j] == s;
                        assert(b[j] == s);
                    } else {
                        assert(b[k as int] == s);
                    }
                }
            }
        }
        k += 1;
    }
    proof {
        assert(from_states@.take(k as int) =~= from_states@);
        lemma_closure_has_seeds(seeds, rules@);
        assert forall|s: State| state_queue@.contains(s) implies result@.contains(s) by {
            let q = choose|q: int| 0 <= q < state_queue@.len() && state_queue@[q] == s;
            assert(from_states@[q] == s);
        }
    }
    while state_queue.len() > 0
        invariant
            seeds == from_states@.to_set(),
            seeds.subset_of(result@),
            result@.subset_of(closure(seeds, rules@)),
            forall|s: State| state_queue@.contains(s) ==> result@.contains(s),
            forall|s: State| #[trigger]
                result@.contains(s) ==> state_queue@.contains(s) || forall|i: int|
                    0 <= i < rules@.len() && (#[trigger] rules@[i]).is_epsilon() && rules@[i].from
                        == s ==> result@.contains(rules@[i].to),
        decreases pending(rules@, result@) + state_queue@.len(),
    {
        let ghost before = state_queue@;
        let from_state = state_queue.pop().unwrap();
        assert(forall|s: State|
            before.contains(s) ==> s == from_state || state_queue@.contains(s)) by {
            assert forall|s: State| before.contains(s) implies s == from_state
                || state_queue@.contains(s) by {
                let j = choose|j: int| 0 <= j < before.len() && before[j] == s;
                if j < before.len() - 1 {
                    assert(state_queue@[j] == s);
                }
            }
        }
        assert(before.contains(from_state)) by {
            assert(before[before.len() - 1] == from_state);
        }
        let ghost measure = pending(rules@, result@) + state_queue@.len();
        let mut j: usize = 0;
        while j < rules.len()
            invariant
                j <= rules.len(),
                seeds.subset_of(result@),
                result@.subset_of(closure(seeds, rules@)),
                result@.contains(from_state),
                forall|s: State| state_queue@.contains(s) ==> result@.contains(s),
                pending(rules@, result@) + state_queue@.len() <= measure,
                forall|i: int|
                    0 <= i < j && (#[trigger] rules@[i]).is_epsilon() && rules@[i].from
                        == from_state ==> result@.contains(rules@[i].to),
                forall|s: State| #[trigger]
                    result@.contains(s) ==> s == from_state || state_queue@.contains(s)
                        || forall|i: int|
                        0 <= i < rules@.len() && (#[trigger] rules@[i]).is_epsilon()
                            && rules@[i].from == s ==> result@.contains(rules@[i].to),
            decreases rules.len() - j,
        {
            let r = &rules[j];
            if r.from == from_state && r.is_epsilon_rule() {
                let ghost seen = result@;
                let ghost queued = state_queue@;
                let inserted = result.insert(r.to);
                if inserted {
                    state_queue.push(r.to);
                    proof {
                        assert forall|s: State| state_queue@.contains(s) implies result@.contains(
                            s,
                        ) by {
                            let q = choose|q: int| 0 <= q < state_queue@.len() && state_queue@[q] == s;
                            if q < queued.len() {
                                assert(queued[q] == s);
                            }
                        }
                        lemma_closure_closed(seeds, rules@);
                        assert(rules@[j as int].to == r.to);
                        lemma_pending_insert(rules@, seen, r.to);
                        assert forall|s: State| queued.contains(s) implies state_queue@.contains(
                            s,
                        ) by {
                            let q = choose|q: int| 0 <= q < queued.len() && queued[q] == s;
                            assert(state_queue@[q] == s);
                        }
                        assert(state_queue@[queued.len() as int] == r.to);
                    }
                } else {
                    assert(result@ =~= seen);
                }
            }
            j += 1;
        }
    }
    proof {
        assert(closed(result@, rules@)) by {
            assert forall|i: int|
                0 <= i < rules@.len() && (#[trigger] rules@[i]).is_epsilon() && result@.contains(
                    rules@[i].from,
                ) implies result@.contains(rules@[i].to) by {
                assert(!state_queue@.contains(rules@[i].from));
            }
        }
        lemma_closure_least(seeds, rules@, result@);
        assert(result@ =~= closure(seeds, rules@));
    }
    result
}

/// Every test carried by the rules answers on the symbol.
pub open spec fn all_decided<I, F: Fn(&I) -> bool>(rules: Seq<Rule<F>>, x: &I) -> bool {
    forall|i: int|
        0 <= i < rules.len() && (#[trigger] rules[i]).check is Some ==> decided::<I, F>(
            &*(rules[i].check->0),
            x,
        )
}

/// The states reached from `cur` by one conditional rule whose test accepts `x`.
pub open spec fn fired<I, F: Fn(&I) -> bool>(cur: Set<State>, rules: Seq<Rule<F>>, x: &I) -> Set<
    State,
> {
    Set::new(
        |t: State|
            exists|i: int|
                0 <= i < rules.len() && fires(cur, #[trigger] rules[i], x) && rules[i].to == t,
    )
}

/// The rule is conditional, leaves an active state, and its test accepts `x`.
pub open spec fn fires<I, F: Fn(&I) -> bool>(cur: Set<State>, r: Rule<F>, x: &I) -> bool {
    r.check is Some && cur.contains(r.from) && accepts::<I, F>(&*(r.check->0), x)
}

/// The active set after one symbol: every rule that fires is taken at once,
/// and the states reached are closed under the epsilon rules.
pub open spec fn step<I, F: Fn(&I) -> bool>(cur: Set<State>, rules: Seq<Rule<F>>, x: &I) -> Set<
    State,
> {
    closure(fired(cur, rules, x), rules)
}

/// The step function of the rules over `inputs`: the active set after the
/// symbol of index `i`.
pub open spec fn stepper<I, F: Fn(&I) -> bool>(rules: Seq<Rule<F>>, inputs: Seq<I>) -> spec_fn(
    Set<State>,
    int,
) -> Set<State> {
    |cur: Set<State>, i: int| step(cur, rules, &inputs[i])
}

/// Taking the steps of index `k` up to `len` from the active set `cur`:
/// whether every step succeeded, and the active set at the end, which is the
/// one before the first failed step where a step fails.
pub open spec fn run_steps(
    cur: Set<State>,
    k: int,
    len: int,
    next: spec_fn(Set<State>, int) -> Set<State>,
) -> (bool, Set<State>)
    decreases len - k,
{
    if k >= len {
        (true, cur)
    } else if next(cur, k).is_empty() {
        (false, cur)
    } else {
        run_steps(next(cur, k), k + 1, len, next)
    }
}

/// Feeding `inputs` from the active set `cur`: whether every step succeeded,
/// and the active set at the end, which is the one before the first failed step
/// where a step fails.
pub open spec fn run_from<I, F: Fn(&I) -> bool>(
    cur: Set<State>,
    rules: Seq<Rule<F>>,
    inputs: Seq<I>,
) -> (bool, Set<State>) {
    run_steps(cur, 0, inputs.len() as int, stepper(rules, inputs))
}

/// Whether feeding `inputs` from `cur` succeeds and ends on a goal state.
pub open spec fn accepts_from<I, F: Fn(&I) -> bool>(
    cur: Set<State>,
    rules: Seq<Rule<F>>,
    goals: Set<State>,
    inputs: Seq<I>,
) -> bool {
    let (ok, last) = run_from(cur, rules, inputs);
    ok && exists|g: State| goals.contains(g) && last.contains(g)
}

/// An epsilon-NFA with its set of active states.
pub struct EpsilonNFA<F> {
    pub _initial_state: BTreeSet<State>,
    pub current_state: BTreeSet<State>,
    pub rules: Vec<Rule<F>>,
    pub goal_states: BTreeSet<State>,
}

impl<F> EpsilonNFA<F> {
    /// The active set and the retained initial set are never stored open.
    pub open spec fn closed_sets(&self) -> bool {
        &&& closed(self._initial_state@, self.rules@)
        &&& closed(self.current_state@, self.rules@)
    }

    /// The automaton's sets are closed and its tests are pure.
    pub open spec fn wf<I>(&self) -> bool where F: Fn(&I) -> bool {
        &&& self.closed_sets()
        &&& pure_rules::<I, F>(self.rules@)
    }

    /// The same automaton in another state: rules, goals and initial set agree.
    pub open spec fn same_automaton(&self, other: &Self) -> bool {
        &&& self.rules@ == other.rules@
        &&& self.goal_states@ == other.goal_states@
        &&& self._initial_state@ == other._initial_state@
    }

    /// An automaton whose initial and active set is the closure of `first_state`.
    pub fn new(first_state: State, rules: Vec<Rule<F>>, goal_states: BTreeSet<State>) -> (nfa: Self)
        ensures
            nfa.rules@ == rules@,
            nfa.goal_states@ == goal_states@,
            nfa._initial_state@ == closure(set![first_state], rules@),
            nfa.current_state@ == nfa._initial_state@,
            nfa.closed_sets(),
    {
        let seeds: [State; 1] = [first_state];
        let eclose_from_first_state = epsilon_closure(seeds.as_slice(), rules.as_slice());
        proof {
            assert(seeds@.to_set() =~= set![first_state]) by {
                assert(seeds@[0] == first_state);
            }
            lemma_closure_closed(set![first_state], rules@);
        }
        EpsilonNFA {
            _initial_state: eclose_from_first_state.clone(),
            current_state: eclose_from_first_state,
            rules,
            goal_states,
        }
    }

    /// Advances the active set by one symbol. Where no state is reached the
    /// step fails and the active set stays as it was.
    pub fn try_update<I>(&mut self, input: &I) -> (ok: bool) where F: Fn(&I) -> bool
        requires
            old(self).wf::<I>(),
        ensures
            final(self).wf::<I>(),
            final(self).same_automaton(old(self)),
            ok == !step(old(self).current_state@, old(self).rules@, input).is_empty(),
            ok ==> final(self).current_state@ == step(
                old(self).current_state@,
                old(self).rules@,
                input,
            ),
            !ok ==> final(self).current_state@ == old(self).current_state@,
            all_decided(old(self).rules@, input),
    {
        let ghost cur = self.current_state@;
        let ghost rules = self.rules@;
        let mut matched_rule_next_states: Vec<State> = Vec::new();
        let mut j: usize = 0;
        while j < self.rules.len()
            invariant
                j <= self.rules.len(),
                *self == *old(self),
                rules == self.rules@,
                cur == self.current_state@,
                pure_rules::<I, F>(rules),
                forall|q: int|
                    0 <= q < matched_rule_next_states@.len() ==> fired(cur, rules, input).contains(
                        #[trigger] matched_rule_next_states@[q],
                    ),
                forall|i: int|
                    0 <= i < j && fires(cur, #[trigger] rules[i], input)
                        ==> matched_rule_next_states@.contains(rules[i].to),
                forall|i: int|
                    0 <= i < j && (#[trigger] rules[i]).check is Some ==> decided::<I, F>(
                        &*(rules[i].check->0),
                        input,
                    ),
            decreases self.rules.len() - j,
        {
            let r = &self.rules[j];
            if let Some(check) = &r.check {
                let ghost before = matched_rule_next_states@;
                assert(rules[j as int].check is Some);
                if apply(check, input) && self.current_state.contains(&r.from) {
                    matched_rule_next_states.push(r.to);
                    proof {
                        assert(fires(cur, rules[j as int], input));
                        assert(matched_rule_next_states@[before.len() as int] == r.to);
                    }
                }
                proof {
                    assert forall|i: int|
                        0 <= i < j && fires(
                            cur,
                            #[trigger] rules[i],
                            input,
                        ) implies matched_rule_next_states@.contains(rules[i].to) by {
                        let q = choose|q: int| 0 <= q < before.len() && before[q] == rules[i].to;
                        assert(matched_rule_next_states@[q] == rules[i].to);
                    }
                }
            }
            j += 1;
        }
        let eclose_next_state = epsilon_closure(
            matched_rule_next_states.as_slice(),
            self.rules.as_slice(),
        );
        proof {
            assert(matched_rule_next_states@.to_set() =~= fired(cur, rules, input));
            lemma_closure_closed(fired(cur, rules, input), rules);
        }
        if eclose_next_state.is_empty() {
            return false;
        }
        self.current_state = eclose_next_state;
        true
    }

    /// Puts the active set back to the initial one.
    pub fn reset(&mut self)
        requires
            old(self).closed_sets(),
        ensures
            final(self).closed_sets(),
            final(self).same_automaton(old(self)),
            final(self).current_state@ == old(self)._initial_state@,
    {
        self.current_state = self._initial_state.clone();
    }

    /// Feeds the symbols in turn and stops at the first step that fails.
    pub fn run<I>(&mut self, inputs: &[I]) -> (ok: bool) where F: Fn(&I) -> bool
        requires
            old(self).wf::<I>(),
        ensures
            final(self).wf::<I>(),
            final(self).same_automaton(old(self)),
            (ok, final(self).current_state@) == run_from(
                old(self).current_state@,
                old(self).rules@,
                inputs@,
            ),
            ok ==> forall|k: int|
                0 <= k < inputs@.len() ==> all_decided(old(self).rules@, &#[trigger] inputs@[k]),
    {
        let mut k: usize = 0;
        while k < inputs.len()
            invariant
                k <= inputs.len(),
                self.wf::<I>(),
                self.same_automaton(old(self)),
                run_from(old(self).current_state@, old(self).rules@, inputs@) == run_steps(
                    self.current_state@,
                    k as int,
                    inputs@.len() as int,
                    stepper(old(self).rules@, inputs@),
                ),
                forall|q: int|
                    0 <= q < k ==> all_decided(old(self).rules@, &#[trigger] inputs@[q]),
            decreases inputs.len() - k,
        {
            if !self.try_update(&inputs[k]) {
                return false;
            }
            k += 1;
        }
        true
    }

    /// Feeds the symbols in turn and reports whether every step succeeded and
    /// a goal state is active at the end.
    pub fn accept<I>(&mut self, inputs: &[I]) -> (ok: bool) where F: Fn(&I) -> bool
        requires
            old(self).wf::<I>(),
        ensures
            final(self).wf::<I>(),
            final(self).same_automaton(old(self)),
            final(self).current_state@ == run_from(
                old(self).current_state@,
                old(self).rules@,
                inputs@,
            ).1,
            ok == accepts_from(
                old(self).current_state@,
                old(self).rules@,
                old(self).goal_states@,
                inputs@,
            ),
    {
        if !self.run(inputs) {
            return false;
        }
        for g in it: self.goal_states.iter()
            invariant
                self.wf::<I>(),
                self.same_automaton(old(self)),
                (true, self.current_state@) == run_from(
                    old(self).current_state@,
                    old(self).rules@,
                    inputs@,
                ),
                forall|q: int|
                    0 <= q < it.index@ ==> !self.current_state@.contains(*it.seq()[q]),
                it.seq().unref().to_set() == self.goal_states@,
        {
            if self.current_state.contains(g) {
                assert(it.seq().unref()[it.index@] == *g);
                assert(self.goal_states@.contains(*g) && self.current_state@.contains(*g));
                return true;
            }
        }
        false
    }
}

impl<F> Clone for EpsilonNFA<F> {
    /// An automaton of its own in the same state, sharing the rules' tests.
    fn clone(&self) -> (nfa: Self)
        ensures
            nfa.rules@ == self.rules@,
            nfa._initial_state@ == self._initial_state@,
            nfa.current_state@ == self.current_state@,
            nfa.goal_states@ == self.goal_states@,
    {
        let mut rules: Vec<Rule<F>> = Vec::new();
        let mut k: usize = 0;
        while k < self.rules.len()
            invariant
                k <= self.rules.len(),
                rules@ == self.rules@.take(k as int),
            decreases self.rules.len() - k,
        {
            rules.push(self.rules[k].duplicate());
            k += 1;
            assert(rules@ =~= self.rules@.take(k as int));
        }
        assert(self.rules@.take(k as int) =~= self.rules@);
        EpsilonNFA {
            _initial_state: self._initial_state.clone(),
            current_state: self.current_state.clone(),
            rules,
            goal_states: self.goal_states.clone(),
        }
    }
}

/// Running the same symbols again after a reset gives the same answer and the
/// same active set, whatever state the automaton was left in.
pub proof fn lemma_rerun_after_reset<I, F: Fn(&I) -> bool>(
    a: EpsilonNFA<F>,
    b: EpsilonNFA<F>,
    inputs: Seq<I>,
)
    requires
        a.same_automaton(&b),
    ensures
        run_from(a._initial_state@, a.rules@, inputs) == run_from(
            b._initial_state@,
            b.rules@,
            inputs,
        ),
        accepts_from(a._initial_state@, a.rules@, a.goal_states@, inputs) == accepts_from(
            b._initial_state@,
            b.rules@,
            b.goal_states@,
            inputs,
        ),
{
}

proof fn lemma_steps_keep_closed<I, F: Fn(&I) -> bool>(
    cur: Set<State>,
    rules: Seq<Rule<F>>,
    inputs: Seq<I>,
    k: int,
)
    requires
        closed(cur, rules),
    ensures
        closed(run_steps(cur, k, inputs.len() as int, stepper(rules, inputs)).1, rules),
    decreases inputs.len() - k,
{
    if k < inputs.len() {
        let next = step(cur, rules, &inputs[k]);
        lemma_closure_closed(fired(cur, rules, &inputs[k]), rules);
        if !next.is_empty() {
            lemma_steps_keep_closed(next, rules, inputs, k + 1);
        }
    }
}

/// Every active set that a run ends in is closed under the epsilon rules.
pub proof fn lemma_run_keeps_closed<I, F: Fn(&I) -> bool>(
    cur: Set<State>,
    rules: Seq<Rule<F>>,
    inputs: Seq<I>,
)
    requires
        closed(cur, rules),
    ensures
        closed(run_from(cur, rules, inputs).1, rules),
{
    lemma_steps_keep_closed(cur, rules, inputs, 0);
}

} // verus!
