//! The regex tree that the compiler consumes, and the rewriting of counted
//! repetitions into concatenations.

use crate::predicate::{share, Test};
use std::rc::Rc;
use vstd::prelude::*;

verus! {

/// A regex over symbols tested by `F`. Subtrees are shared, so a counted
/// repetition can refer to its body many times without copying it.
pub enum Regex<F> {
    Begin,
    End,
    Satisfy(Test<F>),
    NotSatisfy(Test<F>),
    Concat(Rc<Regex<F>>, Rc<Regex<F>>),
    Group(Rc<Regex<F>>),
    NamedGroup(String, Rc<Regex<F>>),
    NonCapturingGroup(Rc<Regex<F>>),
    Or(Rc<Regex<F>>, Rc<Regex<F>>),
    ZeroOrOne(Rc<Regex<F>>, bool),
    Repeat0(Rc<Regex<F>>, bool),
    Repeat1(Rc<Regex<F>>, bool),
    RepeatN(Rc<Regex<F>>, usize),
    RepeatMinMax(Rc<Regex<F>>, usize, Option<usize>, bool),
}

/// The bounds of a counted repetition allow it to be rewritten: at least one
/// part results, and an upper bound is not below the lower one.
pub open spec fn bounds_ok(n: usize, m: Option<usize>) -> bool {
    match m {
        Some(m) => n <= m && 1 <= m,
        None => 1 <= n,
    }
}

/// A measure that every subtree and every rewriting of a counted repetition
/// lies strictly below.
pub open spec fn weight<F>(r: Regex<F>) -> nat
    decreases r,
{
    match r {
        Regex::Begin => 1,
        Regex::End => 1,
        Regex::Satisfy(_) => 1,
        Regex::NotSatisfy(_) => 1,
        Regex::Concat(a, b) => 1 + weight(*a) + weight(*b),
        Regex::Group(a) => 1 + weight(*a),
        Regex::NamedGroup(_, a) => 1 + weight(*a),
        Regex::NonCapturingGroup(a) => 1 + weight(*a),
        Regex::Or(a, b) => 1 + weight(*a) + weight(*b),
        Regex::ZeroOrOne(a, _) => 1 + weight(*a),
        Regex::Repeat0(a, _) => 1 + weight(*a),
        Regex::Repeat1(a, _) => 1 + weight(*a),
        Regex::RepeatN(a, n) => 2 + (n as nat) * (weight(*a) + 2),
        Regex::RepeatMinMax(a, n, m, _) => 2 + parts_bound(n, m) * (weight(*a) + 2),
    }
}

/// The weight of a shared subtree.
pub open spec fn shared_weight<F>(r: &Rc<Regex<F>>) -> nat {
    weight(**r)
}

/// An upper bound on the number of parts of a counted repetition.
pub open spec fn parts_bound(n: usize, m: Option<usize>) -> nat {
    match m {
        Some(m) => m as nat,
        None => n as nat,
    }
}

/// The left-nested concatenation of a non-empty list of regexes.
pub open spec fn concat_all<F>(regs: Seq<Rc<Regex<F>>>) -> Regex<F>
    decreases regs.len(),
{
    if regs.len() == 0 {
        arbitrary()
    } else if regs.len() == 1 {
        *regs[0]
    } else {
        Regex::Concat(Rc::new(concat_all(regs.drop_last())), regs.last())
    }
}

/// The parts of `r{n}`: the body, `n` times.
pub open spec fn repeat_parts<F>(r: Rc<Regex<F>>, n: usize) -> Seq<Rc<Regex<F>>> {
    Seq::new(n as nat, |i: int| r)
}

/// The parts of `r{n,m}` and of `r{n,}`: `n` mandatory bodies and `m - n`
/// optional ones, or `n - 1` bodies and one repetition of at least once.
pub open spec fn min_max_parts<F>(
    r: Rc<Regex<F>>,
    n: usize,
    m: Option<usize>,
    greedy: bool,
) -> Seq<Rc<Regex<F>>> {
    match m {
        Some(m) => Seq::new(n as nat, |i: int| r) + Seq::new(
            (m - n) as nat,
            |i: int| Rc::new(Regex::ZeroOrOne(r, greedy)),
        ),
        None => Seq::new((n - 1) as nat, |i: int| r).push(Rc::new(Regex::Repeat1(r, greedy))),
    }
}

/// A concatenation of `k` parts, each of weight at most `w`, weighs less than `k * (w + 1)`.
pub proof fn lemma_weight_concat_all<F>(regs: Seq<Rc<Regex<F>>>, w: nat)
    requires
        regs.len() >= 1,
        forall|i: int| 0 <= i < regs.len() ==> weight(*#[trigger] regs[i]) <= w,
    ensures
        weight(concat_all(regs)) + 1 <= regs.len() * (w + 1),
    decreases regs.len(),
{
    let k = regs.len();
    if k == 1 {
        assert(weight(*regs[0]) <= w);
        assert(1 * (w + 1) == w + 1) by (nonlinear_arith);
    } else {
        let front = regs.drop_last();
        assert forall|i: int| 0 <= i < front.len() implies weight(*#[trigger] front[i]) <= w by {
            assert(front[i] == regs[i]);
        }
        lemma_weight_concat_all(front, w);
        assert(weight(*regs.last()) <= w);
        assert((k - 1) * (w + 1) + (w + 1) == k * (w + 1)) by (nonlinear_arith);
    }
}

/// The rewriting of `r{n}` weighs less than `r{n}`.
pub proof fn lemma_weight_repeat<F>(r: &Rc<Regex<F>>, n: usize)
    requires
        n >= 1,
    ensures
        weight(concat_all(repeat_parts(*r, n))) < weight(Regex::RepeatN(*r, n)),
{
    let w = shared_weight(r);
    lemma_weight_concat_all(repeat_parts(*r, n), w);
    assert((n as nat) * (w + 1) <= (n as nat) * (w + 2)) by (nonlinear_arith);
}

/// The rewriting of `r{n,m}` or `r{n,}` weighs less than the repetition.
pub proof fn lemma_weight_min_max<F>(r: &Rc<Regex<F>>, n: usize, m: Option<usize>, greedy: bool)
    requires
        bounds_ok(n, m),
    ensures
        weight(concat_all(min_max_parts(*r, n, m, greedy))) < weight(
            Regex::RepeatMinMax(*r, n, m, greedy),
        ),
{
    let w = shared_weight(r);
    let parts = min_max_parts(*r, n, m, greedy);
    let k = parts_bound(n, m);
    assert(parts.len() == k);
    assert forall|i: int| 0 <= i < parts.len() implies weight(*#[trigger] parts[i]) <= w + 1 by {
        match m {
            Some(m) => {
                if i >= n {
                    assert(*parts[i] == Regex::ZeroOrOne(*r, greedy));
                }
            },
            None => {
                if i == n - 1 {
                    assert(*parts[i] == Regex::Repeat1(*r, greedy));
                }
            },
        }
    }
    lemma_weight_concat_all(parts, w + 1);
}

/// The left-nested concatenation of `regs`, sharing every part.
pub fn concat_regex_list<F>(regs: &[Rc<Regex<F>>]) -> (reg: Rc<Regex<F>>)
    requires
        regs.len() >= 1,
    ensures
        *reg == concat_all(regs@),
{
    let n = regs.len();
    let mut reg = share(&regs[0]);
    assert(regs@.take(1).len() == 1 && regs@.take(1)[0] == regs@[0]);
    let mut i: usize = 1;
    while i < n
        invariant
            1 <= i <= n,
            n == regs.len(),
            *reg == concat_all(regs@.take(i as int)),
        decreases n - i,
    {
        proof {
            let upto = regs@.take(i + 1);
            assert(upto.drop_last() =~= regs@.take(i as int));
            assert(upto.last() == regs@[i as int]);
        }
        reg = Rc::new(Regex::Concat(reg, share(&regs[i])));
        i += 1;
    }
    assert(regs@.take(n as int) =~= regs@);
    reg
}

/// `r{n}` as the concatenation of `n` bodies.
pub fn expand_repeat_n<F>(r: Rc<Regex<F>>, n: usize) -> (reg: Rc<Regex<F>>)
    requires
        n >= 1,
    ensures
        *reg == concat_all(repeat_parts(r, n)),
{
    let mut regs: Vec<Rc<Regex<F>>> = Vec::new();
    let mut i: usize = 0;
    while i < n
        invariant
            i <= n,
            regs@ == Seq::new(i as nat, |j: int| r),
        decreases n - i,
    {
        regs.push(share(&r));
        i += 1;
        assert(regs@ =~= Seq::new(i as nat, |j: int| r));
    }
    concat_regex_list(regs.as_slice())
}

/// `r{n,m}` as `n` bodies followed by `m - n` optional ones, and `r{n,}` as
/// `n - 1` bodies followed by a repetition of at least once.
pub fn expand_repeat_min_max<F>(r: Rc<Regex<F>>, n: usize, m: &Option<usize>, greedy: bool) -> (reg:
    Rc<Regex<F>>)
    requires
        bounds_ok(n, *m),
    ensures
        *reg == concat_all(min_max_parts(r, n, *m, greedy)),
{
    let mut regs: Vec<Rc<Regex<F>>> = Vec::new();
    if let Some(m) = m {
        let mut i: usize = 0;
        while i < n
            invariant
                i <= n,
                regs@ == Seq::new(i as nat, |j: int| r),
            decreases n - i,
        {
            regs.push(share(&r));
            i += 1;
            assert(regs@ =~= Seq::new(i as nat, |j: int| r));
        }
        let optional = *m - n;
        let ghost mandatory = regs@;
        let mut k: usize = 0;
        while k < optional
            invariant
                k <= optional,
                regs@ == mandatory + Seq::new(
                    k as nat,
                    |j: int| Rc::new(Regex::ZeroOrOne(r, greedy)),
                ),
            decreases optional - k,
        {
            regs.push(Rc::new(Regex::ZeroOrOne(share(&r), greedy)));
            k += 1;
            assert(regs@ =~= mandatory + Seq::new(
                k as nat,
                |j: int| Rc::new(Regex::ZeroOrOne(r, greedy)),
            ));
        }
    } else {
        let mut i: usize = 1;
        while i < n
            invariant
                1 <= i <= n,
                regs@ == Seq::new((i - 1) as nat, |j: int| r),
            decreases n - i,
        {
            regs.push(share(&r));
            i += 1;
            assert(regs@ =~= Seq::new((i - 1) as nat, |j: int| r));
        }
        regs.push(Rc::new(Regex::Repeat1(r, greedy)));
    }
    concat_regex_list(regs.as_slice())
}

} // verus!
