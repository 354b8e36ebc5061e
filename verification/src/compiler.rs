//! Compiling a regex tree into a linear program with resolved jump
//! targets and capture markers.

use crate::inst::{GroupIndex, Inst, PC};
use crate::regex::{
    bounds_ok, concat_all, expand_repeat_min_max, expand_repeat_n, lemma_weight_min_max,
    lemma_weight_repeat, min_max_parts, repeat_parts, weight, Regex,
};
use crate::predicate::{share, Test};
use std::rc::Rc;
use vstd::prelude::*;

verus! {

/// A fork that prefers `enter` when greedy and `skip` when not.
pub open spec fn fork<F>(greedy: bool, enter: int, skip: int) -> Inst<F> {
    if greedy {
        Inst::Split(enter as usize, skip as usize)
    } else {
        Inst::Split(skip as usize, enter as usize)
    }
}

/// What a regex compiles to when its first instruction stands at `pc` and the
/// next free group number is `g`: the instructions, the next free group number
/// after it, and whether every counted repetition in it has bounds that allow
/// rewriting. The instructions occupy the contiguous range that starts at `pc`.
pub open spec fn layout<F>(r: &Regex<F>, pc: int, g: int) -> (Seq<Inst<F>>, int, bool)
    decreases weight(*r),
{
    match r {
        Regex::Begin => (seq![Inst::Begin], g, true),
        Regex::End => (seq![Inst::End], g, true),
        Regex::Satisfy(t) => (seq![Inst::Check(*t)], g, true),
        Regex::NotSatisfy(t) => (seq![Inst::Check(*t)], g, true),
        Regex::Concat(a, b) => {
            let (ai, ag, aok) = layout(&**a, pc, g);
            let (bi, bg, bok) = layout(&**b, pc + ai.len(), ag);
            (ai + bi, bg, aok && bok)
        },
        Regex::Group(a) => {
            let (ai, ag, aok) = layout(&**a, pc + 1, g + 1);
            (seq![Inst::SaveOpen(g as usize)] + ai + seq![Inst::SaveClose(g as usize)], ag, aok)
        },
        Regex::NamedGroup(name, a) => {
            let (ai, ag, aok) = layout(&**a, pc + 1, g + 1);
            (
                seq![Inst::SaveNamedOpen(*name, g as usize)] + ai + seq![
                    Inst::SaveNamedClose(*name, g as usize),
                ],
                ag,
                aok,
            )
        },
        Regex::NonCapturingGroup(a) => layout(&**a, pc, g),
        Regex::Or(a, b) => {
            let (ai, ag, aok) = layout(&**a, pc + 1, g);
            let b_start = pc + ai.len() + 2;
            let (bi, bg, bok) = layout(&**b, b_start, ag);
            (
                seq![Inst::Split((pc + 1) as usize, b_start as usize)] + ai + seq![
                    Inst::Jmp((b_start + bi.len()) as usize),
                ] + bi,
                bg,
                aok && bok,
            )
        },
        Regex::ZeroOrOne(a, greedy) => {
            let (ai, ag, aok) = layout(&**a, pc + 1, g);
            (seq![fork(*greedy, pc + 1, pc + ai.len() + 1)] + ai, ag, aok)
        },
        Regex::Repeat0(a, greedy) => {
            let (ai, ag, aok) = layout(&**a, pc + 1, g);
            (
                seq![fork(*greedy, pc + 1, pc + ai.len() + 2)] + ai + seq![Inst::Jmp(pc as usize)],
                ag,
                aok,
            )
        },
        Regex::Repeat1(a, greedy) => {
            let (ai, ag, aok) = layout(&**a, pc, g);
            (ai + seq![fork(*greedy, pc, pc + ai.len() + 1)], ag, aok)
        },
        Regex::RepeatN(a, n) => {
            if *n >= 1 {
                proof {
                    lemma_weight_repeat(a, *n);
                }
                layout(&concat_all(repeat_parts(*a, *n)), pc, g)
            } else {
                (Seq::empty(), g, false)
            }
        },
        Regex::RepeatMinMax(a, n, m, greedy) => {
            if bounds_ok(*n, *m) {
                proof {
                    lemma_weight_min_max(a, *n, *m, *greedy);
                }
                layout(&concat_all(min_max_parts(*a, *n, *m, *greedy)), pc, g)
            } else {
                (Seq::empty(), g, false)
            }
        },
    }
}

/// The regex can be compiled at `pc` with next free group number `g`: its
/// counted repetitions can be rewritten, and the program counters and group
/// numbers it uses fit the machine's integers.
pub open spec fn compilable<F>(r: &Regex<F>, pc: int, g: int) -> bool {
    &&& layout(r, pc, g).2
    &&& pc + layout(r, pc, g).0.len() <= usize::MAX
    &&& 2 * layout(r, pc, g).1 <= usize::MAX
}

/// Compiling never lowers the next free group number.
pub proof fn lemma_groups_grow<F>(r: &Regex<F>, pc: int, g: int)
    ensures
        layout(r, pc, g).1 >= g,
    decreases weight(*r),
{
    match r {
        Regex::Concat(a, b) => {
            let (ai, ag, aok) = layout(&**a, pc, g);
            lemma_groups_grow(&**a, pc, g);
            lemma_groups_grow(&**b, pc + ai.len(), ag);
        },
        Regex::Group(a) => {
            lemma_groups_grow(&**a, pc + 1, g + 1);
        },
        Regex::NamedGroup(name, a) => {
            lemma_groups_grow(&**a, pc + 1, g + 1);
        },
        Regex::NonCapturingGroup(a) => {
            lemma_groups_grow(&**a, pc, g);
        },
        Regex::Or(a, b) => {
            let (ai, ag, aok) = layout(&**a, pc + 1, g);
            lemma_groups_grow(&**a, pc + 1, g);
            lemma_groups_grow(&**b, pc + ai.len() + 2, ag);
        },
        Regex::ZeroOrOne(a, greedy) => {
            lemma_groups_grow(&**a, pc + 1, g);
        },
        Regex::Repeat0(a, greedy) => {
            lemma_groups_grow(&**a, pc + 1, g);
        },
        Regex::Repeat1(a, greedy) => {
            lemma_groups_grow(&**a, pc, g);
        },
        Regex::RepeatN(a, n) => {
            if *n >= 1 {
                lemma_weight_repeat(a, *n);
                lemma_groups_grow(&concat_all(repeat_parts(*a, *n)), pc, g);
            }
        },
        Regex::RepeatMinMax(a, n, m, greedy) => {
            if bounds_ok(*n, *m) {
                lemma_weight_min_max(a, *n, *m, *greedy);
                lemma_groups_grow(&concat_all(min_max_parts(*a, *n, *m, *greedy)), pc, g);
            }
        },
        _ => {},
    }
}

/// The instruction keeps to the program counters from `lo` to `hi` and to the
/// group numbers from `glo` up to, not including, `ghi`, and does not accept.
pub open spec fn placed<F>(inst: Inst<F>, lo: int, hi: int, glo: int, ghi: int) -> bool {
    match inst {
        Inst::Split(x, y) => lo <= x <= hi && lo <= y <= hi,
        Inst::Jmp(x) => lo <= x <= hi,
        Inst::Match => false,
        Inst::SaveOpen(i) => glo <= i < ghi,
        Inst::SaveClose(i) => glo <= i < ghi,
        Inst::SaveNamedOpen(_, i) => glo <= i < ghi,
        Inst::SaveNamedClose(_, i) => glo <= i < ghi,
        _ => true,
    }
}

/// Every instruction of the sequence is placed within the bounds.
pub open spec fn all_placed<F>(s: Seq<Inst<F>>, lo: int, hi: int, glo: int, ghi: int) -> bool {
    forall|i: int| 0 <= i < s.len() ==> placed(#[trigger] s[i], lo, hi, glo, ghi)
}

proof fn lemma_placed_join<F>(
    a: Seq<Inst<F>>,
    b: Seq<Inst<F>>,
    bounds: (int, int, int, int),
    lo: int,
    hi: int,
    glo: int,
    ghi: int,
)
    requires
        all_placed(a, bounds.0, bounds.1, bounds.2, bounds.3),
        all_placed(b, lo, hi, glo, ghi),
        bounds.0 <= lo,
        hi <= bounds.1,
        bounds.2 <= glo,
        ghi <= bounds.3,
    ensures
        all_placed(a + b, bounds.0, bounds.1, bounds.2, bounds.3),
{
    assert forall|i: int| 0 <= i < (a + b).len() implies placed(
        #[trigger] (a + b)[i],
        bounds.0,
        bounds.1,
        bounds.2,
        bounds.3,
    ) by {
        if i < a.len() {
            assert((a + b)[i] == a[i]);
        } else {
            assert((a + b)[i] == b[i - a.len()]);
        }
    }
}

/// The instructions of a compilable regex jump only into their own range or
/// to the program counter right after it, number their groups from `g` up to
/// the next free group number, and hold no accepting instruction.
pub proof fn lemma_layout_placed<F>(r: &Regex<F>, pc: int, g: int)
    requires
        pc >= 0,
        g >= 0,
        compilable(r, pc, g),
    ensures
        layout(r, pc, g).0.len() >= 1,
        layout(r, pc, g).1 >= g,
        all_placed(
            layout(r, pc, g).0,
            pc,
            pc + layout(r, pc, g).0.len(),
            g,
            layout(r, pc, g).1,
        ),
    decreases weight(*r),
{
    let (insts, ng, ok) = layout(r, pc, g);
    let hi = pc + insts.len();
    let bounds = (pc, hi, g, ng);
    let none = Seq::<Inst<F>>::empty();
    match r {
        Regex::Concat(a, b) => {
            let (ai, ag, aok) = layout(&**a, pc, g);
            let (bi, bg, bok) = layout(&**b, pc + ai.len(), ag);
            lemma_groups_grow(&**b, pc + ai.len(), ag);
            lemma_layout_placed(&**a, pc, g);
            lemma_layout_placed(&**b, pc + ai.len(), ag);
            lemma_placed_join(none, ai, bounds, pc, pc + ai.len(), g, ag);
            lemma_placed_join(none + ai, bi, bounds, pc + ai.len(), hi, ag, bg);
            assert(none + ai + bi =~= insts);
        },
        Regex::Group(a) => {
            let (ai, ag, aok) = layout(&**a, pc + 1, g + 1);
            lemma_layout_placed(&**a, pc + 1, g + 1);
            let open = seq![Inst::<F>::SaveOpen(g as usize)];
            let close = seq![Inst::<F>::SaveClose(g as usize)];
            lemma_placed_join(open, ai, bounds, pc + 1, pc + 1 + ai.len(), g + 1, ag);
            lemma_placed_join(open + ai, close, bounds, pc, hi, g, ng);
        },
        Regex::NamedGroup(name, a) => {
            let (ai, ag, aok) = layout(&**a, pc + 1, g + 1);
            lemma_layout_placed(&**a, pc + 1, g + 1);
            let open = seq![Inst::<F>::SaveNamedOpen(*name, g as usize)];
            let close = seq![Inst::<F>::SaveNamedClose(*name, g as usize)];
            lemma_placed_join(open, ai, bounds, pc + 1, pc + 1 + ai.len(), g + 1, ag);
            lemma_placed_join(open + ai, close, bounds, pc, hi, g, ng);
        },
        Regex::NonCapturingGroup(a) => {
            lemma_layout_placed(&**a, pc, g);
        },
        Regex::Or(a, b) => {
            let (ai, ag, aok) = layout(&**a, pc + 1, g);
            let b_start = pc + ai.len() + 2;
            let (bi, bg, bok) = layout(&**b, b_start, ag);
            lemma_groups_grow(&**b, b_start, ag);
            lemma_layout_placed(&**a, pc + 1, g);
            lemma_layout_placed(&**b, b_start, ag);
            let split = seq![Inst::<F>::Split((pc + 1) as usize, b_start as usize)];
            let jmp = seq![Inst::<F>::Jmp((b_start + bi.len()) as usize)];
            lemma_placed_join(split, ai, bounds, pc + 1, pc + 1 + ai.len(), g, ag);
            lemma_placed_join(split + ai, jmp, bounds, pc, hi, g, ng);
            lemma_placed_join(split + ai + jmp, bi, bounds, b_start, hi, ag, bg);
        },
        Regex::ZeroOrOne(a, greedy) => {
            let (ai, ag, aok) = layout(&**a, pc + 1, g);
            lemma_layout_placed(&**a, pc + 1, g);
            let split = seq![fork::<F>(*greedy, pc + 1, pc + ai.len() + 1)];
            lemma_placed_join(split, ai, bounds, pc + 1, hi, g, ag);
        },
        Regex::Repeat0(a, greedy) => {
            let (ai, ag, aok) = layout(&**a, pc + 1, g);
            lemma_layout_placed(&**a, pc + 1, g);
            let split = seq![fork::<F>(*greedy, pc + 1, pc + ai.len() + 2)];
            let jmp = seq![Inst::<F>::Jmp(pc as usize)];
            lemma_placed_join(split, ai, bounds, pc + 1, pc + 1 + ai.len(), g, ag);
            lemma_placed_join(split + ai, jmp, bounds, pc, hi, g, ng);
        },
        Regex::Repeat1(a, greedy) => {
            let (ai, ag, aok) = layout(&**a, pc, g);
            lemma_layout_placed(&**a, pc, g);
            let split = seq![fork::<F>(*greedy, pc, pc + ai.len() + 1)];
            lemma_placed_join(none, ai, bounds, pc, pc + ai.len(), g, ag);
            lemma_placed_join(none + ai, split, bounds, pc, hi, g, ng);
            assert(none + ai + split =~= insts);
        },
        Regex::RepeatN(a, n) => {
            lemma_weight_repeat(a, *n);
            lemma_layout_placed(&concat_all(repeat_parts(*a, *n)), pc, g);
        },
        Regex::RepeatMinMax(a, n, m, greedy) => {
            lemma_weight_min_max(a, *n, *m, *greedy);
            lemma_layout_placed(&concat_all(min_max_parts(*a, *n, *m, *greedy)), pc, g);
        },
        _ => {},
    }
}

/// Every test in the regex has the property `p`.
pub open spec fn all_tests<F>(r: Regex<F>, p: spec_fn(Test<F>) -> bool) -> bool
    decreases r,
{
    match r {
        Regex::Begin => true,
        Regex::End => true,
        Regex::Satisfy(t) => p(t),
        Regex::NotSatisfy(t) => p(t),
        Regex::Concat(a, b) => all_tests(*a, p) && all_tests(*b, p),
        Regex::Group(a) => all_tests(*a, p),
        Regex::NamedGroup(_, a) => all_tests(*a, p),
        Regex::NonCapturingGroup(a) => all_tests(*a, p),
        Regex::Or(a, b) => all_tests(*a, p) && all_tests(*b, p),
        Regex::ZeroOrOne(a, _) => all_tests(*a, p),
        Regex::Repeat0(a, _) => all_tests(*a, p),
        Regex::Repeat1(a, _) => all_tests(*a, p),
        Regex::RepeatN(a, _) => all_tests(*a, p),
        Regex::RepeatMinMax(a, _, _, _) => all_tests(*a, p),
    }
}

/// Every test in the regex is pure.
pub open spec fn pure_regex<I, F: Fn(&I) -> bool>(r: Regex<F>) -> bool {
    all_tests(r, |t: Test<F>| t.is_pure::<I>())
}

/// Every test in the instructions has the property `p`.
pub open spec fn tests_satisfy<F>(s: Seq<Inst<F>>, p: spec_fn(Test<F>) -> bool) -> bool {
    forall|i: int| 0 <= i < s.len() ==> (#[trigger] s[i] matches Inst::Check(t) ==> p(t))
}

proof fn lemma_tests_join<F>(a: Seq<Inst<F>>, b: Seq<Inst<F>>, p: spec_fn(Test<F>) -> bool)
    requires
        tests_satisfy(a, p),
        tests_satisfy(b, p),
    ensures
        tests_satisfy(a + b, p),
{
    assert forall|i: int| 0 <= i < (a + b).len() implies (#[trigger] (a + b)[i] matches Inst::Check(
        t,
    ) ==> p(t)) by {
        if i < a.len() {
            assert((a + b)[i] == a[i]);
        } else {
            assert((a + b)[i] == b[i - a.len()]);
        }
    }
}

proof fn lemma_tests_concat_all<F>(regs: Seq<Rc<Regex<F>>>, p: spec_fn(Test<F>) -> bool)
    requires
        regs.len() >= 1,
        forall|i: int| 0 <= i < regs.len() ==> all_tests(*#[trigger] regs[i], p),
    ensures
        all_tests(concat_all(regs), p),
    decreases regs.len(),
{
    if regs.len() > 1 {
        let front = regs.drop_last();
        assert forall|i: int| 0 <= i < front.len() implies all_tests(*#[trigger] front[i], p) by {
            assert(front[i] == regs[i]);
        }
        lemma_tests_concat_all(front, p);
        assert(all_tests(*regs.last(), p));
    } else {
        assert(all_tests(*regs[0], p));
    }
}

/// A property of every test in a regex holds of every test in its instructions.
pub proof fn lemma_layout_tests<F>(r: &Regex<F>, pc: int, g: int, p: spec_fn(Test<F>) -> bool)
    requires
        all_tests(*r, p),
    ensures
        tests_satisfy(layout(r, pc, g).0, p),
    decreases weight(*r),
{
    let none = Seq::<Inst<F>>::empty();
    let insts = layout(r, pc, g).0;
    match r {
        Regex::Concat(a, b) => {
            let (ai, ag, aok) = layout(&**a, pc, g);
            let (bi, bg, bok) = layout(&**b, pc + ai.len(), ag);
            lemma_layout_tests(&**a, pc, g, p);
            lemma_layout_tests(&**b, pc + ai.len(), ag, p);
            lemma_tests_join(ai, bi, p);
        },
        Regex::Group(a) => {
            let (ai, ag, aok) = layout(&**a, pc + 1, g + 1);
            lemma_layout_tests(&**a, pc + 1, g + 1, p);
            let open = seq![Inst::<F>::SaveOpen(g as usize)];
            let close = seq![Inst::<F>::SaveClose(g as usize)];
            lemma_tests_join(open, ai, p);
            lemma_tests_join(open + ai, close, p);
        },
        Regex::NamedGroup(name, a) => {
            let (ai, ag, aok) = layout(&**a, pc + 1, g + 1);
            lemma_layout_tests(&**a, pc + 1, g + 1, p);
            let open = seq![Inst::<F>::SaveNamedOpen(*name, g as usize)];
            let close = seq![Inst::<F>::SaveNamedClose(*name, g as usize)];
            lemma_tests_join(open, ai, p);
            lemma_tests_join(open + ai, close, p);
        },
        Regex::NonCapturingGroup(a) => {
            lemma_layout_tests(&**a, pc, g, p);
        },
        Regex::Or(a, b) => {
            let (ai, ag, aok) = layout(&**a, pc + 1, g);
            let b_start = pc + ai.len() + 2;
            let (bi, bg, bok) = layout(&**b, b_start, ag);
            lemma_layout_tests(&**a, pc + 1, g, p);
            lemma_layout_tests(&**b, b_start, ag, p);
            let split = seq![Inst::<F>::Split((pc + 1) as usize, b_start as usize)];
            let jmp = seq![Inst::<F>::Jmp((b_start + bi.len()) as usize)];
            lemma_tests_join(split, ai, p);
            lemma_tests_join(split + ai, jmp, p);
            lemma_tests_join(split + ai + jmp, bi, p);
        },
        Regex::ZeroOrOne(a, greedy) => {
            let (ai, ag, aok) = layout(&**a, pc + 1, g);
            lemma_layout_tests(&**a, pc + 1, g, p);
            lemma_tests_join(seq![fork::<F>(*greedy, pc + 1, pc + ai.len() + 1)], ai, p);
        },
        Regex::Repeat0(a, greedy) => {
            let (ai, ag, aok) = layout(&**a, pc + 1, g);
            lemma_layout_tests(&**a, pc + 1, g, p);
            let split = seq![fork::<F>(*greedy, pc + 1, pc + ai.len() + 2)];
            lemma_tests_join(split, ai, p);
            lemma_tests_join(split + ai, seq![Inst::<F>::Jmp(pc as usize)], p);
        },
        Regex::Repeat1(a, greedy) => {
            let (ai, ag, aok) = layout(&**a, pc, g);
            lemma_layout_tests(&**a, pc, g, p);
            lemma_tests_join(ai, seq![fork::<F>(*greedy, pc, pc + ai.len() + 1)], p);
        },
        Regex::RepeatN(a, n) => {
            if *n >= 1 {
                lemma_weight_repeat(a, *n);
                lemma_tests_concat_all(repeat_parts(*a, *n), p);
                lemma_layout_tests(&concat_all(repeat_parts(*a, *n)), pc, g, p);
            }
        },
        Regex::RepeatMinMax(a, n, m, greedy) => {
            if bounds_ok(*n, *m) {
                lemma_weight_min_max(a, *n, *m, *greedy);
                let parts = min_max_parts(*a, *n, *m, *greedy);
                assert forall|i: int| 0 <= i < parts.len() implies all_tests(*#[trigger] parts[i], p) by {
                    match m {
                        Some(m) => {
                            if i >= *n {
                                assert(*parts[i] == Regex::ZeroOrOne(*a, *greedy));
                            }
                        },
                        None => {
                            if i == *n - 1 {
                                assert(*parts[i] == Regex::Repeat1(*a, *greedy));
                            }
                        },
                    }
                }
                lemma_tests_concat_all(parts, p);
                lemma_layout_tests(&concat_all(parts), pc, g, p);
            }
        },
        _ => {},
    }
}

/// The whole program of a regex: its instructions from program counter 0 and
/// group number 0, followed by the one accepting instruction.
pub open spec fn program<F>(r: &Regex<F>) -> Seq<Inst<F>> {
    layout(r, 0, 0).0.push(Inst::Match)
}

/// Compiles a regex to its whole program.
pub fn compile_regex_to_vm_insts<F>(reg: &Regex<F>) -> (insts: Vec<Inst<F>>)
    requires
        compilable(reg, 0, 0),
    ensures
        insts@ == program(reg),
{
    let (mut insts, _, _) = _compile_regex(reg, 0, 0);
    insts.push(Inst::Match);
    insts
}

/// Compiles one subtree whose first instruction stands at `start_pc`. Returns
/// the instructions, the program counter of the last of them, and the next
/// free group number.
#[verifier::rlimit(100)]
#[verifier::spinoff_prover]
pub fn _compile_regex<F>(reg: &Regex<F>, start_pc: PC, next_group_index: GroupIndex) -> (out: (
    Vec<Inst<F>>,
    PC,
    GroupIndex,
))
    requires
        compilable(reg, start_pc as int, next_group_index as int),
    ensures
        out.0@ == layout(reg, start_pc as int, next_group_index as int).0,
        out.0@.len() >= 1,
        out.1 == start_pc + out.0@.len() - 1,
        out.2 == layout(reg, start_pc as int, next_group_index as int).1,
    decreases weight(*reg),
{
    let mut insts: Vec<Inst<F>> = Vec::new();
    let end_pc: PC;
    let mut new_next_group_index = next_group_index;
    let ghost pc = start_pc as int;
    let ghost g = next_group_index as int;
    match reg {
        Regex::Begin => {
            insts.push(Inst::Begin);
            end_pc = start_pc;
            assert(insts@ =~= layout(reg, pc, g).0);
        },
        Regex::End => {
            insts.push(Inst::End);
            end_pc = start_pc;
            assert(insts@ =~= layout(reg, pc, g).0);
        },
        Regex::Satisfy(f) => {
            insts.push(Inst::Check(f.share()));
            end_pc = start_pc;
            assert(insts@ =~= layout(reg, pc, g).0);
        },
        Regex::NotSatisfy(f) => {
            insts.push(Inst::Check(f.share()));
            end_pc = start_pc;
            assert(insts@ =~= layout(reg, pc, g).0);
        },
        Regex::Concat(r, s) => {
            proof {
                lemma_groups_grow(&**r, pc, g);
                lemma_groups_grow(&**s, pc + layout(&**r, pc, g).0.len(), layout(&**r, pc, g).1);
            }
            let (mut r_insts, r_end_pc, r_next_group_index) = _compile_regex(
                r,
                start_pc,
                next_group_index,
            );
            let (mut s_insts, s_end_pc, s_next_group_index) = _compile_regex(
                s,
                r_end_pc + 1,
                r_next_group_index,
            );
            insts.append(&mut r_insts);
            insts.append(&mut s_insts);
            end_pc = s_end_pc;
            new_next_group_index = s_next_group_index;
            assert(insts@ =~= layout(reg, pc, g).0);
        },
        Regex::Group(r) => {
            proof {
                lemma_groups_grow(&**r, pc + 1, g + 1);
            }
            insts.push(Inst::SaveOpen(next_group_index));
            let r_start_pc = start_pc + 1;
            let (mut r_insts, r_end_pc, r_next_group_index) = _compile_regex(
                r,
                r_start_pc,
                next_group_index + 1,
            );
            insts.append(&mut r_insts);
            insts.push(Inst::SaveClose(next_group_index));
            end_pc = r_end_pc + 1;
            new_next_group_index = r_next_group_index;
            assert(insts@ =~= layout(reg, pc, g).0);
        },
        Regex::NamedGroup(name, r) => {
            proof {
                lemma_groups_grow(&**r, pc + 1, g + 1);
            }
            insts.push(Inst::SaveNamedOpen(name.clone(), next_group_index));
            let r_start_pc = start_pc + 1;
            let (mut r_insts, r_end_pc, r_next_group_index) = _compile_regex(
                r,
                r_start_pc,
                next_group_index + 1,
            );
            insts.append(&mut r_insts);
            insts.push(Inst::SaveNamedClose(name.clone(), next_group_index));
            end_pc = r_end_pc + 1;
            new_next_group_index = r_next_group_index;
            assert(insts@ =~= layout(reg, pc, g).0);
        },
        Regex::NonCapturingGroup(r) => {
            let r_start_pc = start_pc;
            let (mut r_insts, r_end_pc, r_next_group_index) = _compile_regex(
                r,
                r_start_pc,
                next_group_index,
            );
            insts.append(&mut r_insts);
            end_pc = r_end_pc;
            new_next_group_index = r_next_group_index;
            assert(insts@ =~= layout(reg, pc, g).0);
        },
        Regex::Or(r, s) => {
            proof {
                lemma_groups_grow(&**r, pc + 1, g);
                lemma_groups_grow(
                    &**s,
                    pc + layout(&**r, pc + 1, g).0.len() + 2,
                    layout(&**r, pc + 1, g).1,
                );
            }
            let r_start_pc = start_pc + 1;
            let (mut r_insts, r_end_pc, r_next_group_index) = _compile_regex(
                r,
                r_start_pc,
                next_group_index,
            );
            let jmp_inst_pc = r_end_pc + 1;
            let s_start_pc = jmp_inst_pc + 1;
            let (mut s_insts, s_end_pc, s_next_group_index) = _compile_regex(
                s,
                s_start_pc,
                r_next_group_index,
            );
            end_pc = s_end_pc;

            insts.push(Inst::Split(r_start_pc, s_start_pc));
            insts.append(&mut r_insts);
            insts.push(Inst::Jmp(end_pc + 1));
            insts.append(&mut s_insts);
            new_next_group_index = s_next_group_index;
            assert(insts@ =~= layout(reg, pc, g).0);
        },
        Regex::ZeroOrOne(r, greedy) => {
            let r_start_pc = start_pc + 1;
            let (mut r_insts, r_end_pc, r_next_group_index) = _compile_regex(
                r,
                r_start_pc,
                next_group_index,
            );
            end_pc = r_end_pc;

            if *greedy {
                insts.push(Inst::Split(r_start_pc, r_end_pc + 1));
            } else {
                insts.push(Inst::Split(r_end_pc + 1, r_start_pc));
            }
            insts.append(&mut r_insts);
            new_next_group_index = r_next_group_index;
            assert(insts@ =~= layout(reg, pc, g).0);
        },
        Regex::Repeat0(r, greedy) => {
            let r_start_pc = start_pc + 1;
            let (mut r_insts, r_end_pc, r_next_group_index) = _compile_regex(
                r,
                r_start_pc,
                next_group_index,
            );
            let jmp_inst_pc = r_end_pc + 1;
            end_pc = jmp_inst_pc;

            if *greedy {
                insts.push(Inst::Split(r_start_pc, jmp_inst_pc + 1));
            } else {
                insts.push(Inst::Split(jmp_inst_pc + 1, r_start_pc));
            }
            insts.append(&mut r_insts);
            insts.push(Inst::Jmp(start_pc));
            new_next_group_index = r_next_group_index;
            assert(insts@ =~= layout(reg, pc, g).0);
        },
        Regex::Repeat1(r, greedy) => {
            let (mut r_insts, r_end_pc, r_next_group_index) = _compile_regex(
                r,
                start_pc,
                next_group_index,
            );
            end_pc = r_end_pc + 1;

            insts.append(&mut r_insts);
            if *greedy {
                insts.push(Inst::Split(start_pc, end_pc + 1));
            } else {
                insts.push(Inst::Split(end_pc + 1, start_pc));
            }
            new_next_group_index = r_next_group_index;
            assert(insts@ =~= layout(reg, pc, g).0);
        },
        Regex::RepeatN(r, n) => {
            proof {
                lemma_weight_repeat(r, *n);
            }
            let expanded_r = expand_repeat_n(share(r), *n);
            let (mut r_insts, r_end_pc, r_next_group_index) = _compile_regex(
                &expanded_r,
                start_pc,
                next_group_index,
            );
            insts.append(&mut r_insts);
            end_pc = r_end_pc;
            new_next_group_index = r_next_group_index;
            assert(insts@ =~= layout(reg, pc, g).0);
        },
        Regex::RepeatMinMax(r, n, m, greedy) => {
            proof {
                lemma_weight_min_max(r, *n, *m, *greedy);
            }
            let expanded_r = expand_repeat_min_max(share(r), *n, m, *greedy);
            let (mut r_insts, r_end_pc, r_next_group_index) = _compile_regex(
                &expanded_r,
                start_pc,
                next_group_index,
            );
            insts.append(&mut r_insts);
            end_pc = r_end_pc;
            new_next_group_index = r_next_group_index;
            assert(insts@ =~= layout(reg, pc, g).0);
        },
    }
    (insts, end_pc, new_next_group_index)
}

/// Where compiling the subtree at `start_pc` would end: the program counter
/// of its last instruction and the next free group number, or nothing where
/// the subtree cannot be compiled there.
#[verifier::rlimit(100)]
#[verifier::spinoff_prover]
pub fn extent<F>(reg: &Regex<F>, start_pc: PC, next_group_index: GroupIndex) -> (out: Option<
    (PC, GroupIndex),
>)
    ensures
        out is Some <==> compilable(reg, start_pc as int, next_group_index as int),
        out matches Some(end) ==> {
            &&& end.0 + 1 == start_pc + layout(reg, start_pc as int, next_group_index as int).0.len()
            &&& end.1 == layout(reg, start_pc as int, next_group_index as int).1
        },
    decreases weight(*reg),
{
    let ghost pc = start_pc as int;
    let ghost g = next_group_index as int;
    if start_pc == usize::MAX || next_group_index > usize::MAX / 2 {
        proof {
            lemma_groups_grow(reg, pc, g);
            if layout(reg, pc, g).2 {
                lemma_layout_nonempty(reg, pc, g);
            }
        }
        return None;
    }
    match reg {
        Regex::Begin => Some((start_pc, next_group_index)),
        Regex::End => Some((start_pc, next_group_index)),
        Regex::Satisfy(_) => Some((start_pc, next_group_index)),
        Regex::NotSatisfy(_) => Some((start_pc, next_group_index)),
        Regex::Concat(r, s) => {
            proof {
                lemma_groups_grow(&**r, pc, g);
                lemma_groups_grow(&**s, pc + layout(&**r, pc, g).0.len(), layout(&**r, pc, g).1);
            }
            match extent(r, start_pc, next_group_index) {
                Some((r_end_pc, r_next_group_index)) => extent(s, r_end_pc + 1, r_next_group_index),
                None => None,
            }
        },
        Regex::Group(r) => {
            proof {
                lemma_groups_grow(&**r, pc + 1, g + 1);
            }
            match extent(r, start_pc + 1, next_group_index + 1) {
                Some((r_end_pc, r_next_group_index)) => close_after(r_end_pc, r_next_group_index),
                None => None,
            }
        },
        Regex::NamedGroup(_, r) => {
            proof {
                lemma_groups_grow(&**r, pc + 1, g + 1);
            }
            match extent(r, start_pc + 1, next_group_index + 1) {
                Some((r_end_pc, r_next_group_index)) => close_after(r_end_pc, r_next_group_index),
                None => None,
            }
        },
        Regex::NonCapturingGroup(r) => extent(r, start_pc, next_group_index),
        Regex::Or(r, s) => {
            proof {
                lemma_groups_grow(&**r, pc + 1, g);
                lemma_groups_grow(
                    &**s,
                    pc + layout(&**r, pc + 1, g).0.len() + 2,
                    layout(&**r, pc + 1, g).1,
                );
            }
            match extent(r, start_pc + 1, next_group_index) {
                Some((r_end_pc, r_next_group_index)) => {
                    if r_end_pc + 1 == usize::MAX {
                        proof {
                            let b_start = pc + layout(&**r, pc + 1, g).0.len() + 2;
                            if layout(&**s, b_start, r_next_group_index as int).2 {
                                lemma_layout_nonempty(&**s, b_start, r_next_group_index as int);
                            }
                        }
                        None
                    } else {
                        extent(s, r_end_pc + 2, r_next_group_index)
                    }
                },
                None => None,
            }
        },
        Regex::ZeroOrOne(r, _) => extent(r, start_pc + 1, next_group_index),
        Regex::Repeat0(r, _) => match extent(r, start_pc + 1, next_group_index) {
            Some((r_end_pc, r_next_group_index)) => close_after(r_end_pc, r_next_group_index),
            None => None,
        },
        Regex::Repeat1(r, _) => match extent(r, start_pc, next_group_index) {
            Some((r_end_pc, r_next_group_index)) => close_after(r_end_pc, r_next_group_index),
            None => None,
        },
        Regex::RepeatN(r, n) => {
            if *n == 0 {
                None
            } else {
                proof {
                    lemma_weight_repeat(r, *n);
                }
                let expanded_r = expand_repeat_n(share(r), *n);
                extent(&expanded_r, start_pc, next_group_index)
            }
        },
        Regex::RepeatMinMax(r, n, m, greedy) => {
            let allowed = match m {
                Some(m) => *n <= *m && 1 <= *m,
                None => 1 <= *n,
            };
            if !allowed {
                None
            } else {
                proof {
                    lemma_weight_min_max(r, *n, *m, *greedy);
                }
                let expanded_r = expand_repeat_min_max(share(r), *n, m, *greedy);
                extent(&expanded_r, start_pc, next_group_index)
            }
        },
    }
}

/// The end of a construct that puts one instruction behind a body ending at
/// `body_end`, where that instruction still has a program counter.
fn close_after(body_end: PC, next_group_index: GroupIndex) -> (out: Option<(PC, GroupIndex)>)
    ensures
        out is Some <==> body_end + 2 <= usize::MAX,
        out matches Some(end) ==> end.0 == body_end + 1 && end.1 == next_group_index,
{
    if body_end >= usize::MAX - 1 {
        None
    } else {
        Some((body_end + 1, next_group_index))
    }
}

/// A regex whose counted repetitions can be rewritten compiles to at least
/// one instruction.
pub proof fn lemma_layout_nonempty<F>(r: &Regex<F>, pc: int, g: int)
    requires
        layout(r, pc, g).2,
    ensures
        layout(r, pc, g).0.len() >= 1,
    decreases weight(*r),
{
    match r {
        Regex::Concat(a, b) => {
            lemma_layout_nonempty(&**a, pc, g);
        },
        Regex::NonCapturingGroup(a) => {
            lemma_layout_nonempty(&**a, pc, g);
        },
        Regex::RepeatN(a, n) => {
            lemma_weight_repeat(a, *n);
            lemma_layout_nonempty(&concat_all(repeat_parts(*a, *n)), pc, g);
        },
        Regex::RepeatMinMax(a, n, m, greedy) => {
            lemma_weight_min_max(a, *n, *m, *greedy);
            lemma_layout_nonempty(&concat_all(min_max_parts(*a, *n, *m, *greedy)), pc, g);
        },
        _ => {},
    }
}

} // verus!
