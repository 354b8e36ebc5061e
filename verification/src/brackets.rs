//! Groups are well bracketed: in a compiled program the start marker of a
//! group opens a stretch of instructions that is left only through the end
//! marker, so a thread that accepts has closed every group it opened.

use crate::compiler::{
    all_placed, compilable, fork, layout, lemma_groups_grow, lemma_layout_placed, placed,
};
use crate::inst::Inst;
use crate::matcher::{balanced, has_close, has_open, lemma_leading_bounds, leading};
use crate::predicate::Test;
use crate::regex::{
    concat_all, lemma_weight_min_max, lemma_weight_repeat, min_max_parts, repeat_parts, weight,
    Regex,
};
use crate::runner::{
    advance_by, at, follow, has_slot, hits, initial_thread, inst_valid, lemma_follow_marks,
    lemma_unvisited_mark, no_marks, run_by, stays_within, stored, unvisited, valid_program,
    winner, with_name, ThreadView,
};
use vstd::prelude::*;

verus! {

/// The instruction records the start of group `j`.
pub open spec fn opens<F>(inst: Inst<F>, j: int) -> bool {
    match inst {
        Inst::SaveOpen(i) => i == j,
        Inst::SaveNamedOpen(_, i) => i == j,
        _ => false,
    }
}

/// The instruction records the end of group `j`.
pub open spec fn closes<F>(inst: Inst<F>, j: int) -> bool {
    match inst {
        Inst::SaveClose(i) => i == j,
        Inst::SaveNamedClose(_, i) => i == j,
        _ => false,
    }
}

/// In the instructions `s`, whose first stands at program counter `base`,
/// the start marker of group `j` at index `o` and its end marker at index
/// `c` enclose instructions that neither accept nor jump out of the stretch
/// that ends with the end marker.
pub open spec fn region<F>(s: Seq<Inst<F>>, base: int, j: int, o: int, c: int) -> bool {
    &&& 0 <= o < c < s.len()
    &&& opens(s[o], j)
    &&& closes(s[c], j)
    &&& forall|k: int| o < k < c ==> stays_within(#[trigger] s[k], base + o + 1, base + c)
}

/// Every start marker in `s` has such a stretch.
pub open spec fn regioned<F>(s: Seq<Inst<F>>, base: int) -> bool {
    forall|o: int, j: int|
        0 <= o < s.len() && #[trigger] opens(s[o], j) ==> exists|c: int| #[trigger]
            region(s, base, j, o, c)
}

/// The thread stands inside a stretch of group `j`.
pub open spec fn inside<F>(insts: Seq<Inst<F>>, j: int, pc: int) -> bool {
    exists|o: int, c: int| #[trigger] region(insts, 0, j, o, c) && o < pc <= c
}

/// Every group that the thread has opened and not closed is one whose
/// stretch the thread stands in.
pub open spec fn bracketed<F>(insts: Seq<Inst<F>>, t: ThreadView) -> bool {
    forall|j: int|
        0 <= j && #[trigger] has_open(t.saved, j) && !has_close(t.saved, j) ==> inside(
            insts,
            j,
            t.pc as int,
        )
}

/// Every listed thread stands inside the program and is bracketed.
pub open spec fn all_bracketed<F>(insts: Seq<Inst<F>>, list: Seq<ThreadView>) -> bool {
    forall|i: int|
        0 <= i < list.len() ==> (#[trigger] list[i]).pc < insts.len() && bracketed(insts, list[i])
}

/// The thread `t2` is what `t` becomes by executing the instruction it stands at.
pub open spec fn moved<F>(insts: Seq<Inst<F>>, pos: usize, t: ThreadView, t2: ThreadView) -> bool {
    let next = (t.pc + 1) as usize;
    match insts[t.pc as int] {
        Inst::Jmp(x) => t2 == at(t, x),
        Inst::Split(x, y) => t2 == at(t, x) || t2 == at(t, y),
        Inst::SaveOpen(i) => t2 == (ThreadView {
            pc: next,
            saved: stored(t.saved, 2 * i, pos),
            named: t.named,
        }),
        Inst::SaveClose(i) => t2 == (ThreadView {
            pc: next,
            saved: stored(t.saved, 2 * i + 1, pos),
            named: t.named,
        }),
        Inst::SaveNamedOpen(name, i) => t2 == (ThreadView {
            pc: next,
            saved: stored(t.saved, 2 * i, pos),
            named: with_name(t.named, name, i),
        }),
        Inst::SaveNamedClose(_, i) => t2 == (ThreadView {
            pc: next,
            saved: stored(t.saved, 2 * i + 1, pos),
            named: t.named,
        }),
        Inst::Match => false,
        _ => t2 == at(t, next),
    }
}

proof fn lemma_stored(saved: Seq<Option<usize>>, slot: int, pos: usize, other: int)
    requires
        0 <= slot,
        0 <= other,
    ensures
        has_slot(stored(saved, slot, pos), slot),
        other != slot ==> (has_slot(stored(saved, slot, pos), other)
            <==> has_slot(saved, other)),
{
}

/// Executing one instruction keeps a thread bracketed.
pub proof fn lemma_move_bracketed<F>(insts: Seq<Inst<F>>, pos: usize, t: ThreadView, t2: ThreadView)
    requires
        valid_program(insts),
        insts.len() <= usize::MAX,
        regioned(insts, 0),
        t.pc < insts.len(),
        bracketed(insts, t),
        moved(insts, pos, t, t2),
    ensures
        t2.pc < insts.len(),
        bracketed(insts, t2),
{
    let pc = t.pc as int;
    let inst = insts[pc];
    assert(inst_valid(inst, pc, insts.len() as int));
    assert forall|j: int|
        0 <= j && #[trigger] has_open(t2.saved, j) && !has_close(t2.saved, j) implies inside(
        insts,
        j,
        t2.pc as int,
    ) by {
        match inst {
            Inst::SaveOpen(i) => {
                lemma_stored(t.saved, 2 * i, pos, 2 * j);
                lemma_stored(t.saved, 2 * i, pos, 2 * j + 1);
            },
            Inst::SaveNamedOpen(_, i) => {
                lemma_stored(t.saved, 2 * i, pos, 2 * j);
                lemma_stored(t.saved, 2 * i, pos, 2 * j + 1);
            },
            Inst::SaveClose(i) => {
                lemma_stored(t.saved, 2 * i + 1, pos, 2 * j);
                lemma_stored(t.saved, 2 * i + 1, pos, 2 * j + 1);
            },
            Inst::SaveNamedClose(_, i) => {
                lemma_stored(t.saved, 2 * i + 1, pos, 2 * j);
                lemma_stored(t.saved, 2 * i + 1, pos, 2 * j + 1);
            },
            _ => {},
        }
        if opens(inst, j) {
            assert(opens(insts[pc], j));
            let c = choose|c: int| #[trigger] region(insts, 0, j, pc, c);
            assert(region(insts, 0, j, pc, c));
            assert(t2.pc == pc + 1);
        } else {
            assert(has_open(t.saved, j) && !has_close(t.saved, j));
            let (o, c) = choose|o: int, c: int| #[trigger]
                region(insts, 0, j, o, c) && o < pc <= c;
            if pc == c {
                assert(closes(inst, j));
                assert(false);
            }
            assert(stays_within(insts[pc], o + 1, c));
            assert(o < t2.pc <= c);
        }
    }
}

/// A bracketed thread at the accepting instruction has closed every group it opened.
pub proof fn lemma_accept_balanced<F>(insts: Seq<Inst<F>>, t: ThreadView)
    requires
        t.pc < insts.len(),
        insts[t.pc as int] == Inst::<F>::Match,
        bracketed(insts, t),
    ensures
        balanced(t.saved),
{
    lemma_leading_bounds(t.saved, 0);
    assert forall|i: int| 0 <= i < leading(t.saved, 0) implies #[trigger] has_close(
        t.saved,
        i,
    ) by {
        assert(has_open(t.saved, i));
        assert(2 * i < t.saved.len());
        if !has_close(t.saved, i) {
            let (o, c) = choose|o: int, c: int| #[trigger]
                region(insts, 0, i, o, c) && o < t.pc <= c;
            if t.pc < c {
                assert(stays_within(insts[t.pc as int], o + 1, c));
            }
        }
    }
}

/// Following a bracketed thread lists only bracketed threads.
pub proof fn lemma_follow_bracketed<F>(
    insts: Seq<Inst<F>>,
    input_len: usize,
    pos: usize,
    st: (Seq<ThreadView>, Seq<bool>),
    t: ThreadView,
)
    requires
        valid_program(insts),
        insts.len() <= usize::MAX,
        regioned(insts, 0),
        st.1.len() == insts.len(),
        t.pc < insts.len(),
        all_bracketed(insts, st.0),
        bracketed(insts, t),
    ensures
        all_bracketed(insts, follow(insts, input_len, pos, st, t).0),
        follow(insts, input_len, pos, st, t).1.len() == insts.len(),
    decreases unvisited(st.1),
{
    if !st.1[t.pc as int] {
        let marked = (st.0, st.1.update(t.pc as int, true));
        lemma_unvisited_mark(st.1, t.pc as int);
        let next = (t.pc + 1) as usize;
        match insts[t.pc as int] {
            Inst::Jmp(x) => {
                lemma_move_bracketed(insts, pos, t, at(t, x));
                lemma_follow_bracketed(insts, input_len, pos, marked, at(t, x));
            },
            Inst::Split(x, y) => {
                let first = follow(insts, input_len, pos, marked, at(t, x));
                lemma_move_bracketed(insts, pos, t, at(t, x));
                lemma_move_bracketed(insts, pos, t, at(t, y));
                lemma_follow_bracketed(insts, input_len, pos, marked, at(t, x));
                lemma_follow_marks(insts, input_len, pos, marked, at(t, x));
                lemma_follow_bracketed(insts, input_len, pos, first, at(t, y));
            },
            Inst::Begin => {
                if pos == 0 {
                    lemma_move_bracketed(insts, pos, t, at(t, next));
                    lemma_follow_bracketed(insts, input_len, pos, marked, at(t, next));
                }
            },
            Inst::End => {
                if pos == input_len {
                    lemma_move_bracketed(insts, pos, t, at(t, next));
                    lemma_follow_bracketed(insts, input_len, pos, marked, at(t, next));
                }
            },
            Inst::SaveOpen(i) => {
                let t2 = ThreadView { pc: next, saved: stored(t.saved, 2 * i, pos), named: t.named };
                lemma_move_bracketed(insts, pos, t, t2);
                lemma_follow_bracketed(insts, input_len, pos, marked, t2);
            },
            Inst::SaveClose(i) => {
                let t2 = ThreadView {
                    pc: next,
                    saved: stored(t.saved, 2 * i + 1, pos),
                    named: t.named,
                };
                lemma_move_bracketed(insts, pos, t, t2);
                lemma_follow_bracketed(insts, input_len, pos, marked, t2);
            },
            Inst::SaveNamedOpen(name, i) => {
                let t2 = ThreadView {
                    pc: next,
                    saved: stored(t.saved, 2 * i, pos),
                    named: with_name(t.named, name, i),
                };
                lemma_move_bracketed(insts, pos, t, t2);
                lemma_follow_bracketed(insts, input_len, pos, marked, t2);
            },
            Inst::SaveNamedClose(name, i) => {
                let t2 = ThreadView {
                    pc: next,
                    saved: stored(t.saved, 2 * i + 1, pos),
                    named: t.named,
                };
                lemma_move_bracketed(insts, pos, t, t2);
                lemma_follow_bracketed(insts, input_len, pos, marked, t2);
            },
            _ => {},
        }
    }
}

/// The match of a step, if it has one, has closed every group it opened.
pub open spec fn match_balanced(found: Option<ThreadView>) -> bool {
    found matches Some(t) ==> balanced(t.saved)
}

/// A step lists only bracketed threads, and its match is balanced.
pub proof fn lemma_advance_bracketed<F>(
    insts: Seq<Inst<F>>,
    input_len: usize,
    pos: int,
    clist: Seq<ThreadView>,
    k: int,
    st: (Seq<ThreadView>, Seq<bool>),
    hit: spec_fn(Test<F>, int) -> bool,
)
    requires
        valid_program(insts),
        insts.len() <= usize::MAX,
        regioned(insts, 0),
        st.1.len() == insts.len(),
        all_bracketed(insts, clist),
        all_bracketed(insts, st.0),
        0 <= k,
    ensures
        all_bracketed(insts, advance_by(insts, input_len, pos, clist, k, st, hit).0),
        match_balanced(advance_by(insts, input_len, pos, clist, k, st, hit).1),
    decreases clist.len() - k,
{
    if k < clist.len() {
        let t = clist[k];
        match insts[t.pc as int] {
            Inst::Match => {
                lemma_accept_balanced(insts, t);
            },
            Inst::Check(test) => {
                if hit(test, pos) {
                    let t2 = at(t, (t.pc + 1) as usize);
                    lemma_move_bracketed(insts, (pos + 1) as usize, t, t2);
                    lemma_follow_bracketed(insts, input_len, (pos + 1) as usize, st, t2);
                    lemma_advance_bracketed(
                        insts,
                        input_len,
                        pos,
                        clist,
                        k + 1,
                        follow(insts, input_len, (pos + 1) as usize, st, t2),
                        hit,
                    );
                } else {
                    lemma_advance_bracketed(insts, input_len, pos, clist, k + 1, st, hit);
                }
            },
            _ => {
                lemma_advance_bracketed(insts, input_len, pos, clist, k + 1, st, hit);
            },
        }
    }
}

/// The match of a run is balanced.
pub proof fn lemma_run_balanced<F>(
    insts: Seq<Inst<F>>,
    input_len: usize,
    pos: int,
    clist: Seq<ThreadView>,
    best: Option<ThreadView>,
    hit: spec_fn(Test<F>, int) -> bool,
)
    requires
        valid_program(insts),
        insts.len() <= usize::MAX,
        regioned(insts, 0),
        all_bracketed(insts, clist),
        match_balanced(best),
    ensures
        match_balanced(run_by(insts, input_len, pos, clist, best, hit)),
    decreases input_len - pos,
{
    let fresh = (Seq::<ThreadView>::empty(), no_marks(insts.len()));
    lemma_advance_bracketed(insts, input_len, pos, clist, 0, fresh, hit);
    let (nlist, found) = advance_by(insts, input_len, pos, clist, 0, fresh, hit);
    let best = if found is Some {
        found
    } else {
        best
    };
    if pos < input_len {
        lemma_run_balanced(insts, input_len, pos + 1, nlist, best, hit);
    }
}

/// The winning thread has closed every group it opened.
pub proof fn lemma_winner_balanced<I, F: Fn(&I) -> bool>(insts: Seq<Inst<F>>, input: Seq<I>)
    requires
        valid_program(insts),
        insts.len() <= usize::MAX,
        regioned(insts, 0),
    ensures
        match_balanced(winner(insts, input)),
{
    let fresh = (Seq::<ThreadView>::empty(), no_marks(insts.len()));
    let len = input.len() as usize;
    lemma_follow_bracketed(insts, len, 0, fresh, initial_thread());
    lemma_run_balanced(
        insts,
        len,
        0,
        follow(insts, len, 0, fresh, initial_thread()).0,
        None,
        hits(input),
    );
}

/// The instruction is no start marker.
pub open spec fn plain<F>(inst: Inst<F>) -> bool {
    !(inst is SaveOpen) && !(inst is SaveNamedOpen)
}

proof fn lemma_plain_regioned<F>(inst: Inst<F>, base: int)
    requires
        plain(inst),
    ensures
        regioned(seq![inst], base),
{
}

proof fn lemma_regioned_join<F>(a: Seq<Inst<F>>, b: Seq<Inst<F>>, base: int)
    requires
        regioned(a, base),
        regioned(b, base + a.len()),
    ensures
        regioned(a + b, base),
{
    let s = a + b;
    assert forall|o: int, j: int| 0 <= o < s.len() && #[trigger] opens(s[o], j) implies exists|
        c: int,
    | #[trigger] region(s, base, j, o, c) by {
        if o < a.len() {
            assert(s[o] == a[o]);
            assert(opens(a[o], j));
            let c = choose|c: int| #[trigger] region(a, base, j, o, c);
            assert forall|k: int| o < k < c implies stays_within(
                #[trigger] s[k],
                base + o + 1,
                base + c,
            ) by {
                assert(s[k] == a[k]);
            }
            assert(s[c] == a[c]);
            assert(region(s, base, j, o, c));
        } else {
            let shift = a.len() as int;
            assert(s[o] == b[o - shift]);
            assert(opens(b[o - shift], j));
            let c2 = choose|c: int| #[trigger] region(b, base + shift, j, o - shift, c);
            let c = c2 + shift;
            assert forall|k: int| o < k < c implies stays_within(
                #[trigger] s[k],
                base + o + 1,
                base + c,
            ) by {
                assert(s[k] == b[k - shift]);
            }
            assert(s[c] == b[c2]);
            assert(region(s, base, j, o, c));
        }
    }
}

proof fn lemma_regioned_wrap<F>(
    open: Inst<F>,
    a: Seq<Inst<F>>,
    close: Inst<F>,
    base: int,
    j: int,
)
    requires
        opens(open, j),
        closes(close, j),
        regioned(a, base + 1),
        forall|k: int| 0 <= k < a.len() ==> stays_within(#[trigger] a[k], base + 1, base + 1 + a.len()),
    ensures
        regioned(seq![open] + a + seq![close], base),
{
    let s = seq![open] + a + seq![close];
    let last = a.len() + 1int;
    assert(s[0] == open);
    assert(s[last] == close);
    assert forall|k: int| 0 < k < last implies s[k] == a[k - 1] by {}
    assert forall|o: int, i: int| 0 <= o < s.len() && #[trigger] opens(s[o], i) implies exists|
        c: int,
    | #[trigger] region(s, base, i, o, c) by {
        if o == 0 {
            assert(i == j);
            assert forall|k: int| 0 < k < last implies stays_within(
                #[trigger] s[k],
                base + 1,
                base + last,
            ) by {
                assert(s[k] == a[k - 1]);
            }
            assert(region(s, base, i, 0, last));
        } else if o < last {
            assert(s[o] == a[o - 1]);
            assert(opens(a[o - 1], i));
            let c2 = choose|c: int| #[trigger] region(a, base + 1, i, o - 1, c);
            let c = c2 + 1;
            assert forall|k: int| o < k < c implies stays_within(
                #[trigger] s[k],
                base + o + 1,
                base + c,
            ) by {
                assert(s[k] == a[k - 1]);
            }
            assert(s[c] == a[c2]);
            assert(region(s, base, i, o, c));
        }
    }
}

proof fn lemma_placed_stays<F>(a: Seq<Inst<F>>, lo: int, hi: int, glo: int, ghi: int)
    requires
        all_placed(a, lo, hi, glo, ghi),
    ensures
        forall|k: int| 0 <= k < a.len() ==> stays_within(#[trigger] a[k], lo, hi),
{
    assert forall|k: int| 0 <= k < a.len() implies stays_within(#[trigger] a[k], lo, hi) by {
        assert(placed(a[k], lo, hi, glo, ghi));
    }
}

/// In the instructions of a compilable regex every start marker of a group
/// opens a stretch that is left only through the group's end marker.
pub proof fn lemma_layout_regioned<F>(r: &Regex<F>, pc: int, g: int)
    requires
        pc >= 0,
        g >= 0,
        compilable(r, pc, g),
    ensures
        regioned(layout(r, pc, g).0, pc),
    decreases weight(*r),
{
    let none = Seq::<Inst<F>>::empty();
    let insts = layout(r, pc, g).0;
    match r {
        Regex::Begin => {
            lemma_plain_regioned(Inst::<F>::Begin, pc);
        },
        Regex::End => {
            lemma_plain_regioned(Inst::<F>::End, pc);
        },
        Regex::Satisfy(t) => {
            lemma_plain_regioned(Inst::<F>::Check(*t), pc);
        },
        Regex::NotSatisfy(t) => {
            lemma_plain_regioned(Inst::<F>::Check(*t), pc);
        },
        Regex::Concat(a, b) => {
            let (ai, ag, aok) = layout(&**a, pc, g);
            lemma_groups_grow(&**a, pc, g);
            lemma_groups_grow(&**b, pc + ai.len(), ag);
            lemma_layout_regioned(&**a, pc, g);
            lemma_layout_regioned(&**b, pc + ai.len(), ag);
            lemma_regioned_join(ai, layout(&**b, pc + ai.len(), ag).0, pc);
        },
        Regex::Group(a) => {
            let (ai, ag, aok) = layout(&**a, pc + 1, g + 1);
            lemma_layout_regioned(&**a, pc + 1, g + 1);
            lemma_layout_placed(&**a, pc + 1, g + 1);
            lemma_placed_stays(ai, pc + 1, pc + 1 + ai.len(), g + 1, ag);
            lemma_regioned_wrap(
                Inst::<F>::SaveOpen(g as usize),
                ai,
                Inst::<F>::SaveClose(g as usize),
                pc,
                g as usize as int,
            );
        },
        Regex::NamedGroup(name, a) => {
            let (ai, ag, aok) = layout(&**a, pc + 1, g + 1);
            lemma_layout_regioned(&**a, pc + 1, g + 1);
            lemma_layout_placed(&**a, pc + 1, g + 1);
            lemma_placed_stays(ai, pc + 1, pc + 1 + ai.len(), g + 1, ag);
            lemma_regioned_wrap(
                Inst::<F>::SaveNamedOpen(*name, g as usize),
                ai,
                Inst::<F>::SaveNamedClose(*name, g as usize),
                pc,
                g as usize as int,
            );
        },
        Regex::NonCapturingGroup(a) => {
            lemma_layout_regioned(&**a, pc, g);
        },
        Regex::Or(a, b) => {
            let (ai, ag, aok) = layout(&**a, pc + 1, g);
            let b_start = pc + ai.len() + 2;
            let (bi, bg, bok) = layout(&**b, b_start, ag);
            lemma_groups_grow(&**a, pc + 1, g);
            lemma_groups_grow(&**b, b_start, ag);
            lemma_layout_regioned(&**a, pc + 1, g);
            lemma_layout_regioned(&**b, b_start, ag);
            let split = Inst::<F>::Split((pc + 1) as usize, b_start as usize);
            let jmp = Inst::<F>::Jmp((b_start + bi.len()) as usize);
            lemma_plain_regioned(split, pc);
            lemma_plain_regioned(jmp, pc + 1 + ai.len());
            lemma_regioned_join(seq![split], ai, pc);
            lemma_regioned_join(seq![split] + ai, seq![jmp], pc);
            lemma_regioned_join(seq![split] + ai + seq![jmp], bi, pc);
        },
        Regex::ZeroOrOne(a, greedy) => {
            let (ai, ag, aok) = layout(&**a, pc + 1, g);
            lemma_layout_regioned(&**a, pc + 1, g);
            let split = fork::<F>(*greedy, pc + 1, pc + ai.len() + 1);
            lemma_plain_regioned(split, pc);
            lemma_regioned_join(seq![split], ai, pc);
        },
        Regex::Repeat0(a, greedy) => {
            let (ai, ag, aok) = layout(&**a, pc + 1, g);
            lemma_layout_regioned(&**a, pc + 1, g);
            let split = fork::<F>(*greedy, pc + 1, pc + ai.len() + 2);
            let jmp = Inst::<F>::Jmp(pc as usize);
            lemma_plain_regioned(split, pc);
            lemma_plain_regioned(jmp, pc + 1 + ai.len());
            lemma_regioned_join(seq![split], ai, pc);
            lemma_regioned_join(seq![split] + ai, seq![jmp], pc);
        },
        Regex::Repeat1(a, greedy) => {
            let (ai, ag, aok) = layout(&**a, pc, g);
            lemma_layout_regioned(&**a, pc, g);
            let split = fork::<F>(*greedy, pc, pc + ai.len() + 1);
            lemma_plain_regioned(split, pc + ai.len());
            lemma_regioned_join(ai, seq![split], pc);
        },
        Regex::RepeatN(a, n) => {
            lemma_weight_repeat(a, *n);
            lemma_layout_regioned(&concat_all(repeat_parts(*a, *n)), pc, g);
        },
        Regex::RepeatMinMax(a, n, m, greedy) => {
            lemma_weight_min_max(a, *n, *m, *greedy);
            lemma_layout_regioned(&concat_all(min_max_parts(*a, *n, *m, *greedy)), pc, g);
        },
    }
}

} // verus!
