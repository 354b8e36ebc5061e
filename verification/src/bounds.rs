//! Recorded positions lie in the input, and the whole match ends no earlier
//! than it starts.

use crate::brackets::moved;
use crate::inst::Inst;
use crate::predicate::Test;
use crate::runner::{
    advance_by, at, follow, framed, has_slot, hits, initial_thread, inst_valid,
    lemma_follow_marks, lemma_unvisited_mark, no_marks, run_by, stays_within, stored, unvisited,
    valid_program, winner, with_name, ThreadView,
};
use vstd::prelude::*;

verus! {

/// Every recorded position is at most `pos`.
pub open spec fn within(saved: Seq<Option<usize>>, pos: int) -> bool {
    forall|s: int| 0 <= s < saved.len() && (#[trigger] saved[s]) is Some ==> saved[s]->0 <= pos
}

/// The instruction records nothing and leads to no program counter below `lo`.
pub open spec fn stays_above<F>(inst: Inst<F>, lo: int) -> bool {
    match inst {
        Inst::Split(x, y) => lo <= x && lo <= y,
        Inst::Jmp(x) => lo <= x,
        Inst::SaveOpen(_) => false,
        Inst::SaveClose(_) => false,
        Inst::SaveNamedOpen(_, _) => false,
        Inst::SaveNamedClose(_, _) => false,
        _ => true,
    }
}

/// The instructions behind the end marker of group 0 record nothing and
/// never lead back before them.
pub open spec fn sealed<F>(insts: Seq<Inst<F>>) -> bool {
    forall|pc: int|
        insts.len() - 5 < pc < insts.len() ==> stays_above(#[trigger] insts[pc], insts.len() - 4)
}

/// The thread has recorded no position beyond `pos`, and once it is past
/// the end marker of group 0, the whole match ends no earlier than it starts.
pub open spec fn ordered<F>(insts: Seq<Inst<F>>, pos: int, t: ThreadView) -> bool {
    &&& within(t.saved, pos)
    &&& t.pc > insts.len() - 5 && has_slot(t.saved, 0) && has_slot(t.saved, 1) ==> t.saved[0]->0
        <= t.saved[1]->0
}

/// Every listed thread stands inside the program and is ordered.
pub open spec fn all_ordered<F>(insts: Seq<Inst<F>>, pos: int, list: Seq<ThreadView>) -> bool {
    forall|i: int|
        0 <= i < list.len() ==> (#[trigger] list[i]).pc < insts.len() && ordered(
            insts,
            pos,
            list[i],
        )
}

proof fn lemma_stored_within(saved: Seq<Option<usize>>, slot: int, at_pos: usize, pos: int)
    requires
        0 <= slot,
        within(saved, pos),
        at_pos <= pos,
    ensures
        within(stored(saved, slot, at_pos), pos),
        stored(saved, slot, at_pos)[slot] == Some(at_pos),
        forall|other: int|
            0 <= other < saved.len() && other != slot ==> #[trigger] stored(saved, slot, at_pos)[other]
                == saved[other],
{
    let after = stored(saved, slot, at_pos);
    assert forall|s: int| 0 <= s < after.len() && (#[trigger] after[s]) is Some implies after[s]->0
        <= pos by {
        if s != slot && s < saved.len() {
            assert(after[s] == saved[s]);
        }
    }
}

/// Executing one instruction at position `pos` keeps a thread ordered.
pub proof fn lemma_move_ordered<F>(insts: Seq<Inst<F>>, pos: usize, t: ThreadView, t2: ThreadView)
    requires
        valid_program(insts),
        insts.len() <= usize::MAX,
        framed(insts),
        sealed(insts),
        t.pc < insts.len(),
        ordered(insts, pos as int, t),
        moved(insts, pos, t, t2),
    ensures
        ordered(insts, pos as int, t2),
{
    let pc = t.pc as int;
    let inst = insts[pc];
    let close = insts.len() - 5;
    assert(inst_valid(inst, pc, insts.len() as int));
    match inst {
        Inst::SaveOpen(i) => {
            lemma_stored_within(t.saved, 2 * i, pos, pos as int);
        },
        Inst::SaveNamedOpen(_, i) => {
            lemma_stored_within(t.saved, 2 * i, pos, pos as int);
        },
        Inst::SaveClose(i) => {
            lemma_stored_within(t.saved, 2 * i + 1, pos, pos as int);
        },
        Inst::SaveNamedClose(_, i) => {
            lemma_stored_within(t.saved, 2 * i + 1, pos, pos as int);
        },
        _ => {},
    }
    if pc < 3 {
        assert(stays_within(insts[pc], 0, 3));
    } else if 3 < pc < close {
        assert(stays_within(insts[pc], 4, close));
    } else if pc > close {
        assert(stays_above(insts[pc], close + 1));
    }
}

/// Following an ordered thread lists only ordered threads.
pub proof fn lemma_follow_ordered<F>(
    insts: Seq<Inst<F>>,
    input_len: usize,
    pos: usize,
    st: (Seq<ThreadView>, Seq<bool>),
    t: ThreadView,
)
    requires
        valid_program(insts),
        insts.len() <= usize::MAX,
        framed(insts),
        sealed(insts),
        st.1.len() == insts.len(),
        t.pc < insts.len(),
        all_ordered(insts, pos as int, st.0),
        ordered(insts, pos as int, t),
    ensures
        all_ordered(insts, pos as int, follow(insts, input_len, pos, st, t).0),
        follow(insts, input_len, pos, st, t).1.len() == insts.len(),
    decreases unvisited(st.1),
{
    if !st.1[t.pc as int] {
        let marked = (st.0, st.1.update(t.pc as int, true));
        lemma_unvisited_mark(st.1, t.pc as int);
        assert(inst_valid(insts[t.pc as int], t.pc as int, insts.len() as int));
        let next = (t.pc + 1) as usize;
        match insts[t.pc as int] {
            Inst::Jmp(x) => {
                lemma_move_ordered(insts, pos, t, at(t, x));
                lemma_follow_ordered(insts, input_len, pos, marked, at(t, x));
            },
            Inst::Split(x, y) => {
                let first = follow(insts, input_len, pos, marked, at(t, x));
                lemma_move_ordered(insts, pos, t, at(t, x));
                lemma_move_ordered(insts, pos, t, at(t, y));
                lemma_follow_ordered(insts, input_len, pos, marked, at(t, x));
                lemma_follow_marks(insts, input_len, pos, marked, at(t, x));
                lemma_follow_ordered(insts, input_len, pos, first, at(t, y));
            },
            Inst::Begin => {
                if pos == 0 {
                    lemma_move_ordered(insts, pos, t, at(t, next));
                    lemma_follow_ordered(insts, input_len, pos, marked, at(t, next));
                }
            },
            Inst::End => {
                if pos == input_len {
                    lemma_move_ordered(insts, pos, t, at(t, next));
                    lemma_follow_ordered(insts, input_len, pos, marked, at(t, next));
                }
            },
            Inst::SaveOpen(i) => {
                let t2 = ThreadView { pc: next, saved: stored(t.saved, 2 * i, pos), named: t.named };
                lemma_move_ordered(insts, pos, t, t2);
                lemma_follow_ordered(insts, input_len, pos, marked, t2);
            },
            Inst::SaveClose(i) => {
                let t2 = ThreadView {
                    pc: next,
                    saved: stored(t.saved, 2 * i + 1, pos),
                    named: t.named,
                };
                lemma_move_ordered(insts, pos, t, t2);
                lemma_follow_ordered(insts, input_len, pos, marked, t2);
            },
            Inst::SaveNamedOpen(name, i) => {
                let t2 = ThreadView {
                    pc: next,
                    saved: stored(t.saved, 2 * i, pos),
                    named: with_name(t.named, name, i),
                };
                lemma_move_ordered(insts, pos, t, t2);
                lemma_follow_ordered(insts, input_len, pos, marked, t2);
            },
            Inst::SaveNamedClose(name, i) => {
                let t2 = ThreadView {
                    pc: next,
                    saved: stored(t.saved, 2 * i + 1, pos),
                    named: t.named,
                };
                lemma_move_ordered(insts, pos, t, t2);
                lemma_follow_ordered(insts, input_len, pos, marked, t2);
            },
            _ => {},
        }
    }
}

/// The match, if there is one, has recorded no position beyond `bound`, and
/// where it has recorded both ends of group 0, they are in order.
pub open spec fn match_ordered(found: Option<ThreadView>, bound: int) -> bool {
    found matches Some(t) ==> {
        &&& within(t.saved, bound)
        &&& has_slot(t.saved, 0) && has_slot(t.saved, 1) ==> t.saved[0]->0 <= t.saved[1]->0
    }
}

proof fn lemma_later<F>(insts: Seq<Inst<F>>, pos: int, list: Seq<ThreadView>)
    requires
        all_ordered(insts, pos, list),
    ensures
        all_ordered(insts, pos + 1, list),
{
    assert forall|i: int| 0 <= i < list.len() implies (#[trigger] list[i]).pc < insts.len()
        && ordered(insts, pos + 1, list[i]) by {
        assert(ordered(insts, pos, list[i]));
    }
}

/// A step at `pos` lists only threads ordered at the next position, and
/// its match is ordered.
pub proof fn lemma_advance_ordered<F>(
    insts: Seq<Inst<F>>,
    input_len: usize,
    pos: int,
    clist: Seq<ThreadView>,
    k: int,
    st: (Seq<ThreadView>, Seq<bool>),
    hit: spec_fn(Test<F>, int) -> bool,
)
    requires
        valid_program(insts),
        insts.len() <= usize::MAX,
        framed(insts),
        sealed(insts),
        st.1.len() == insts.len(),
        0 <= pos <= input_len,
        forall|test: Test<F>, p: int| #[trigger] hit(test, p) ==> 0 <= p < input_len,
        all_ordered(insts, pos, clist),
        all_ordered(insts, pos + 1, st.0),
        0 <= k,
    ensures
        all_ordered(insts, pos + 1, advance_by(insts, input_len, pos, clist, k, st, hit).0),
        match_ordered(advance_by(insts, input_len, pos, clist, k, st, hit).1, pos),
    decreases clist.len() - k,
{
    if k < clist.len() {
        let t = clist[k];
        assert(ordered(insts, pos, t));
        match insts[t.pc as int] {
            Inst::Match => {
                assert(!stays_within(insts[t.pc as int], 0, 3));
                assert(t.pc > insts.len() - 5);
            },
            Inst::Check(test) => {
                if hit(test, pos) {
                    let t2 = at(t, (t.pc + 1) as usize);
                    let later = (pos + 1) as usize;
                    assert(ordered(insts, pos + 1, t));
                    lemma_move_ordered(insts, later, t, t2);
                    assert(inst_valid(insts[t.pc as int], t.pc as int, insts.len() as int));
                    lemma_follow_ordered(insts, input_len, later, st, t2);
                    lemma_advance_ordered(
                        insts,
                        input_len,
                        pos,
                        clist,
                        k + 1,
                        follow(insts, input_len, later, st, t2),
                        hit,
                    );
                } else {
                    lemma_advance_ordered(insts, input_len, pos, clist, k + 1, st, hit);
                }
            },
            _ => {
                lemma_advance_ordered(insts, input_len, pos, clist, k + 1, st, hit);
            },
        }
    }
}

/// The match of a run is ordered and lies in the input.
pub proof fn lemma_run_ordered<F>(
    insts: Seq<Inst<F>>,
    input_len: usize,
    pos: int,
    clist: Seq<ThreadView>,
    best: Option<ThreadView>,
    hit: spec_fn(Test<F>, int) -> bool,
)
    requires
        valid_program(insts),
        insts.len() <= usize::MAX,
        framed(insts),
        sealed(insts),
        0 <= pos <= input_len,
        forall|test: Test<F>, p: int| #[trigger] hit(test, p) ==> 0 <= p < input_len,
        all_ordered(insts, pos, clist),
        match_ordered(best, input_len as int),
    ensures
        match_ordered(run_by(insts, input_len, pos, clist, best, hit), input_len as int),
    decreases input_len - pos,
{
    let fresh = (Seq::<ThreadView>::empty(), no_marks(insts.len()));
    lemma_advance_ordered(insts, input_len, pos, clist, 0, fresh, hit);
    let (nlist, found) = advance_by(insts, input_len, pos, clist, 0, fresh, hit);
    let best = if found is Some {
        found
    } else {
        best
    };
    if pos < input_len {
        lemma_run_ordered(insts, input_len, pos + 1, nlist, best, hit);
    }
}

/// The winning thread has recorded positions of the input only, and the
/// whole match ends no earlier than it starts.
pub proof fn lemma_winner_ordered<I, F: Fn(&I) -> bool>(insts: Seq<Inst<F>>, input: Seq<I>)
    requires
        valid_program(insts),
        insts.len() <= usize::MAX,
        framed(insts),
        sealed(insts),
        input.len() <= usize::MAX,
    ensures
        match_ordered(winner(insts, input), input.len() as int),
{
    let fresh = (Seq::<ThreadView>::empty(), no_marks(insts.len()));
    let len = input.len() as usize;
    lemma_follow_ordered(insts, len, 0, fresh, initial_thread());
    lemma_run_ordered(
        insts,
        len,
        0,
        follow(insts, len, 0, fresh, initial_thread()).0,
        None,
        hits(input),
    );
}

} // verus!
