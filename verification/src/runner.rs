//! The machine that runs a compiled program over an input: a list of threads
//! in priority order, advanced together one symbol at a time.

use crate::inst::{GroupIndex, Inst, PC};
use crate::predicate::Test;
use vstd::prelude::*;

verus! {

/// One candidate path through the program: where it stands, the input
/// positions it has recorded, slot `2 * group` for a group's start and slot
/// `2 * group + 1` for its end, and the names it has associated with groups.
pub struct Thread {
    pub pc: PC,
    pub saved: Vec<Option<usize>>,
    pub named: Vec<(String, GroupIndex)>,
}

/// The mathematical value of a thread.
pub struct ThreadView {
    pub pc: PC,
    pub saved: Seq<Option<usize>>,
    pub named: Seq<(String, GroupIndex)>,
}

impl View for Thread {
    type V = ThreadView;

    open spec fn view(&self) -> ThreadView {
        ThreadView { pc: self.pc, saved: self.saved@, named: self.named@ }
    }
}

/// The values of a list of threads, in order.
pub open spec fn views(list: Seq<Thread>) -> Seq<ThreadView> {
    list.map_values(|t: Thread| t@)
}

/// The instruction at `pc` can be executed in a program of `len` instructions:
/// its targets and, unless it jumps or accepts, its successor lie in the
/// program, and its capture slots are machine integers.
pub open spec fn inst_valid<F>(inst: Inst<F>, pc: int, len: int) -> bool {
    match inst {
        Inst::Split(x, y) => x < len && y < len,
        Inst::Jmp(x) => x < len,
        Inst::Match => true,
        Inst::SaveOpen(i) => pc + 1 < len && 2 * i + 1 <= usize::MAX,
        Inst::SaveClose(i) => pc + 1 < len && 2 * i + 1 <= usize::MAX,
        Inst::SaveNamedOpen(_, i) => pc + 1 < len && 2 * i + 1 <= usize::MAX,
        Inst::SaveNamedClose(_, i) => pc + 1 < len && 2 * i + 1 <= usize::MAX,
        _ => pc + 1 < len,
    }
}

/// Every instruction of the program can be executed, and the program is not empty.
pub open spec fn valid_program<F>(insts: Seq<Inst<F>>) -> bool {
    &&& insts.len() >= 1
    &&& forall|pc: int| 0 <= pc < insts.len() ==> inst_valid(#[trigger] insts[pc], pc, insts.len() as int)
}

/// Every test in the program is pure.
pub open spec fn pure_program<I, F: Fn(&I) -> bool>(insts: Seq<Inst<F>>) -> bool {
    forall|pc: int|
        0 <= pc < insts.len() ==> (#[trigger] insts[pc] matches Inst::Check(t) ==> t.is_pure::<I>())
}

/// The slots after recording `pos` in `slot`; slots in between are left empty.
pub open spec fn stored(saved: Seq<Option<usize>>, slot: int, pos: usize) -> Seq<Option<usize>> {
    if slot < saved.len() {
        saved.update(slot, Some(pos))
    } else {
        (saved + Seq::new((slot - saved.len()) as nat, |i: int| None::<usize>)).push(Some(pos))
    }
}

/// Whether some name is already associated with the group.
pub open spec fn names_group(named: Seq<(String, GroupIndex)>, group: GroupIndex) -> bool {
    exists|i: int| 0 <= i < named.len() && (#[trigger] named[i]).1 == group
}

/// The name table after associating `name` with `group`, once.
pub open spec fn with_name(
    named: Seq<(String, GroupIndex)>,
    name: String,
    group: GroupIndex,
) -> Seq<(String, GroupIndex)> {
    if names_group(named, group) {
        named
    } else {
        named.push((name, group))
    }
}

/// How many program counters have not been visited at this position.
pub open spec fn unvisited(visited: Seq<bool>) -> nat
    decreases visited.len(),
{
    if visited.len() == 0 {
        0
    } else {
        unvisited(visited.drop_last()) + if visited.last() {
            0nat
        } else {
            1nat
        }
    }
}

pub proof fn lemma_unvisited_mark(visited: Seq<bool>, pc: int)
    requires
        0 <= pc < visited.len(),
        !visited[pc],
    ensures
        unvisited(visited.update(pc, true)) < unvisited(visited),
    decreases visited.len(),
{
    let after = visited.update(pc, true);
    if pc == visited.len() - 1 {
        assert(after.drop_last() =~= visited.drop_last());
    } else {
        assert(after.drop_last() =~= visited.drop_last().update(pc, true));
        lemma_unvisited_mark(visited.drop_last(), pc);
    }
}

/// The thread `t` moved to `pc`.
pub open spec fn at(t: ThreadView, pc: PC) -> ThreadView {
    ThreadView { pc, saved: t.saved, named: t.named }
}

/// Adds to the list the threads that `t` leads to at input position `pos`
/// without consuming a symbol. Zero-width instructions are executed at once;
/// a thread is listed when it stands at a test or at the accepting
/// instruction. A program counter that was reached before at this position
/// is not entered again, so the thread of higher priority keeps it. The first
/// target of a fork is followed to its end before the second.
pub open spec fn follow<F>(
    insts: Seq<Inst<F>>,
    input_len: usize,
    pos: usize,
    st: (Seq<ThreadView>, Seq<bool>),
    t: ThreadView,
) -> (Seq<ThreadView>, Seq<bool>)
    decreases unvisited(st.1),
{
    if t.pc >= st.1.len() || t.pc >= insts.len() || st.1[t.pc as int] {
        st
    } else {
        let marked = (st.0, st.1.update(t.pc as int, true));
        proof {
            lemma_unvisited_mark(st.1, t.pc as int);
        }
        match insts[t.pc as int] {
            Inst::Jmp(x) => follow(insts, input_len, pos, marked, at(t, x)),
            Inst::Split(x, y) => {
                let first = follow(insts, input_len, pos, marked, at(t, x));
                if unvisited(first.1) <= unvisited(marked.1) {
                    follow(insts, input_len, pos, first, at(t, y))
                } else {
                    first
                }
            },
            Inst::Begin => if pos == 0 {
                follow(insts, input_len, pos, marked, at(t, (t.pc + 1) as usize))
            } else {
                marked
            },
            Inst::End => if pos == input_len {
                follow(insts, input_len, pos, marked, at(t, (t.pc + 1) as usize))
            } else {
                marked
            },
            Inst::SaveOpen(i) => follow(
                insts,
                input_len,
                pos,
                marked,
                ThreadView {
                    pc: (t.pc + 1) as usize,
                    saved: stored(t.saved, 2 * i, pos),
                    named: t.named,
                },
            ),
            Inst::SaveClose(i) => follow(
                insts,
                input_len,
                pos,
                marked,
                ThreadView {
                    pc: (t.pc + 1) as usize,
                    saved: stored(t.saved, 2 * i + 1, pos),
                    named: t.named,
                },
            ),
            Inst::SaveNamedOpen(name, i) => follow(
                insts,
                input_len,
                pos,
                marked,
                ThreadView {
                    pc: (t.pc + 1) as usize,
                    saved: stored(t.saved, 2 * i, pos),
                    named: with_name(t.named, name, i),
                },
            ),
            Inst::SaveNamedClose(name, i) => follow(
                insts,
                input_len,
                pos,
                marked,
                ThreadView {
                    pc: (t.pc + 1) as usize,
                    saved: stored(t.saved, 2 * i + 1, pos),
                    named: t.named,
                },
            ),
            Inst::Check(_) => (marked.0.push(t), marked.1),
            Inst::Match => (marked.0.push(t), marked.1),
        }
    }
}

/// Following a thread never unmarks a program counter.
pub proof fn lemma_follow_marks<F>(
    insts: Seq<Inst<F>>,
    input_len: usize,
    pos: usize,
    st: (Seq<ThreadView>, Seq<bool>),
    t: ThreadView,
)
    ensures
        follow(insts, input_len, pos, st, t).1.len() == st.1.len(),
        unvisited(follow(insts, input_len, pos, st, t).1) <= unvisited(st.1),
    decreases unvisited(st.1),
{
    if t.pc >= st.1.len() || t.pc >= insts.len() || st.1[t.pc as int] {
    } else {
        let marked = (st.0, st.1.update(t.pc as int, true));
        lemma_unvisited_mark(st.1, t.pc as int);
        match insts[t.pc as int] {
            Inst::Jmp(x) => {
                lemma_follow_marks(insts, input_len, pos, marked, at(t, x));
            },
            Inst::Split(x, y) => {
                let first = follow(insts, input_len, pos, marked, at(t, x));
                lemma_follow_marks(insts, input_len, pos, marked, at(t, x));
                lemma_follow_marks(insts, input_len, pos, first, at(t, y));
            },
            Inst::Begin => {
                if pos == 0 {
                    lemma_follow_marks(insts, input_len, pos, marked, at(t, (t.pc + 1) as usize));
                }
            },
            Inst::End => {
                if pos == input_len {
                    lemma_follow_marks(insts, input_len, pos, marked, at(t, (t.pc + 1) as usize));
                }
            },
            Inst::SaveOpen(i) => {
                lemma_follow_marks(
                    insts,
                    input_len,
                    pos,
                    marked,
                    ThreadView {
                        pc: (t.pc + 1) as usize,
                        saved: stored(t.saved, 2 * i, pos),
                        named: t.named,
                    },
                );
            },
            Inst::SaveClose(i) => {
                lemma_follow_marks(
                    insts,
                    input_len,
                    pos,
                    marked,
                    ThreadView {
                        pc: (t.pc + 1) as usize,
                        saved: stored(t.saved, 2 * i + 1, pos),
                        named: t.named,
                    },
                );
            },
            Inst::SaveNamedOpen(name, i) => {
                lemma_follow_marks(
                    insts,
                    input_len,
                    pos,
                    marked,
                    ThreadView {
                        pc: (t.pc + 1) as usize,
                        saved: stored(t.saved, 2 * i, pos),
                        named: with_name(t.named, name, i),
                    },
                );
            },
            Inst::SaveNamedClose(name, i) => {
                lemma_follow_marks(
                    insts,
                    input_len,
                    pos,
                    marked,
                    ThreadView {
                        pc: (t.pc + 1) as usize,
                        saved: stored(t.saved, 2 * i + 1, pos),
                        named: t.named,
                    },
                );
            },
            _ => {},
        }
    }
}

/// Records `pos` in `slot`.
pub fn store(saved: Vec<Option<usize>>, slot: usize, pos: usize) -> (out: Vec<Option<usize>>)
    ensures
        out@ == stored(saved@, slot as int, pos),
{
    let mut out = saved;
    if slot < out.len() {
        out.set(slot, Some(pos));
    } else {
        let ghost before = out@;
        while out.len() < slot
            invariant
                before.len() <= out.len() <= slot,
                out@ == before + Seq::new((out.len() - before.len()) as nat, |i: int| None::<usize>),
            decreases slot - out.len(),
        {
            out.push(None);
            assert(out@ =~= before + Seq::new(
                (out.len() - before.len()) as nat,
                |i: int| None::<usize>,
            ));
        }
        out.push(Some(pos));
    }
    out
}

/// Associates `name` with `group` unless the group has a name already.
pub fn add_name(named: Vec<(String, GroupIndex)>, name: &String, group: GroupIndex) -> (out: Vec<
    (String, GroupIndex),
>)
    ensures
        out@ == with_name(named@, *name, group),
{
    let mut out = named;
    let mut k: usize = 0;
    while k < out.len()
        invariant
            k <= out.len(),
            out@ == named@,
            forall|i: int| 0 <= i < k ==> (#[trigger] out@[i]).1 != group,
        decreases out.len() - k,
    {
        if out[k].1 == group {
            return out;
        }
        k += 1;
    }
    out.push((name.clone(), group));
    out
}

impl Thread {
    /// The thread that starts a run: at the first instruction, nothing recorded.
    pub fn start() -> (t: Thread)
        ensures
            t@ == initial_thread(),
    {
        Thread { pc: 0, saved: Vec::new(), named: Vec::new() }
    }

    /// A thread of its own with the same position and a private copy of the
    /// recorded slots and names.
    pub fn fork(&self) -> (t: Thread)
        ensures
            t@ == self@,
    {
        let mut saved: Vec<Option<usize>> = Vec::new();
        let mut k: usize = 0;
        while k < self.saved.len()
            invariant
                k <= self.saved.len(),
                saved@ == self.saved@.take(k as int),
            decreases self.saved.len() - k,
        {
            saved.push(self.saved[k]);
            k += 1;
            assert(saved@ =~= self.saved@.take(k as int));
        }
        assert(self.saved@.take(k as int) =~= self.saved@);
        let mut named: Vec<(String, GroupIndex)> = Vec::new();
        let mut j: usize = 0;
        while j < self.named.len()
            invariant
                j <= self.named.len(),
                named@ == self.named@.take(j as int),
            decreases self.named.len() - j,
        {
            named.push((self.named[j].0.clone(), self.named[j].1));
            j += 1;
            assert(named@ =~= self.named@.take(j as int));
        }
        assert(self.named@.take(j as int) =~= self.named@);
        Thread { pc: self.pc, saved, named }
    }
}

/// The value of the thread that starts a run.
pub open spec fn initial_thread() -> ThreadView {
    ThreadView { pc: 0, saved: Seq::empty(), named: Seq::empty() }
}

/// A slot holds a position.
pub open spec fn has_slot(saved: Seq<Option<usize>>, slot: int) -> bool {
    0 <= slot < saved.len() && saved[slot] is Some
}

/// The targets of a fork or jump lie between `lo` and `hi`, and the
/// instruction does not accept.
pub open spec fn stays_within<F>(inst: Inst<F>, lo: int, hi: int) -> bool {
    match inst {
        Inst::Split(x, y) => lo <= x <= hi && lo <= y <= hi,
        Inst::Jmp(x) => lo <= x <= hi,
        Inst::Match => false,
        _ => true,
    }
}

/// The shape of a program for searching: a three-instruction prefix that may
/// skip symbols, the start marker of the whole-match group, a body that is
/// left only through the end marker of that group, and a five-instruction
/// tail. No path reaches the body but through the start marker, and none
/// reaches the tail but through the end marker.
pub open spec fn framed<F>(insts: Seq<Inst<F>>) -> bool {
    &&& insts.len() >= 9
    &&& insts[3] == Inst::<F>::SaveOpen(0)
    &&& insts[insts.len() - 5] == Inst::<F>::SaveClose(0)
    &&& forall|pc: int| 0 <= pc < 3 ==> stays_within(#[trigger] insts[pc], 0, 3)
    &&& forall|pc: int|
        3 < pc < insts.len() - 5 ==> stays_within(#[trigger] insts[pc], 4, insts.len() - 5)
}

/// In a framed program, a thread past the start marker has recorded the
/// start of the whole match, and one past the end marker its end as well.
pub open spec fn kept<F>(insts: Seq<Inst<F>>, t: ThreadView) -> bool {
    &&& t.pc > 3 ==> has_slot(t.saved, 0)
    &&& t.pc > insts.len() - 5 ==> has_slot(t.saved, 1)
}

/// Every listed thread stands inside the program, and in a framed program
/// has recorded what its position demands.
pub open spec fn listed<F>(insts: Seq<Inst<F>>, list: Seq<ThreadView>) -> bool {
    forall|i: int|
        0 <= i < list.len() ==> (#[trigger] list[i]).pc < insts.len() && (framed(insts) ==> kept(
            insts,
            list[i],
        ))
}

/// Adds to `list` the threads that `t` leads to at position `pos` without
/// consuming a symbol, in priority order, skipping program counters already
/// marked in `visited`.
pub fn add_thread<F>(
    insts: &[Inst<F>],
    input_len: usize,
    pos: usize,
    list: &mut Vec<Thread>,
    visited: &mut Vec<bool>,
    t: Thread,
)
    requires
        valid_program(insts@),
        old(visited)@.len() == insts@.len(),
        t.pc < insts@.len(),
        listed(insts@, views(old(list)@)),
        framed(insts@) ==> kept(insts@, t@),
    ensures
        listed(insts@, views(final(list)@)),
        (views(final(list)@), final(visited)@) == follow(
            insts@,
            input_len,
            pos,
            (views(old(list)@), old(visited)@),
            t@,
        ),
        final(visited)@.len() == old(visited)@.len(),
        unvisited(final(visited)@) <= unvisited(old(visited)@),
    decreases unvisited(old(visited)@),
{
    let ghost st = (views(list@), visited@);
    proof {
        lemma_follow_marks(insts@, input_len, pos, st, t@);
    }
    if visited[t.pc] {
        return ;
    }
    let pc = t.pc;
    visited.set(pc, true);
    let ghost marked = (st.0, visited@);
    proof {
        lemma_unvisited_mark(st.1, pc as int);
        assert(inst_valid(insts@[pc as int], pc as int, insts@.len() as int));
    }
    match &insts[pc] {
        Inst::Jmp(x) => {
            let next = Thread { pc: *x, saved: t.saved, named: t.named };
            add_thread(insts, input_len, pos, list, visited, next);
        },
        Inst::Split(x, y) => {
            let mut first = t.fork();
            first.pc = *x;
            let second = Thread { pc: *y, saved: t.saved, named: t.named };
            add_thread(insts, input_len, pos, list, visited, first);
            add_thread(insts, input_len, pos, list, visited, second);
        },
        Inst::Begin => {
            if pos == 0 {
                let next = Thread { pc: pc + 1, saved: t.saved, named: t.named };
                add_thread(insts, input_len, pos, list, visited, next);
            }
        },
        Inst::End => {
            if pos == input_len {
                let next = Thread { pc: pc + 1, saved: t.saved, named: t.named };
                add_thread(insts, input_len, pos, list, visited, next);
            }
        },
        Inst::SaveOpen(i) => {
            let next = Thread { pc: pc + 1, saved: store(t.saved, 2 * *i, pos), named: t.named };
            add_thread(insts, input_len, pos, list, visited, next);
        },
        Inst::SaveClose(i) => {
            let next = Thread {
                pc: pc + 1,
                saved: store(t.saved, 2 * *i + 1, pos),
                named: t.named,
            };
            add_thread(insts, input_len, pos, list, visited, next);
        },
        Inst::SaveNamedOpen(name, i) => {
            let next = Thread {
                pc: pc + 1,
                saved: store(t.saved, 2 * *i, pos),
                named: add_name(t.named, name, *i),
            };
            add_thread(insts, input_len, pos, list, visited, next);
        },
        Inst::SaveNamedClose(name, i) => {
            let next = Thread {
                pc: pc + 1,
                saved: store(t.saved, 2 * *i + 1, pos),
                named: t.named,
            };
            add_thread(insts, input_len, pos, list, visited, next);
        },
        Inst::Check(_) => {
            let ghost before = list@;
            list.push(t);
            assert(views(list@) =~= views(before).push(t@));
        },
        Inst::Match => {
            let ghost before = list@;
            list.push(t);
            assert(views(list@) =~= views(before).push(t@));
        },
    }
}

/// No program counter visited yet.
pub open spec fn no_marks(n: nat) -> Seq<bool> {
    Seq::new(n, |i: int| false)
}

/// Which tests accept the symbol at which position of the input; none does
/// beyond its end.
pub open spec fn hits<I, F: Fn(&I) -> bool>(input: Seq<I>) -> spec_fn(Test<F>, int) -> bool {
    |test: Test<F>, pos: int| 0 <= pos < input.len() && test.holds(&input[pos])
}

/// One step at input position `pos`, from the thread of index `k` on, in
/// priority order. A thread at a test that accepts the symbol at `pos` moves
/// on to the next position; one whose test rejects it, or that finds no
/// symbol, ends. The first thread at the accepting instruction is the step's
/// match, and the threads behind it are dropped.
pub open spec fn advance_by<F>(
    insts: Seq<Inst<F>>,
    input_len: usize,
    pos: int,
    clist: Seq<ThreadView>,
    k: int,
    st: (Seq<ThreadView>, Seq<bool>),
    hit: spec_fn(Test<F>, int) -> bool,
) -> (Seq<ThreadView>, Option<ThreadView>)
    decreases clist.len() - k,
{
    if k < 0 || k >= clist.len() {
        (st.0, None)
    } else {
        let t = clist[k];
        if t.pc >= insts.len() {
            advance_by(insts, input_len, pos, clist, k + 1, st, hit)
        } else {
            match insts[t.pc as int] {
                Inst::Match => (st.0, Some(t)),
                Inst::Check(test) => if hit(test, pos) {
                    advance_by(
                        insts,
                        input_len,
                        pos,
                        clist,
                        k + 1,
                        follow(insts, input_len, (pos + 1) as usize, st, at(t, (t.pc + 1) as usize)),
                        hit,
                    )
                } else {
                    advance_by(insts, input_len, pos, clist, k + 1, st, hit)
                },
                _ => advance_by(insts, input_len, pos, clist, k + 1, st, hit),
            }
        }
    }
}

/// One step over `input` at position `pos`, from the thread of index `k` on.
pub open spec fn advance<I, F: Fn(&I) -> bool>(
    insts: Seq<Inst<F>>,
    input: Seq<I>,
    pos: int,
    clist: Seq<ThreadView>,
    k: int,
    st: (Seq<ThreadView>, Seq<bool>),
) -> (Seq<ThreadView>, Option<ThreadView>) {
    advance_by(insts, input.len() as usize, pos, clist, k, st, hits(input))
}

/// The run from position `pos` on with the threads `clist`: the match of the
/// last step that has one, or `best` where no later step has one. A later
/// match comes from a thread of higher priority than every earlier one,
/// because a step drops the threads behind its match.
pub open spec fn run_by<F>(
    insts: Seq<Inst<F>>,
    input_len: usize,
    pos: int,
    clist: Seq<ThreadView>,
    best: Option<ThreadView>,
    hit: spec_fn(Test<F>, int) -> bool,
) -> Option<ThreadView>
    decreases input_len - pos,
{
    let (nlist, found) = advance_by(
        insts,
        input_len,
        pos,
        clist,
        0,
        (Seq::empty(), no_marks(insts.len())),
        hit,
    );
    let best = if found is Some {
        found
    } else {
        best
    };
    if pos >= input_len {
        best
    } else {
        run_by(insts, input_len, pos + 1, nlist, best, hit)
    }
}

/// The run over `input` from position `pos` on with the threads `clist`.
pub open spec fn run_from<I, F: Fn(&I) -> bool>(
    insts: Seq<Inst<F>>,
    input: Seq<I>,
    pos: int,
    clist: Seq<ThreadView>,
    best: Option<ThreadView>,
) -> Option<ThreadView> {
    run_by(insts, input.len() as usize, pos, clist, best, hits(input))
}

/// The thread of highest priority that reaches the accepting instruction
/// when the program runs over the input, if any does.
pub open spec fn winner<I, F: Fn(&I) -> bool>(insts: Seq<Inst<F>>, input: Seq<I>) -> Option<
    ThreadView,
> {
    run_from(
        insts,
        input,
        0,
        follow(
            insts,
            input.len() as usize,
            0,
            (Seq::empty(), no_marks(insts.len())),
            initial_thread(),
        ).0,
        None,
    )
}

/// The value of an optional thread.
pub open spec fn opt_view(t: Option<Thread>) -> Option<ThreadView> {
    match t {
        Some(t) => Some(t@),
        None => None,
    }
}

/// A fresh table of marks, one per instruction.
pub fn fresh_marks(n: usize) -> (visited: Vec<bool>)
    ensures
        visited@ == no_marks(n as nat),
{
    let mut visited: Vec<bool> = Vec::new();
    while visited.len() < n
        invariant
            visited.len() <= n,
            visited@ == no_marks(visited.len() as nat),
        decreases n - visited.len(),
    {
        visited.push(false);
        assert(visited@ =~= no_marks(visited.len() as nat));
    }
    visited
}

/// Runs one step at position `pos`: the threads for the next position, and
/// the step's match if it has one.
pub fn step<I, F: Fn(&I) -> bool>(insts: &[Inst<F>], input: &[I], pos: usize, clist: &Vec<Thread>) -> (out: (
    Vec<Thread>,
    Option<Thread>,
))
    requires
        valid_program(insts@),
        pure_program::<I, F>(insts@),
        pos <= input@.len(),
        listed(insts@, views(clist@)),
    ensures
        (views(out.0@), opt_view(out.1)) == advance(
            insts@,
            input@,
            pos as int,
            views(clist@),
            0,
            (Seq::empty(), no_marks(insts@.len())),
        ),
        listed(insts@, views(out.0@)),
        out.1 matches Some(t) ==> (framed(insts@) ==> has_slot(t@.saved, 0) && has_slot(
            t@.saved,
            1,
        )),
{
    let mut nlist: Vec<Thread> = Vec::new();
    let mut visited = fresh_marks(insts.len());
    let ghost goal = advance(
        insts@,
        input@,
        pos as int,
        views(clist@),
        0,
        (Seq::empty(), no_marks(insts@.len())),
    );
    assert(views(nlist@) =~= Seq::empty());
    let mut k: usize = 0;
    while k < clist.len()
        invariant
            k <= clist.len(),
            valid_program(insts@),
            pure_program::<I, F>(insts@),
            pos <= input@.len(),
            listed(insts@, views(clist@)),
            listed(insts@, views(nlist@)),
            visited@.len() == insts@.len(),
            goal == advance(
                insts@,
                input@,
                pos as int,
                views(clist@),
                0,
                (Seq::empty(), no_marks(insts@.len())),
            ),
            goal == advance(
                insts@,
                input@,
                pos as int,
                views(clist@),
                k as int,
                (views(nlist@), visited@),
            ),
        decreases clist.len() - k,
    {
        let t = &clist[k];
        proof {
            assert(views(clist@)[k as int] == t@);
            assert(inst_valid(insts@[t.pc as int], t.pc as int, insts@.len() as int));
        }
        match &insts[t.pc] {
            Inst::Match => {
                let found = t.fork();
                assert(goal == (views(nlist@), Some(t@)));
                proof {
                    if framed(insts@) {
                        assert(kept(insts@, t@));
                        assert(!stays_within(insts@[t.pc as int], 0, 3));
                    }
                }
                return (nlist, Some(found));
            },
            Inst::Check(test) => {
                if pos < input.len() && test.check(&input[pos]) {
                    let mut next = t.fork();
                    next.pc = t.pc + 1;
                    add_thread(insts, input.len(), pos + 1, &mut nlist, &mut visited, next);
                }
            },
            _ => {},
        }
        k += 1;
    }
    (nlist, None)
}

/// Runs the program over the input and returns the thread of highest
/// priority that reaches the accepting instruction, with the positions and
/// names it recorded.
pub fn run_vm<I, F: Fn(&I) -> bool>(insts: &[Inst<F>], input: &[I]) -> (res: Option<Thread>)
    requires
        valid_program(insts@),
        pure_program::<I, F>(insts@),
    ensures
        opt_view(res) == winner(insts@, input@),
        res matches Some(t) ==> (framed(insts@) ==> has_slot(t@.saved, 0) && has_slot(t@.saved, 1)),
{
    let mut clist: Vec<Thread> = Vec::new();
    let mut visited = fresh_marks(insts.len());
    assert(views(clist@) =~= Seq::empty());
    add_thread(insts, input.len(), 0, &mut clist, &mut visited, Thread::start());
    let mut best: Option<Thread> = None;
    let mut pos: usize = 0;
    loop
        invariant
            pos <= input@.len(),
            valid_program(insts@),
            pure_program::<I, F>(insts@),
            listed(insts@, views(clist@)),
            best matches Some(t) ==> (framed(insts@) ==> has_slot(t@.saved, 0) && has_slot(
                t@.saved,
                1,
            )),
            winner(insts@, input@) == run_from(
                insts@,
                input@,
                pos as int,
                views(clist@),
                opt_view(best),
            ),
        decreases input@.len() - pos,
    {
        let (nlist, found) = step(insts, input, pos, &clist);
        if found.is_some() {
            best = found;
        }
        if pos >= input.len() {
            return best;
        }
        clist = nlist;
        pos += 1;
    }
}

/// A matching thread of a framed program has recorded both ends of group 0.
pub open spec fn match_kept<F>(insts: Seq<Inst<F>>, found: Option<ThreadView>) -> bool {
    found matches Some(t) ==> (framed(insts) ==> has_slot(t.saved, 0) && has_slot(t.saved, 1))
}

/// Following a thread lists only threads inside the program that have
/// recorded what their position demands.
pub proof fn lemma_follow_listed<F>(
    insts: Seq<Inst<F>>,
    input_len: usize,
    pos: usize,
    st: (Seq<ThreadView>, Seq<bool>),
    t: ThreadView,
)
    requires
        valid_program(insts),
        st.1.len() == insts.len(),
        t.pc < insts.len(),
        listed(insts, st.0),
        framed(insts) ==> kept(insts, t),
    ensures
        listed(insts, follow(insts, input_len, pos, st, t).0),
        follow(insts, input_len, pos, st, t).1.len() == insts.len(),
    decreases unvisited(st.1),
{
    if !st.1[t.pc as int] {
        let marked = (st.0, st.1.update(t.pc as int, true));
        lemma_unvisited_mark(st.1, t.pc as int);
        assert(inst_valid(insts[t.pc as int], t.pc as int, insts.len() as int));
        let next = (t.pc + 1) as usize;
        match insts[t.pc as int] {
            Inst::Jmp(x) => {
                lemma_follow_listed(insts, input_len, pos, marked, at(t, x));
            },
            Inst::Split(x, y) => {
                let first = follow(insts, input_len, pos, marked, at(t, x));
                lemma_follow_listed(insts, input_len, pos, marked, at(t, x));
                lemma_follow_marks(insts, input_len, pos, marked, at(t, x));
                lemma_follow_listed(insts, input_len, pos, first, at(t, y));
            },
            Inst::Begin => {
                if pos == 0 {
                    lemma_follow_listed(insts, input_len, pos, marked, at(t, next));
                }
            },
            Inst::End => {
                if pos == input_len {
                    lemma_follow_listed(insts, input_len, pos, marked, at(t, next));
                }
            },
            Inst::SaveOpen(i) => {
                let moved = ThreadView {
                    pc: next,
                    saved: stored(t.saved, 2 * i, pos),
                    named: t.named,
                };
                lemma_follow_listed(insts, input_len, pos, marked, moved);
            },
            Inst::SaveClose(i) => {
                let moved = ThreadView {
                    pc: next,
                    saved: stored(t.saved, 2 * i + 1, pos),
                    named: t.named,
                };
                lemma_follow_listed(insts, input_len, pos, marked, moved);
            },
            Inst::SaveNamedOpen(name, i) => {
                let moved = ThreadView {
                    pc: next,
                    saved: stored(t.saved, 2 * i, pos),
                    named: with_name(t.named, name, i),
                };
                lemma_follow_listed(insts, input_len, pos, marked, moved);
            },
            Inst::SaveNamedClose(name, i) => {
                let moved = ThreadView {
                    pc: next,
                    saved: stored(t.saved, 2 * i + 1, pos),
                    named: t.named,
                };
                lemma_follow_listed(insts, input_len, pos, marked, moved);
            },
            _ => {},
        }
    }
}

/// A step lists only such threads, and its match has recorded both ends of group 0.
pub proof fn lemma_advance_listed<F>(
    insts: Seq<Inst<F>>,
    input_len: usize,
    pos: int,
    clist: Seq<ThreadView>,
    k: int,
    st: (Seq<ThreadView>, Seq<bool>),
    hit: spec_fn(Test<F>, int) -> bool,
)
    requires
        valid_program(insts),
        st.1.len() == insts.len(),
        listed(insts, clist),
        listed(insts, st.0),
        0 <= k,
    ensures
        listed(insts, advance_by(insts, input_len, pos, clist, k, st, hit).0),
        match_kept(insts, advance_by(insts, input_len, pos, clist, k, st, hit).1),
    decreases clist.len() - k,
{
    if k < clist.len() {
        let t = clist[k];
        assert(inst_valid(insts[t.pc as int], t.pc as int, insts.len() as int));
        match insts[t.pc as int] {
            Inst::Match => {
                if framed(insts) {
                    assert(kept(insts, t));
                    assert(!stays_within(insts[t.pc as int], 0, 3));
                }
            },
            Inst::Check(test) => {
                if hit(test, pos) {
                    let moved = at(t, (t.pc + 1) as usize);
                    lemma_follow_listed(insts, input_len, (pos + 1) as usize, st, moved);
                    lemma_advance_listed(
                        insts,
                        input_len,
                        pos,
                        clist,
                        k + 1,
                        follow(insts, input_len, (pos + 1) as usize, st, moved),
                        hit,
                    );
                } else {
                    lemma_advance_listed(insts, input_len, pos, clist, k + 1, st, hit);
                }
            },
            _ => {
                lemma_advance_listed(insts, input_len, pos, clist, k + 1, st, hit);
            },
        }
    }
}

/// The match of a run has recorded both ends of group 0.
pub proof fn lemma_run_kept<F>(
    insts: Seq<Inst<F>>,
    input_len: usize,
    pos: int,
    clist: Seq<ThreadView>,
    best: Option<ThreadView>,
    hit: spec_fn(Test<F>, int) -> bool,
)
    requires
        valid_program(insts),
        listed(insts, clist),
        match_kept(insts, best),
    ensures
        match_kept(insts, run_by(insts, input_len, pos, clist, best, hit)),
    decreases input_len - pos,
{
    let fresh = (Seq::<ThreadView>::empty(), no_marks(insts.len()));
    lemma_advance_listed(insts, input_len, pos, clist, 0, fresh, hit);
    let (nlist, found) = advance_by(insts, input_len, pos, clist, 0, fresh, hit);
    let best = if found is Some {
        found
    } else {
        best
    };
    if pos < input_len {
        lemma_run_kept(insts, input_len, pos + 1, nlist, best, hit);
    }
}

/// In a framed program the winning thread has recorded both ends of group 0.
pub proof fn lemma_winner_kept<I, F: Fn(&I) -> bool>(insts: Seq<Inst<F>>, input: Seq<I>)
    requires
        valid_program(insts),
    ensures
        match_kept(insts, winner(insts, input)),
{
    let fresh = (Seq::<ThreadView>::empty(), no_marks(insts.len()));
    lemma_follow_listed(insts, input.len() as usize, 0, fresh, initial_thread());
    lemma_run_kept(
        insts,
        input.len() as usize,
        0,
        follow(insts, input.len() as usize, 0, fresh, initial_thread()).0,
        None,
        hits(input),
    );
}

/// An anchor passes only at its end of the input: a thread that reaches
/// `Begin` elsewhere than at position 0, or `End` elsewhere than at the end,
/// leads to no listed thread.
pub proof fn lemma_anchor_blocks<F>(
    insts: Seq<Inst<F>>,
    input_len: usize,
    pos: usize,
    st: (Seq<ThreadView>, Seq<bool>),
    t: ThreadView,
)
    requires
        t.pc < insts.len(),
        (insts[t.pc as int] == Inst::<F>::Begin && pos != 0) || (insts[t.pc as int]
            == Inst::<F>::End && pos != input_len),
    ensures
        follow(insts, input_len, pos, st, t).0 == st.0,
{
}

} // verus!
