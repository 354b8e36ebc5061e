//! Searching with a compiled regex: whether it matches, where, and what its
//! groups captured.

use crate::compiler::{
    all_tests, compilable, compile_regex_to_vm_insts, extent, layout, lemma_layout_placed,
    lemma_layout_tests, placed, program, pure_regex,
};
use crate::bounds::{lemma_winner_ordered, sealed, stays_above};
use crate::brackets::{
    lemma_layout_regioned, lemma_winner_balanced, opens, region, regioned,
};
use crate::inst::{GroupIndex, Inst};
use crate::predicate::Test;
use crate::regex::Regex;
use crate::runner::{
    framed, has_slot, inst_valid, lemma_winner_kept, pure_program, run_vm, stays_within,
    valid_program, winner, ThreadView,
};
use std::rc::Rc;
use vstd::prelude::*;

verus! {

/// Where the whole match lies in the input.
pub struct Match<'a, I> {
    pub input: &'a [I],
    pub start: usize,
    pub end: usize,
}

/// Where one group's capture lies in the input.
#[derive(Clone, Copy, Debug, PartialEq, Eq)]
pub struct CaptureLocation {
    pub start: usize,
    pub end: usize,
}

/// The captures of one match: a location per group, by group number, up to
/// the first group that took no part, and the names given to groups.
pub struct Captures<'a, I> {
    pub input: &'a [I],
    pub capture_locations: Vec<CaptureLocation>,
    pub named_capture_index: Vec<(String, GroupIndex)>,
}

/// The start of group `i` is recorded.
pub open spec fn has_open(saved: Seq<Option<usize>>, i: int) -> bool {
    has_slot(saved, 2 * i)
}

/// The end of group `i` is recorded.
pub open spec fn has_close(saved: Seq<Option<usize>>, i: int) -> bool {
    has_slot(saved, 2 * i + 1)
}

/// The number of leading groups, from group `i` on, whose start is recorded.
pub open spec fn leading(saved: Seq<Option<usize>>, i: int) -> int
    decreases saved.len() - i,
{
    if i >= 0 && 2 * i < saved.len() && has_open(saved, i) {
        1 + leading(saved, i + 1)
    } else {
        0
    }
}

/// Every leading group whose start is recorded has its end recorded too.
pub open spec fn balanced(saved: Seq<Option<usize>>) -> bool {
    forall|i: int| 0 <= i < leading(saved, 0) ==> #[trigger] has_close(saved, i)
}

/// The location that the slots hold for group `i`.
pub open spec fn span(saved: Seq<Option<usize>>, i: int) -> CaptureLocation {
    CaptureLocation { start: saved[2 * i]->0, end: saved[2 * i + 1]->0 }
}

/// The locations of the leading groups, by group number.
pub open spec fn spans(saved: Seq<Option<usize>>) -> Seq<CaptureLocation> {
    Seq::new(leading(saved, 0) as nat, |i: int| span(saved, i))
}

proof fn lemma_leading(saved: Seq<Option<usize>>, i: int, k: int)
    requires
        0 <= i <= k,
        forall|j: int| i <= j < k ==> #[trigger] has_open(saved, j),
    ensures
        leading(saved, i) == (k - i) + leading(saved, k),
        leading(saved, k) >= 0,
    decreases k - i,
{
    if i < k {
        lemma_leading(saved, i + 1, k);
    } else {
        lemma_leading_bounds(saved, k);
    }
}

pub proof fn lemma_leading_bounds(saved: Seq<Option<usize>>, i: int)
    ensures
        leading(saved, i) >= 0,
        i >= 0 ==> forall|j: int| i <= j < i + leading(saved, i) ==> #[trigger] has_open(saved, j),
    decreases saved.len() - i,
{
    if i >= 0 && 2 * i < saved.len() && has_open(saved, i) {
        lemma_leading_bounds(saved, i + 1);
    }
}

/// The locations of the leading groups, or nothing where one of them has a
/// start without an end.
pub fn collect_spans(saved: &Vec<Option<usize>>) -> (out: Option<Vec<CaptureLocation>>)
    ensures
        out is Some <==> balanced(saved@),
        out matches Some(v) ==> v@ == spans(saved@),
{
    let mut capture_locations: Vec<CaptureLocation> = Vec::new();
    let mut i: usize = 0;
    proof {
        lemma_leading_bounds(saved@, 0);
    }
    while i < saved.len() / 2
        invariant
            2 * i <= saved.len(),
            capture_locations@.len() == i,
            forall|j: int| 0 <= j < i ==> #[trigger] has_open(saved@, j),
            forall|j: int| 0 <= j < i ==> #[trigger] has_close(saved@, j),
            forall|j: int| 0 <= j < i ==> #[trigger] capture_locations@[j] == span(saved@, j),
        decreases saved.len() - i,
    {
        match saved[2 * i] {
            Some(start) => match saved[2 * i + 1] {
                Some(end) => {
                    capture_locations.push(CaptureLocation { start, end });
                    assert(has_open(saved@, i as int) && has_close(saved@, i as int));
                },
                None => {
                    proof {
                        assert(has_open(saved@, i as int));
                        lemma_leading(saved@, 0, i + 1);
                        assert(!has_close(saved@, i as int));
                    }
                    return None;
                },
            },
            None => {
                proof {
                    lemma_leading(saved@, 0, i as int);
                    assert(!has_open(saved@, i as int));
                    assert(capture_locations@ =~= spans(saved@));
                }
                return Some(capture_locations);
            },
        }
        i += 1;
    }
    proof {
        lemma_leading(saved@, 0, i as int);
        if 2 * i < saved@.len() && has_slot(saved@, 2 * i) {
            assert(saved@.len() == 2 * i + 1);
            assert(has_open(saved@, i as int));
            lemma_leading(saved@, 0, i + 1);
            assert(!has_close(saved@, i as int));
            assert(!balanced(saved@));
        } else {
            assert(!has_open(saved@, i as int));
            assert(capture_locations@ =~= spans(saved@));
        }
    }
    if 2 * i < saved.len() && saved[2 * i].is_some() {
        return None;
    }
    Some(capture_locations)
}

/// The regex wrapped for searching: any symbols, lazily; the regex as the
/// group of number 0; any symbols, lazily.
pub open spec fn wrapped<F>(reg: Regex<F>) -> Regex<F> {
    Regex::Concat(
        Rc::new(Regex::Repeat0(Rc::new(Regex::Satisfy(Test::Always)), false)),
        Rc::new(
            Regex::Concat(
                Rc::new(Regex::Group(Rc::new(reg))),
                Rc::new(Regex::Repeat0(Rc::new(Regex::Satisfy(Test::Always)), false)),
            ),
        ),
    )
}

/// The program of a compilable regex can be executed: every target lies in
/// it, and its one accepting instruction is the last.
pub proof fn lemma_program_valid<F>(reg: &Regex<F>)
    requires
        compilable(reg, 0, 0),
    ensures
        valid_program(program(reg)),
        program(reg).last() == Inst::<F>::Match,
        forall|pc: int| 0 <= pc < program(reg).len() - 1 ==> #[trigger] program(reg)[pc] != Inst::<F>::Match,
{
    lemma_layout_placed(reg, 0, 0);
    let body = layout(reg, 0, 0).0;
    let insts = program(reg);
    assert forall|pc: int| 0 <= pc < insts.len() - 1 implies #[trigger] insts[pc] != Inst::<F>::Match by {
        assert(insts[pc] == body[pc]);
        assert(placed(body[pc], 0, body.len() as int, 0, layout(reg, 0, 0).1));
    }
    assert forall|pc: int| 0 <= pc < insts.len() implies inst_valid(
        #[trigger] insts[pc],
        pc,
        insts.len() as int,
    ) by {
        if pc < body.len() {
            assert(insts[pc] == body[pc]);
            assert(placed(body[pc], 0, body.len() as int, 0, layout(reg, 0, 0).1));
        }
    }
}

/// The regex can be compiled for searching: its counted repetitions can be
/// rewritten, and the program counters and group numbers of the search
/// program fit the machine's integers.
pub open spec fn searchable<F>(reg: Regex<F>) -> bool {
    &&& layout(&reg, 4, 1).2
    &&& layout(&reg, 4, 1).0.len() + 8 <= usize::MAX
    &&& 2 * layout(&reg, 4, 1).1 <= usize::MAX
}

/// The search program of a regex: a lazy run of any symbols, the start
/// marker of group 0, the regex itself, the end marker of group 0, a lazy
/// run of any symbols, and the accepting instruction.
pub open spec fn search_program<F>(reg: Regex<F>) -> Seq<Inst<F>> {
    let body = layout(&reg, 4, 1).0;
    let close = body.len() + 4;
    seq![
        Inst::<F>::Split(3, 1),
        Inst::Check(Test::Always),
        Inst::Jmp(0),
        Inst::SaveOpen(0),
    ] + body + seq![
        Inst::<F>::SaveClose(0),
        Inst::Split((close + 4) as usize, (close + 2) as usize),
        Inst::Check(Test::Always),
        Inst::Jmp((close + 1) as usize),
        Inst::Match,
    ]
}

/// The program of the wrapped regex is the search program, and it can be
/// compiled where the regex is searchable.
pub proof fn lemma_search_program<F>(reg: Regex<F>)
    requires
        searchable(reg),
    ensures
        compilable(&wrapped(reg), 0, 0),
        program(&wrapped(reg)) == search_program(reg),
{
    let w = wrapped(reg);
    let any = Regex::Satisfy(Test::<F>::Always);
    let skip = Regex::Repeat0(Rc::new(any), false);
    let group = Regex::Group(Rc::new(reg));
    let rest = Regex::Concat(Rc::new(group), Rc::new(skip));
    assert(layout(&any, 1, 0) == (seq![Inst::<F>::Check(Test::Always)], 0int, true));
    let head = layout(&skip, 0, 0);
    assert(head.0 =~= seq![Inst::<F>::Split(3, 1), Inst::Check(Test::Always), Inst::Jmp(0)]);
    assert(head.1 == 0 && head.2);
    let body = layout(&reg, 4, 1);
    let grouped = layout(&group, 3, 0);
    assert(grouped.0 =~= seq![Inst::<F>::SaveOpen(0)] + body.0 + seq![Inst::<F>::SaveClose(0)]);
    assert(grouped.1 == body.1 && grouped.2);
    let close = body.0.len() + 4int;
    let tail_pc = close + 1;
    assert(tail_pc == grouped.0.len() + 3);
    assert(layout(&any, tail_pc + 1, body.1) == (
        seq![Inst::<F>::Check(Test::Always)],
        body.1,
        true,
    ));
    let tail = layout(&skip, tail_pc, body.1);
    assert(tail.0 =~= seq![
        Inst::<F>::Split((close + 4) as usize, (close + 2) as usize),
        Inst::Check(Test::Always),
        Inst::Jmp((close + 1) as usize),
    ]);
    assert(tail.1 == body.1 && tail.2);
    let rest_layout = layout(&rest, 3, 0);
    assert(rest_layout.0 =~= grouped.0 + tail.0);
    assert(rest_layout.1 == body.1 && rest_layout.2);
    let whole = layout(&w, 0, 0);
    assert(whole.0 =~= head.0 + (grouped.0 + tail.0));
    assert(whole.1 == body.1 && whole.2);
    assert(program(&w) =~= search_program(reg));
}

/// The search program can be executed, and no thread accepts in it without
/// having recorded both ends of group 0.
pub proof fn lemma_search_framed<F>(reg: Regex<F>)
    requires
        searchable(reg),
    ensures
        valid_program(search_program(reg)),
        framed(search_program(reg)),
{
    lemma_search_program(reg);
    lemma_program_valid(&wrapped(reg));
    let insts = search_program(reg);
    let body = layout(&reg, 4, 1);
    assert(compilable(&reg, 4, 1));
    lemma_layout_placed(&reg, 4, 1);
    assert forall|pc: int| 3 < pc < insts.len() - 5 implies stays_within(
        #[trigger] insts[pc],
        4,
        insts.len() - 5,
    ) by {
        assert(insts[pc] == body.0[pc - 4]);
        assert(placed(body.0[pc - 4], 4, body.0.len() + 4int, 1, body.1));
    }
}

/// In the search program every start marker of a group opens a stretch that
/// is left only through the group's end marker.
pub proof fn lemma_search_regioned<F>(reg: Regex<F>)
    requires
        searchable(reg),
    ensures
        regioned(search_program(reg), 0),
{
    lemma_search_program(reg);
    let s = search_program(reg);
    let body = layout(&reg, 4, 1);
    let close = body.0.len() + 4int;
    assert(compilable(&reg, 4, 1));
    lemma_layout_placed(&reg, 4, 1);
    lemma_layout_regioned(&reg, 4, 1);
    assert forall|k: int| 4 <= k < close implies s[k] == body.0[k - 4] by {}
    assert forall|o: int, j: int| 0 <= o < s.len() && #[trigger] opens(s[o], j) implies exists|
        c: int,
    | #[trigger] region(s, 0, j, o, c) by {
        if o == 3 {
            assert forall|k: int| 3 < k < close implies stays_within(#[trigger] s[k], 4, close) by {
                assert(s[k] == body.0[k - 4]);
                assert(placed(body.0[k - 4], 4, close, 1, body.1));
            }
            assert(region(s, 0, j, 3, close));
        } else if 4 <= o < close {
            assert(s[o] == body.0[o - 4]);
            assert(opens(body.0[o - 4], j));
            let c2 = choose|c: int| #[trigger] region(body.0, 4, j, o - 4, c);
            let c = c2 + 4;
            assert forall|k: int| o < k < c implies stays_within(#[trigger] s[k], o + 1, c) by {
                assert(s[k] == body.0[k - 4]);
            }
            assert(s[c] == body.0[c2]);
            assert(region(s, 0, j, o, c));
        }
    }
}

/// In the search program nothing behind the end marker of group 0 records
/// a position or leads back before it.
pub proof fn lemma_search_sealed<F>(reg: Regex<F>)
    requires
        searchable(reg),
    ensures
        sealed(search_program(reg)),
{
    let s = search_program(reg);
    let close = layout(&reg, 4, 1).0.len() + 4int;
    assert(s.len() == close + 5);
    assert(s[close + 1] == Inst::<F>::Split((close + 4) as usize, (close + 2) as usize));
    assert(s[close + 2] == Inst::<F>::Check(Test::Always));
    assert(s[close + 3] == Inst::<F>::Jmp((close + 1) as usize));
    assert(s[close + 4] == Inst::<F>::Match);
    assert forall|pc: int| s.len() - 5 < pc < s.len() implies stays_above(
        #[trigger] s[pc],
        s.len() - 4,
    ) by {
        assert(pc == close + 1 || pc == close + 2 || pc == close + 3 || pc == close + 4);
    }
}

/// A regex compiled for searching.
pub struct CompiledRegexInVm<F> {
    insts: Vec<Inst<F>>,
}

/// The span of the whole match that a thread recorded.
pub open spec fn whole_span(t: ThreadView) -> (usize, usize) {
    (t.saved[0]->0, t.saved[1]->0)
}

impl<F> CompiledRegexInVm<F> {
    /// The compiled program.
    pub closed spec fn insts(&self) -> Seq<Inst<F>> {
        self.insts@
    }

    /// The program can be executed, has the shape of a search, and brackets
    /// its groups.
    pub open spec fn wf(&self) -> bool {
        &&& valid_program(self.insts())
        &&& self.insts().len() <= usize::MAX
        &&& framed(self.insts())
        &&& sealed(self.insts())
        &&& regioned(self.insts(), 0)
    }

    /// Compiles the regex for searching: the program of the regex wrapped
    /// between two lazy runs of any symbols, as the group of number 0.
    pub fn compile(reg: Regex<F>) -> (c: Self)
        requires
            searchable(reg),
        ensures
            c.insts() == search_program(reg),
            c.insts() == program(&wrapped(reg)),
            c.wf(),
    {
        let full_match_regex = Regex::Concat(
            Rc::new(Regex::Repeat0(Rc::new(Regex::Satisfy(Test::any())), false)),
            Rc::new(
                Regex::Concat(
                    Rc::new(Regex::Group(Rc::new(reg))),
                    Rc::new(Regex::Repeat0(Rc::new(Regex::Satisfy(Test::any())), false)),
                ),
            ),
        );
        proof {
            lemma_search_program(reg);
            lemma_search_framed(reg);
            lemma_search_sealed(reg);
            lemma_search_regioned(reg);
        }
        let insts = compile_regex_to_vm_insts(&full_match_regex);
        assert(insts@.len() == insts.len());
        Self { insts }
    }

    /// Compiles the regex for searching where that can be done, and reports
    /// where it cannot: a counted repetition with bounds that allow no
    /// rewriting, or a program too large for the machine's integers.
    pub fn try_compile(reg: Regex<F>) -> (out: Option<Self>)
        ensures
            out is Some <==> searchable(reg),
            out matches Some(c) ==> c.insts() == search_program(reg) && c.wf(),
    {
        match extent(&reg, 4, 1) {
            Some((end_pc, _)) => {
                if end_pc <= usize::MAX - 5 {
                    Some(Self::compile(reg))
                } else {
                    None
                }
            },
            None => None,
        }
    }

    /// The instructions of the program, in order.
    pub fn instructions(&self) -> (insts: &Vec<Inst<F>>)
        ensures
            insts@ == self.insts(),
    {
        &self.insts
    }

    /// Whether the regex matches somewhere in the input.
    pub fn is_match<I>(&self, input: &[I]) -> (b: bool) where F: Fn(&I) -> bool
        requires
            self.wf(),
            pure_program::<I, F>(self.insts()),
        ensures
            b == is_match_of(self.insts(), input@),
    {
        run_vm(self.insts.as_slice(), input).is_some()
    }

    /// The leftmost match in the input, if there is one.
    pub fn find<'a, I>(&self, input: &'a [I]) -> (m: Option<Match<'a, I>>) where F: Fn(&I) -> bool
        requires
            self.wf(),
            pure_program::<I, F>(self.insts()),
        ensures
            m is Some <==> find_of(self.insts(), input@) is Some,
            m matches Some(found) ==> found.input@ == input@ && (found.start, found.end)
                == find_of(self.insts(), input@)->0,
            m matches Some(found) ==> found.start <= found.end <= input@.len(),
    {
        match run_vm(self.insts.as_slice(), input) {
            Some(matched_thread) => {
                proof {
                    assert(input@.len() == input.len());
                    lemma_winner_ordered(self.insts@, input@);
                }
                let saved = matched_thread.saved;
                let start = saved[0].unwrap();
                let end = saved[1].unwrap();
                Some(Match { input, start, end })
            },
            None => None,
        }
    }

    /// The captures of the leftmost match in the input, if there is one: a
    /// location per group up to the first group that took no part in the
    /// match, and the names of the groups on the way.
    pub fn captures<'a, I>(&self, input: &'a [I]) -> (c: Option<Captures<'a, I>>) where
        F: Fn(&I) -> bool,

        requires
            self.wf(),
            pure_program::<I, F>(self.insts()),
        ensures
            c is Some <==> captures_of(self.insts(), input@) is Some,
            c matches Some(found) ==> {
                let expected = captures_of(self.insts(), input@)->0;
                &&& found.input@ == input@
                &&& found.capture_locations@ == expected.0
                &&& found.named_capture_index@ == expected.1
                &&& found.capture_locations@.len() >= 1
                &&& found.capture_locations@[0].start <= found.capture_locations@[0].end
                &&& forall|i: int|
                    0 <= i < found.capture_locations@.len() ==> {
                        &&& (#[trigger] found.capture_locations@[i]).start <= input@.len()
                        &&& found.capture_locations@[i].end <= input@.len()
                    }
            },
    {
        match run_vm(self.insts.as_slice(), input) {
            Some(matched_thread) => {
                proof {
                    assert(input@.len() == input.len());
                    lemma_winner_balanced(self.insts@, input@);
                    lemma_winner_ordered(self.insts@, input@);
                    let saved = matched_thread@.saved;
                    assert(has_open(saved, 0));
                    lemma_leading_bounds(saved, 0);
                    lemma_leading_bounds(saved, 1);
                    assert forall|i: int| 0 <= i < leading(saved, 0) implies span(saved, i).start
                        <= input@.len() && span(saved, i).end <= input@.len() by {
                        assert(has_open(saved, i));
                        assert(has_close(saved, i));
                    }
                }
                let capture_locations = collect_spans(&matched_thread.saved).unwrap();
                Some(
                    Captures {
                        input,
                        capture_locations,
                        named_capture_index: matched_thread.named,
                    },
                )
            },
            None => None,
        }
    }
}

/// Whether the program reaches its accepting instruction on the input.
pub open spec fn is_match_of<I, F: Fn(&I) -> bool>(insts: Seq<Inst<F>>, input: Seq<I>) -> bool {
    winner(insts, input) is Some
}

/// The span of the whole match of the winning thread, if a thread wins.
pub open spec fn find_of<I, F: Fn(&I) -> bool>(insts: Seq<Inst<F>>, input: Seq<I>) -> Option<
    (usize, usize),
> {
    match winner(insts, input) {
        Some(t) => Some(whole_span(t)),
        None => None,
    }
}

/// The locations and names that the winning thread captured, if a thread wins.
pub open spec fn captures_of<I, F: Fn(&I) -> bool>(insts: Seq<Inst<F>>, input: Seq<I>) -> Option<
    (Seq<CaptureLocation>, Seq<(String, GroupIndex)>),
> {
    match winner(insts, input) {
        Some(t) => Some((spans(t.saved), t.named)),
        None => None,
    }
}

/// The three searches agree: a match is found exactly where the regex
/// matches and exactly where captures are reported; the captures are then
/// not empty, and their first location is the span of the match.
pub proof fn lemma_searches_agree<I, F: Fn(&I) -> bool>(insts: Seq<Inst<F>>, input: Seq<I>)
    requires
        valid_program(insts),
        framed(insts),
    ensures
        find_of(insts, input) is Some <==> is_match_of(insts, input),
        find_of(insts, input) is Some <==> captures_of(insts, input) is Some,
        find_of(insts, input) is Some ==> {
            let c = captures_of(insts, input)->0;
            &&& c.0.len() >= 1
            &&& (c.0[0].start, c.0[0].end) == find_of(insts, input)->0
        },
{
    lemma_winner_kept(insts, input);
    if let Some(t) = winner(insts, input) {
        assert(has_open(t.saved, 0));
        lemma_leading_bounds(t.saved, 1);
    }
}

/// A match lies in the input and ends no earlier than it starts.
pub proof fn lemma_match_in_input<I, F: Fn(&I) -> bool>(insts: Seq<Inst<F>>, input: Seq<I>)
    requires
        valid_program(insts),
        insts.len() <= usize::MAX,
        input.len() <= usize::MAX,
        framed(insts),
        sealed(insts),
    ensures
        find_of(insts, input) matches Some(found) ==> found.0 <= found.1 <= input.len(),
{
    lemma_winner_kept(insts, input);
    lemma_winner_ordered(insts, input);
}

/// A regex whose tests are pure compiles, wrapped for searching, to a program
/// whose tests are pure.
pub proof fn lemma_search_pure<I, F: Fn(&I) -> bool>(reg: Regex<F>)
    requires
        pure_regex::<I, F>(reg),
    ensures
        pure_program::<I, F>(program(&wrapped(reg))),
        searchable(reg) ==> pure_program::<I, F>(search_program(reg)),
{
    if searchable(reg) {
        lemma_search_program(reg);
    }
    let w = wrapped(reg);
    let any = Regex::Satisfy(Test::<F>::Always);
    let skip = Regex::Repeat0(Rc::new(any), false);
    let group = Regex::Group(Rc::new(reg));
    let rest = Regex::Concat(Rc::new(group), Rc::new(skip));
    let p = |t: Test<F>| t.is_pure::<I>();
    assert(all_tests(any, p));
    assert(all_tests(skip, p));
    assert(all_tests(group, p));
    assert(all_tests(rest, p));
    assert(all_tests(w, p));
    lemma_layout_tests(&w, 0, 0, p);
    let body = layout(&w, 0, 0).0;
    let insts = program(&w);
    assert forall|pc: int| 0 <= pc < insts.len() implies (#[trigger] insts[pc] matches Inst::Check(
        t,
    ) ==> t.is_pure::<I>()) by {
        if pc < body.len() {
            assert(insts[pc] == body[pc]);
        }
    }
}

} // verus!
