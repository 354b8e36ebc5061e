use regex_engine::compiler::{_compile_regex, compile_regex_to_vm_insts, extent};
use regex_engine::inst::Inst;
use regex_engine::matcher::{collect_spans, CaptureLocation, CompiledRegexInVm};
use regex_engine::predicate::Test;
use regex_engine::regex::{concat_regex_list, expand_repeat_min_max, expand_repeat_n, Regex};
use regex_engine::runner::{run_vm, store, Thread};
use std::rc::Rc;

type Pred = Box<dyn Fn(&char) -> bool>;
type Re = Regex<Pred>;

fn lit(c: char) -> Rc<Re> {
    Rc::new(Regex::Satisfy(Test::new(Box::new(move |x: &char| *x == c))))
}

fn cat(a: Rc<Re>, b: Rc<Re>) -> Rc<Re> {
    Rc::new(Regex::Concat(a, b))
}

fn group(a: Rc<Re>) -> Rc<Re> {
    Rc::new(Regex::Group(a))
}

fn own(r: Rc<Re>) -> Re {
    Regex::NonCapturingGroup(r)
}

fn text(s: &str) -> Vec<char> {
    s.chars().collect()
}

fn span(r: Rc<Re>, s: &str) -> Option<(usize, usize)> {
    let input = text(s);
    let compiled = CompiledRegexInVm::compile(own(r));
    compiled.find(&input).map(|m| (m.start, m.end))
}

fn locations(r: Rc<Re>, s: &str) -> Option<Vec<(usize, usize)>> {
    let input = text(s);
    let compiled = CompiledRegexInVm::compile(own(r));
    compiled
        .captures(&input)
        .map(|c| c.capture_locations.iter().map(|l| (l.start, l.end)).collect())
}

fn shape(insts: &[Inst<Pred>]) -> String {
    let mut out = String::new();
    for i in insts {
        let part = match i {
            Inst::Begin => format!("^"),
            Inst::End => format!("$"),
            Inst::Check(_) => format!("c"),
            Inst::SaveOpen(g) => format!("({}", g),
            Inst::SaveClose(g) => format!("){}", g),
            Inst::SaveNamedOpen(n, g) => format!("({}:{}", n, g),
            Inst::SaveNamedClose(n, g) => format!("){}:{}", n, g),
            Inst::Split(a, b) => format!("s{},{}", a, b),
            Inst::Jmp(a) => format!("j{}", a),
            Inst::Match => format!("m"),
        };
        out.push_str(&part);
        out.push(' ');
    }
    out.trim_end().to_string()
}

fn program(r: Rc<Re>) -> String {
    shape(&compile_regex_to_vm_insts(&*r))
}

#[test]
fn single_slot_constructs() {
    assert_eq!(program(Rc::new(Regex::Begin)), "^ m");
    assert_eq!(program(Rc::new(Regex::End)), "$ m");
    assert_eq!(program(lit('a')), "c m");
    let not: Rc<Re> = Rc::new(Regex::NotSatisfy(Test::new(Box::new(|x: &char| *x != 'a'))));
    assert_eq!(program(not), "c m");
    let (insts, end_pc, next_group) = _compile_regex(&*lit('a'), 7, 3);
    assert_eq!(shape(&insts), "c");
    assert_eq!((end_pc, next_group), (7, 3));
}

#[test]
fn concat_and_groups_lay_out_contiguously() {
    assert_eq!(program(cat(lit('a'), lit('b'))), "c c m");
    assert_eq!(program(group(lit('a'))), "(0 c )0 m");
    let named: Rc<Re> = Rc::new(Regex::NamedGroup("x".to_string(), lit('a')));
    assert_eq!(program(named), "(x:0 c )x:0 m");
    assert_eq!(program(Rc::new(Regex::NonCapturingGroup(lit('a')))), "c m");
    let (insts, end_pc, next_group) = _compile_regex(&*cat(group(lit('a')), group(lit('b'))), 10, 2);
    assert_eq!(shape(&insts), "(2 c )2 (3 c )3");
    assert_eq!((end_pc, next_group), (15, 4));
}

#[test]
fn alternation_and_quantifiers() {
    assert_eq!(program(Rc::new(Regex::Or(lit('a'), lit('b')))), "s1,3 c j4 c m");
    assert_eq!(program(Rc::new(Regex::ZeroOrOne(lit('a'), true))), "s1,2 c m");
    assert_eq!(program(Rc::new(Regex::ZeroOrOne(lit('a'), false))), "s2,1 c m");
    assert_eq!(program(Rc::new(Regex::Repeat0(lit('a'), true))), "s1,3 c j0 m");
    assert_eq!(program(Rc::new(Regex::Repeat0(lit('a'), false))), "s3,1 c j0 m");
    assert_eq!(program(Rc::new(Regex::Repeat1(lit('a'), true))), "c s0,2 m");
    assert_eq!(program(Rc::new(Regex::Repeat1(lit('a'), false))), "c s2,0 m");
    let (insts, end_pc, _) = _compile_regex(&Regex::Repeat0(lit('a'), true), 5, 0);
    assert_eq!(shape(&insts), "s6,8 c j5");
    assert_eq!(end_pc, 7);
}

#[test]
fn counted_repetitions_are_rewritten() {
    assert_eq!(program(Rc::new(Regex::RepeatN(lit('a'), 3))), "c c c m");
    assert_eq!(program(Rc::new(Regex::RepeatN(lit('a'), 1))), "c m");
    assert_eq!(
        program(Rc::new(Regex::RepeatMinMax(lit('a'), 2, Some(4), true))),
        "c c s3,4 c s5,6 c m"
    );
    assert_eq!(
        program(Rc::new(Regex::RepeatMinMax(lit('a'), 0, Some(1), false))),
        "s2,1 c m"
    );
    assert_eq!(program(Rc::new(Regex::RepeatMinMax(lit('a'), 2, None, true))), "c c s1,3 m");
    assert_eq!(program(Rc::new(Regex::RepeatMinMax(lit('a'), 1, None, false))), "c s2,0 m");
    assert_eq!(program(Rc::new(Regex::RepeatN(group(lit('a')), 2))), "(0 c )0 (1 c )1 m");
}

#[test]
fn expansion_shares_the_body() {
    let a = lit('a');
    let three = expand_repeat_n(a.clone(), 3);
    match &*three {
        Regex::Concat(front, last) => {
            assert!(Rc::ptr_eq(last, &a));
            match &**front {
                Regex::Concat(x, y) => {
                    assert!(Rc::ptr_eq(x, &a));
                    assert!(Rc::ptr_eq(y, &a));
                }
                _ => panic!("left-nested concatenation expected"),
            }
        }
        _ => panic!("concatenation expected"),
    }
    assert!(Rc::ptr_eq(&expand_repeat_n(a.clone(), 1), &a));
    assert!(Rc::ptr_eq(&concat_regex_list(&[a.clone()]), &a));
    let bounded = expand_repeat_min_max(a.clone(), 1, &Some(2), true);
    match &*bounded {
        Regex::Concat(x, y) => {
            assert!(Rc::ptr_eq(x, &a));
            assert!(matches!(&**y, Regex::ZeroOrOne(b, true) if Rc::ptr_eq(b, &a)));
        }
        _ => panic!("concatenation expected"),
    }
    let open = expand_repeat_min_max(a.clone(), 1, &None, false);
    assert!(matches!(&*open, Regex::Repeat1(b, false) if Rc::ptr_eq(b, &a)));
}

#[test]
fn search_program_wraps_the_pattern() {
    let compiled = CompiledRegexInVm::compile(own(lit('a')));
    assert_eq!(shape(compiled.instructions()), "s3,1 c j0 (0 c )0 s9,7 c j6 m");
}

#[test]
fn earlier_alternative_wins() {
    let r = Rc::new(Regex::Or(lit('a'), cat(lit('a'), lit('b'))));
    assert_eq!(span(r, "ab"), Some((0, 1)));
    let r = Rc::new(Regex::Or(cat(lit('a'), lit('b')), lit('a')));
    assert_eq!(span(r, "ab"), Some((0, 2)));
}

#[test]
fn greedy_and_lazy_star() {
    assert_eq!(span(Rc::new(Regex::Repeat0(lit('a'), true)), "aaa"), Some((0, 3)));
    assert_eq!(span(Rc::new(Regex::Repeat0(lit('a'), false)), "aaa"), Some((0, 0)));
    assert_eq!(span(Rc::new(Regex::Repeat1(lit('a'), true)), "baaa"), Some((1, 4)));
    assert_eq!(span(Rc::new(Regex::Repeat1(lit('a'), false)), "baaa"), Some((1, 2)));
    assert_eq!(span(Rc::new(Regex::ZeroOrOne(lit('a'), true)), "a"), Some((0, 1)));
    assert_eq!(span(Rc::new(Regex::ZeroOrOne(lit('a'), false)), "a"), Some((0, 0)));
}

#[test]
fn groups_are_numbered_in_pre_order() {
    let r = group(cat(group(lit('a')), group(lit('b'))));
    assert_eq!(
        locations(r, "ab"),
        Some(vec![(0, 2), (0, 2), (0, 1), (1, 2)])
    );
    let r = group(cat(group(lit('a')), group(lit('b'))));
    assert_eq!(
        locations(r, "xxabx"),
        Some(vec![(2, 4), (2, 4), (2, 3), (3, 4)])
    );
}

#[test]
fn absent_groups_end_the_list() {
    let r = Rc::new(Regex::Or(group(lit('a')), group(lit('b'))));
    assert_eq!(locations(r, "a"), Some(vec![(0, 1), (0, 1)]));
    let r = Rc::new(Regex::Or(group(lit('a')), group(lit('b'))));
    assert_eq!(locations(r, "b"), Some(vec![(0, 1)]));
    assert_eq!(locations(lit('a'), "b"), None);
}

#[test]
fn bounded_repetition_takes_at_most_its_maximum() {
    let r = || Rc::new(Regex::RepeatMinMax(lit('a'), 2, Some(4), true));
    assert_eq!(span(r(), "aaaaa"), Some((0, 4)));
    assert_eq!(span(r(), "aaa"), Some((0, 3)));
    assert_eq!(span(r(), "aa"), Some((0, 2)));
    assert_eq!(span(r(), "a"), None);
    assert_eq!(span(r(), "ba"), None);
    let lazy = Rc::new(Regex::RepeatMinMax(lit('a'), 2, Some(4), false));
    assert_eq!(span(lazy, "aaaaa"), Some((0, 2)));
    let open = Rc::new(Regex::RepeatMinMax(lit('a'), 2, None, true));
    assert_eq!(span(open, "baaaaa"), Some((1, 6)));
    assert_eq!(span(Rc::new(Regex::RepeatN(lit('a'), 3)), "aaaa"), Some((0, 3)));
    assert_eq!(span(Rc::new(Regex::RepeatN(lit('a'), 3)), "aa"), None);
}

#[test]
fn anchors_hold_the_match_to_the_ends() {
    let begin = || Rc::new(Regex::Begin);
    let end = || Rc::new(Regex::End);
    assert_eq!(span(cat(begin(), lit('a')), "ab"), Some((0, 1)));
    assert_eq!(span(cat(begin(), lit('a')), "ba"), None);
    assert_eq!(span(cat(lit('a'), end()), "ba"), Some((1, 2)));
    assert_eq!(span(cat(lit('a'), end()), "ab"), None);
    let anchored = || cat(begin(), cat(lit('a'), end()));
    assert_eq!(span(anchored(), "a"), Some((0, 1)));
    assert_eq!(span(anchored(), "bab"), None);
    assert_eq!(span(lit('a'), "bab"), Some((1, 2)));
    assert_eq!(span(cat(begin(), end()), ""), Some((0, 0)));
}

#[test]
fn search_is_leftmost() {
    assert_eq!(span(cat(lit('a'), lit('b')), "xxabab"), Some((2, 4)));
    assert_eq!(span(lit('z'), "xxabab"), None);
    assert_eq!(span(lit('z'), ""), None);
}

#[test]
fn named_groups_carry_their_names() {
    let r: Rc<Re> = cat(
        Rc::new(Regex::NamedGroup("first".to_string(), lit('a'))),
        Rc::new(Regex::Repeat1(Rc::new(Regex::NamedGroup("rest".to_string(), lit('b'))), true)),
    );
    let input = text("xabbb");
    let compiled = CompiledRegexInVm::compile(own(r));
    let found = compiled.captures(&input).unwrap();
    assert_eq!(
        found.capture_locations,
        vec![
            CaptureLocation { start: 1, end: 5 },
            CaptureLocation { start: 1, end: 2 },
            CaptureLocation { start: 4, end: 5 },
        ]
    );
    assert_eq!(
        found.named_capture_index,
        vec![("first".to_string(), 1), ("rest".to_string(), 2)]
    );
    assert_eq!(found.input, &input[..]);
}

#[test]
fn is_match_find_and_captures_agree() {
    let patterns: Vec<fn() -> Rc<Re>> = vec![
        || Rc::new(Regex::Or(lit('a'), cat(lit('a'), lit('b')))),
        || Rc::new(Regex::Repeat0(group(lit('a')), true)),
        || cat(Rc::new(Regex::Begin), group(lit('b'))),
        || Rc::new(Regex::RepeatMinMax(group(lit('a')), 2, Some(3), true)),
    ];
    for make in patterns {
        for s in ["", "a", "ab", "baaa", "bbb", "xyz"] {
            let input = text(s);
            let compiled = CompiledRegexInVm::compile(own(make()));
            let matched = compiled.is_match(&input);
            let found = compiled.find(&input);
            let caps = compiled.captures(&input);
            assert_eq!(found.is_some(), matched);
            assert_eq!(caps.is_some(), matched);
            if let (Some(m), Some(c)) = (found, caps) {
                assert!(!c.capture_locations.is_empty());
                assert_eq!(c.capture_locations[0], CaptureLocation { start: m.start, end: m.end });
                assert!(m.start <= m.end && m.end <= input.len());
            }
        }
    }
}

#[test]
fn runner_prefers_the_first_branch() {
    let check = |c: char| -> Inst<Pred> { Inst::Check(Test::new(Box::new(move |x: &char| *x == c))) };
    // Split(1, 3): 'a' then accept, or 'a' 'b' then accept; every path saves slot 0 first.
    let insts = vec![
        Inst::SaveOpen(0),
        Inst::Split(2, 4),
        check('a'),
        Inst::Jmp(6),
        check('a'),
        check('b'),
        Inst::SaveClose(0),
        Inst::Match,
    ];
    let winner = run_vm(&insts, &text("ab")).unwrap();
    assert_eq!(winner.pc, 7);
    assert_eq!(winner.saved, vec![Some(0), Some(1)]);
    assert!(run_vm(&insts, &text("b")).is_none());
    let any: Vec<Inst<Pred>> = vec![Inst::Check(Test::any()), Inst::Match];
    assert!(run_vm(&any, &text("q")).is_some());
    assert!(run_vm(&any, &text("")).is_none());
}

#[test]
fn runner_survives_empty_loops() {
    // (a*)* : an inner loop that may consume nothing inside an outer loop.
    let r = Rc::new(Regex::Repeat0(group(Rc::new(Regex::Repeat0(lit('a'), true))), true));
    assert_eq!(span(r, "aab"), Some((0, 2)));
}

#[test]
fn slots_and_spans() {
    assert_eq!(store(vec![], 3, 9), vec![None, None, None, Some(9)]);
    assert_eq!(store(vec![Some(1), None], 1, 4), vec![Some(1), Some(4)]);
    assert_eq!(store(vec![Some(1)], 0, 2), vec![Some(2)]);
    assert_eq!(
        collect_spans(&vec![Some(0), Some(3), Some(1), Some(2), None, None, Some(5), Some(6)]),
        Some(vec![CaptureLocation { start: 0, end: 3 }, CaptureLocation { start: 1, end: 2 }])
    );
    assert_eq!(collect_spans(&vec![]), Some(vec![]));
    assert_eq!(collect_spans(&vec![None, Some(2)]), Some(vec![]));
    assert_eq!(collect_spans(&vec![Some(0), None]), None);
    assert_eq!(collect_spans(&vec![Some(0)]), None);
    assert_eq!(collect_spans(&vec![Some(0), Some(1), Some(1)]), None);
    let t = Thread::start();
    assert_eq!(t.pc, 0);
    assert!(t.saved.is_empty() && t.named.is_empty());
}

#[test]
fn shared_tests_answer_alike() {
    let t: Test<Pred> = Test::new(Box::new(|x: &char| *x == 'q'));
    let u = t.share();
    assert!(t.check(&'q') && u.check(&'q'));
    assert!(!t.check(&'r') && !u.check(&'r'));
    match (&t, &u) {
        (Test::With(a), Test::With(b)) => assert!(Rc::ptr_eq(a, b)),
        _ => panic!("shared handle expected"),
    }
    let any: Test<Pred> = Test::any();
    assert!(any.check(&'x') && any.share().check(&'y'));
}

#[test]
fn extent_tells_what_compiles() {
    assert_eq!(extent(&*lit('a'), 0, 0), Some((0, 0)));
    assert_eq!(extent(&*group(cat(lit('a'), lit('b'))), 3, 1), Some((6, 2)));
    assert_eq!(extent(&Regex::Or(lit('a'), lit('b')), 0, 0), Some((3, 0)));
    assert_eq!(extent(&Regex::Repeat0(lit('a'), true), 5, 0), Some((7, 0)));
    assert_eq!(extent(&Regex::RepeatMinMax(group(lit('a')), 2, Some(4), true), 0, 0), Some((13, 4)));
    assert_eq!(extent(&Regex::RepeatN(lit('a'), 0), 0, 0), None);
    assert_eq!(extent(&Regex::RepeatMinMax(lit('a'), 3, Some(2), true), 0, 0), None);
    assert_eq!(extent(&Regex::RepeatMinMax(lit('a'), 0, Some(0), true), 0, 0), None);
    assert_eq!(extent(&Regex::RepeatMinMax(lit('a'), 0, None, true), 0, 0), None);
    assert_eq!(extent(&*lit('a'), usize::MAX, 0), None);
    assert_eq!(extent(&*lit('a'), usize::MAX - 1, 0), Some((usize::MAX - 1, 0)));
    assert_eq!(extent(&*cat(lit('a'), lit('b')), usize::MAX - 1, 0), None);
    assert_eq!(extent(&*group(lit('a')), 0, usize::MAX / 2), None);
}

#[test]
fn try_compile_refuses_what_cannot_be_rewritten() {
    assert!(CompiledRegexInVm::try_compile(own(Rc::new(Regex::RepeatN(lit('a'), 0)))).is_none());
    assert!(CompiledRegexInVm::try_compile(Regex::RepeatMinMax(lit('a'), 2, Some(1), true)).is_none());
    let compiled = CompiledRegexInVm::try_compile(own(Rc::new(Regex::RepeatN(lit('a'), 2)))).unwrap();
    assert_eq!(shape(compiled.instructions()), "s3,1 c j0 (0 c c )0 s10,8 c j7 m");
    let input = text("baab");
    let found = compiled.find(&input).unwrap();
    assert_eq!((found.start, found.end), (1, 3));
}
