use pixel_programs::{reference_grammar, GenerateError, Kind, Program, WeightedSample};
use rand::{SeedableRng, XorShiftRng};

fn bx(p: Program) -> Box<Program> {
    Box::new(p)
}

fn seeded() -> XorShiftRng {
    XorShiftRng::from_seed([0x193a_6754, 0xa8a7_d469, 0x9783_0e05, 0x113b_a7bb])
}

#[test]
fn inputs_project_their_coordinate() {
    assert_eq!(Program::X.eval((1, 2, 3)), 1);
    assert_eq!(Program::Y.eval((1, 2, 3)), 2);
    assert_eq!(Program::T.eval((1, 2, 3)), 3);
}

#[test]
fn bitwise_operators() {
    let v = (0b1100_1010, 0b1010_0110, 0);
    assert_eq!(Program::Xor(bx(Program::X), bx(Program::Y)).eval(v), 0b0110_1100);
    assert_eq!(Program::And(bx(Program::X), bx(Program::Y)).eval(v), 0b1000_0010);
    assert_eq!(Program::Or(bx(Program::X), bx(Program::Y)).eval(v), 0b1110_1110);
}

#[test]
fn arithmetic_wraps() {
    assert_eq!(Program::Add(bx(Program::X), bx(Program::Y)).eval((200, 100, 0)), 44);
    assert_eq!(Program::Sub(bx(Program::X), bx(Program::Y)).eval((3, 5, 0)), 254);
    assert_eq!(Program::Mul(bx(Program::X), bx(Program::Y)).eval((16, 17, 0)), 16);
    assert_eq!(Program::Add(bx(Program::X), bx(Program::Y)).eval((20, 30, 0)), 50);
    assert_eq!(Program::Mul(bx(Program::X), bx(Program::T)).eval((6, 0, 7)), 42);
}

#[test]
fn division() {
    let d = Program::Div(bx(Program::X), bx(Program::Y));
    assert_eq!(d.eval((200, 7, 0)), 28);
    assert_eq!(d.eval((200, 0, 0)), 0);
}

#[test]
fn division_by_zero_divisor_subtree_gives_zero() {
    // The divisor x ^ x is 0 on every input.
    let d = Program::Div(
        bx(Program::Add(bx(Program::Y), bx(Program::T))),
        bx(Program::Xor(bx(Program::X), bx(Program::X))),
    );
    for x in 0..=255u8 {
        for y in 0..=255u8 {
            assert_eq!(d.eval((x, y, 0)), 0);
        }
    }
    // Inside a larger tree the division contributes 0.
    let outer = Program::Or(bx(d), bx(Program::Y));
    assert_eq!(outer.eval((9, 77, 0)), 77);
}

#[test]
fn eval_is_deterministic() {
    let p = Program::Sub(
        bx(Program::Mul(bx(Program::X), bx(Program::T))),
        bx(Program::Div(bx(Program::Y), bx(Program::X))),
    );
    for &v in &[(0, 0, 0), (13, 250, 7), (255, 255, 255), (1, 0, 200)] {
        let first = p.eval(v);
        for _ in 0..5 {
            assert_eq!(p.eval(v), first);
        }
    }
}

#[test]
fn length_counts_inputs() {
    assert_eq!(Program::X.length(), 1);
    assert_eq!(Program::T.length(), 1);
    let a = Program::And(bx(Program::X), bx(Program::Y));
    assert_eq!(a.length(), 2);
    let b = Program::Div(bx(a), bx(Program::Add(bx(Program::T), bx(Program::X))));
    assert_eq!(b.length(), 4);
    let c = Program::Or(bx(b), bx(Program::Y));
    assert_eq!(c.length(), 5);
}

#[test]
fn xor_of_t_and_x_is_too_short() {
    let p = Program::Xor(bx(Program::T), bx(Program::X));
    assert_eq!(p.length(), 2);
    assert!(p.contains(&[Kind::T]));
    assert!(p.contains(&[Kind::Xor]));
    assert!(!p.contains(&[Kind::Y, Kind::Div]));
    assert!(!p.is_interesting());
}

#[test]
fn interesting_needs_t_operator_and_length() {
    let four_with_t = Program::Add(
        bx(Program::Xor(bx(Program::T), bx(Program::X))),
        bx(Program::And(bx(Program::Y), bx(Program::X))),
    );
    assert_eq!(four_with_t.length(), 4);
    assert!(four_with_t.is_interesting());

    let four_without_t = Program::Add(
        bx(Program::Xor(bx(Program::Y), bx(Program::X))),
        bx(Program::And(bx(Program::Y), bx(Program::X))),
    );
    assert!(!four_without_t.is_interesting());

    let mut long = Program::T;
    for _ in 0..14 {
        long = Program::Or(bx(long), bx(Program::X));
    }
    assert_eq!(long.length(), 15);
    assert!(long.is_interesting());
    let longer = Program::Or(bx(long), bx(Program::Y));
    assert_eq!(longer.length(), 16);
    assert!(!longer.is_interesting());
    assert!(!Program::T.is_interesting());
}

#[test]
fn kind_of_each_node() {
    assert_eq!(Program::Y.kind(), Kind::Y);
    assert_eq!(Program::Mul(bx(Program::X), bx(Program::X)).kind(), Kind::Mul);
    assert!(Kind::Sub.is_operator());
    assert!(!Kind::T.is_operator());
    assert_eq!(
        Program::from_kind(Kind::And, Program::X, Program::T),
        Program::And(bx(Program::X), bx(Program::T))
    );
    assert_eq!(Program::from_kind(Kind::Y, Program::X, Program::T), Program::Y);
}

#[test]
fn generated_interesting_trees_meet_the_filter() {
    let grammar = reference_grammar();
    let mut rng = seeded();
    for _ in 0..300 {
        let p = Program::new_interesting(&mut rng, &grammar, 100_000).unwrap();
        let len = p.length();
        assert!((4..=15).contains(&len));
        assert!(p.contains(&[Kind::T]));
        assert!(p.contains(&[
            Kind::Xor,
            Kind::And,
            Kind::Or,
            Kind::Add,
            Kind::Sub,
            Kind::Mul,
            Kind::Div
        ]));
        assert!(p.is_interesting());
    }
}

#[test]
fn random_trees_respect_the_length_bound() {
    let grammar = reference_grammar();
    let mut rng = seeded();
    let mut ok = 0;
    for _ in 0..2000 {
        match Program::new_random(&mut rng, &grammar, 6) {
            Ok(p) => {
                assert!(p.length() >= 1 && p.length() <= 6);
                ok += 1;
            }
            Err(e) => assert_eq!(e, GenerateError::TooLong),
        }
    }
    assert!(ok > 0);
}

#[test]
fn zero_weight_kinds_never_appear() {
    let mut grammar = WeightedSample::new();
    grammar.option(3, Kind::X);
    grammar.option(0, Kind::Y);
    grammar.option(3, Kind::T);
    grammar.option(2, Kind::Xor);
    grammar.option(0, Kind::Add);
    let mut rng = seeded();
    for _ in 0..500 {
        if let Ok(p) = Program::new_random(&mut rng, &grammar, 30) {
            assert!(!p.contains(&[Kind::Y, Kind::Add]));
        }
    }
}

#[test]
fn inputs_only_grammar_never_yields_an_interesting_tree() {
    let mut grammar = WeightedSample::new();
    grammar.option(1, Kind::X);
    grammar.option(1, Kind::Y);
    grammar.option(1, Kind::T);
    for k in [Kind::Xor, Kind::And, Kind::Or, Kind::Add, Kind::Sub, Kind::Mul, Kind::Div] {
        grammar.option(0, k);
    }
    let mut rng = seeded();
    assert_eq!(
        Program::new_interesting(&mut rng, &grammar, 10_000),
        Err(GenerateError::GaveUp)
    );
}

#[test]
fn empty_grammar_is_reported() {
    let grammar: WeightedSample<Kind> = WeightedSample::new();
    let mut rng = seeded();
    assert_eq!(Program::new_random(&mut rng, &grammar, 15), Err(GenerateError::NoWeight));
    assert_eq!(Program::new_interesting(&mut rng, &grammar, 10), Err(GenerateError::NoWeight));
    let mut zero = WeightedSample::new();
    zero.option(0, Kind::T);
    assert_eq!(Program::new_random(&mut rng, &zero, 15), Err(GenerateError::NoWeight));
}

#[test]
fn operators_only_grammar_is_too_long() {
    let mut grammar = WeightedSample::new();
    grammar.option(1, Kind::Xor);
    let mut rng = seeded();
    assert_eq!(Program::new_random(&mut rng, &grammar, 15), Err(GenerateError::TooLong));
    assert_eq!(Program::new_random(&mut rng, &grammar, 0), Err(GenerateError::TooLong));
}

#[test]
fn reference_grammar_weights() {
    let g = reference_grammar();
    assert_eq!(g.total(), 19);
    assert_eq!(g.select(0), Some(0));
    assert_eq!(g.select(8), Some(2));
    assert_eq!(g.select(9), Some(3));
    assert_eq!(g.select(14), Some(5));
    assert_eq!(g.select(15), Some(6));
    assert_eq!(g.select(18), Some(9));
    assert_eq!(g.select(19), None);
}

#[test]
fn inputs_only_grammar_draws_a_leaf() {
    let mut grammar = WeightedSample::new();
    grammar.option(1, Kind::X);
    grammar.option(1, Kind::Y);
    grammar.option(1, Kind::T);
    for k in [Kind::Xor, Kind::And, Kind::Or, Kind::Add, Kind::Sub, Kind::Mul, Kind::Div] {
        grammar.option(0, k);
    }
    let mut rng = seeded();
    for bound in [1u32, 15, u32::MAX] {
        for _ in 0..200 {
            let p = Program::new_random(&mut rng, &grammar, bound).unwrap();
            assert_eq!(p.length(), 1);
            assert!(!p.contains(&[
                Kind::Xor,
                Kind::And,
                Kind::Or,
                Kind::Add,
                Kind::Sub,
                Kind::Mul,
                Kind::Div
            ]));
        }
    }
}

#[test]
fn no_attempts_gives_up() {
    let grammar = reference_grammar();
    let mut rng = seeded();
    assert_eq!(Program::new_interesting(&mut rng, &grammar, 0), Err(GenerateError::GaveUp));
}
