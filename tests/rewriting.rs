use lindenmayer::engine::LSystem;
use lindenmayer::instruction::Instruction;
use lindenmayer::instruction::Instruction::{Branch, Symbol};

fn text(word: &[Instruction]) -> String {
    let mut s = String::new();
    for i in word {
        match i {
            Symbol(c) => s.push(*c),
            Branch(v) => {
                s.push('[');
                s.push_str(&text(v));
                s.push(']');
            }
        }
    }
    s
}

#[test]
fn fibonacci_word_generations() {
    let mut l = LSystem::from_str("F; F->GF; G->F;").unwrap();
    let got: Vec<String> = (0..5).map(|_| text(&l.next())).collect();
    assert_eq!(got, vec!["F", "GF", "FGF", "GFFGF", "FGFGFFGF"]);
}

#[test]
fn reset_restarts_from_initial_word() {
    let mut l = LSystem::from_str("F; F->GF; G->F;").unwrap();
    l.step();
    l.step();
    assert_eq!(text(l.word()), "FGF");
    l.reset();
    assert_eq!(text(l.word()), "F");
    assert_eq!(text(&l.next()), "F");
    assert_eq!(text(&l.next()), "GF");
}

#[test]
fn nth_skips_generations() {
    let mut l = LSystem::from_str("F; F->GF; G->F;").unwrap();
    assert_eq!(text(&l.nth(3)), "GFFGF");
    assert_eq!(text(l.word()), "FGFGFFGF");
}

#[test]
fn first_matching_rule_wins() {
    let rules = vec![
        (Symbol('A'), vec![Symbol('B')]),
        (Symbol('A'), vec![Symbol('C')]),
    ];
    let mut l = LSystem::new(vec![Symbol('A')], rules);
    l.step();
    assert_eq!(l.word(), &vec![Symbol('B')]);
}

#[test]
fn unmatched_symbols_stay() {
    let mut l = LSystem::from_str("XAY+; A->B;").unwrap();
    l.step();
    assert_eq!(text(l.word()), "XBY+");
}

#[test]
fn branches_are_kept_and_rewritten_inside() {
    let mut l = LSystem::from_str("F[F[F]]F; F->FG;").unwrap();
    l.step();
    assert_eq!(text(l.word()), "FG[FG[FG]]FG");
}

#[test]
fn rule_with_branch_on_left_never_matches() {
    let rules = vec![(Branch(vec![Symbol('A')]), vec![Symbol('Z')]), (Symbol('A'), vec![Symbol('Q')])];
    let mut l = LSystem::new(vec![Branch(vec![Symbol('A')])], rules);
    l.step();
    assert_eq!(text(l.word()), "[Q]");
}

#[test]
fn symbol_can_vanish_by_empty_rule() {
    let mut l = LSystem::from_str("ABA; B->;").unwrap();
    l.step();
    assert_eq!(text(l.word()), "AA");
}

#[test]
fn stepping_same_word_twice_gives_same_result() {
    let mut a = LSystem::from_str("F; F->F[+F]-F;").unwrap();
    let mut b = LSystem::from_str("F; F->F[+F]-F;").unwrap();
    a.step();
    b.step();
    assert_eq!(a.word(), b.word());
    a.step();
    b.step();
    assert_eq!(a, b);
}
