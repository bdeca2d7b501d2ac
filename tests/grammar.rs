use lindenmayer::engine::LSystem;
use lindenmayer::instruction::Instruction;
use lindenmayer::instruction::Instruction::{Branch, Symbol};
use lindenmayer::parser::{
    branch, instructions, is_branch_symbol, lsystem, rule, simple_instructions, to_symbol,
    ParseError,
};

#[test]
fn test_simple_instructions() {
    assert_eq!(
        Ok(("", vec![Symbol('F'), Symbol('G')])),
        simple_instructions("FG")
    )
}

#[test]
fn test_simple_instructions_branch_separated() {
    assert_eq!(
        Ok(("[FGFGF]", vec![Symbol('F'), Symbol('G')])),
        simple_instructions("FG[FGFGF]")
    )
}

#[test]
fn test_branching() {
    assert_eq!(
        Ok(("", vec![Branch(vec![Symbol('F'), Symbol('G')])])),
        branch("[FG]")
    )
}

#[test]
fn test_symbols() {
    assert_eq!(
        Ok((
            "",
            vec![
                Symbol('F'),
                Symbol('G'),
                Branch(vec![Symbol('F'), Symbol('G'), Symbol('F')]),
                Symbol('F'),
                Symbol('G')
            ]
        )),
        instructions("FG[FGF]FG")
    )
}

#[test]
fn missing_branckets() {
    assert_eq!(instructions("FGFGHA[DOAIJD").unwrap().0, "[DOAIJD")
}

#[test]
fn too_many_branckets() {
    assert_eq!(instructions("FGFGHA[DOAIJD]]").unwrap().0, "]")
}

#[test]
fn single_rule() {
    assert_eq!(
        Ok((
            "",
            (Symbol('A'), vec![Symbol('K'), Symbol('J'), Symbol('H')])
        )),
        rule("A->KJH")
    )
}

#[test]
fn rule_whitespace_before() {
    assert_eq!(
        Ok((
            "",
            (Symbol('A'), vec![Symbol('K'), Symbol('J'), Symbol('H')])
        )),
        rule("  \t\nA->KJH")
    )
}

#[test]
fn initial_word_with_branch_parses() {
    let l = LSystem::from_str("FG[FGF]FG;").unwrap();
    assert_eq!(
        l.initial(),
        &vec![
            Symbol('F'),
            Symbol('G'),
            Branch(vec![Symbol('F'), Symbol('G'), Symbol('F')]),
            Symbol('F'),
            Symbol('G')
        ]
    );
    assert!(l.rules().is_empty());
}

#[test]
fn whitespace_between_tokens_is_dropped() {
    assert_eq!(
        instructions(" F \t[ G\n]H;"),
        Ok((";", vec![Symbol('F'), Branch(vec![Symbol('G')]), Symbol('H')]))
    );
}

#[test]
fn empty_brackets_give_empty_branch() {
    assert_eq!(instructions("[]"), Ok(("", vec![Branch(vec![])])));
}

#[test]
fn nested_unclosed_branch_stops_at_outer_bracket() {
    assert_eq!(
        instructions("F[A[B]"),
        Ok(("[A[B]", vec![Symbol('F')]))
    );
}

#[test]
fn empty_symbol_run_is_rejected() {
    assert_eq!(simple_instructions("[F]"), Err(ParseError::EmptySymbolRun));
    assert_eq!(simple_instructions(""), Err(ParseError::EmptySymbolRun));
    assert_eq!(simple_instructions(" F"), Err(ParseError::EmptySymbolRun));
}

#[test]
fn symbol_run_stops_at_semicolon() {
    assert_eq!(simple_instructions("AB;C"), Ok((";C", vec![Symbol('A'), Symbol('B')])));
}

#[test]
fn branch_errors() {
    assert_eq!(branch("F[G]"), Err(ParseError::ExpectedOpenBracket));
    assert_eq!(branch(""), Err(ParseError::ExpectedOpenBracket));
    assert_eq!(branch("[FG"), Err(ParseError::UnbalancedBranch));
}

#[test]
fn malformed_rules_are_rejected() {
    assert_eq!(rule("AB->C"), Err(ParseError::MalformedRule));
    assert_eq!(rule("[A]->C"), Err(ParseError::MalformedRule));
    assert_eq!(rule("A-C"), Err(ParseError::MalformedRule));
    assert_eq!(rule(""), Err(ParseError::MalformedRule));
}

#[test]
fn rule_with_spaces_around_arrow() {
    assert_eq!(
        rule("F -> G[+F];"),
        Ok((
            ";",
            (Symbol('F'), vec![Symbol('G'), Branch(vec![Symbol('+'), Symbol('F')])])
        ))
    );
}

#[test]
fn unterminated_initial_word_is_rejected() {
    assert_eq!(LSystem::from_str("FG"), Err(ParseError::UnterminatedWord));
    assert_eq!(LSystem::from_str("F[G;"), Err(ParseError::UnterminatedWord));
    assert!(lsystem("F]").is_err());
}

#[test]
fn grammar_with_rules() {
    let (rest, l) = lsystem("F; F->GF; G -> F;").unwrap();
    assert_eq!(rest, "");
    assert_eq!(l.initial(), &vec![Symbol('F')]);
    assert_eq!(l.word(), &vec![Symbol('F')]);
    assert_eq!(
        l.rules(),
        &vec![
            (Symbol('F'), vec![Symbol('G'), Symbol('F')]),
            (Symbol('G'), vec![Symbol('F')])
        ]
    );
}

#[test]
fn trailing_text_after_rules_is_left_unread() {
    let (rest, l) = lsystem("F;F->G; junk").unwrap();
    assert_eq!(rest, " junk");
    assert_eq!(l.rules().len(), 1);
    let (rest, l) = lsystem("F;F->G").unwrap();
    assert_eq!(rest, "F->G");
    assert!(l.rules().is_empty());
}

#[test]
fn parsing_twice_gives_equal_systems() {
    let text = "F;F->F[+F]F;";
    let a = LSystem::from_str(text).unwrap();
    let b = LSystem::from_str(text).unwrap();
    assert_eq!(a, b);
}

#[test]
fn empty_initial_word() {
    let l = LSystem::from_str(";").unwrap();
    let empty: Vec<Instruction> = vec![];
    assert_eq!(l.initial(), &empty);
}

#[test]
fn single_symbols() {
    assert_eq!(to_symbol("A"), Ok(Symbol('A')));
    assert_eq!(to_symbol("+"), Ok(Symbol('+')));
    assert_eq!(to_symbol("AB"), Err(ParseError::NotASymbol));
    assert_eq!(to_symbol(""), Err(ParseError::NotASymbol));
    assert_eq!(to_symbol("["), Err(ParseError::NotASymbol));
    assert_eq!(to_symbol(" "), Err(ParseError::NotASymbol));
    assert_eq!(to_symbol(";"), Err(ParseError::NotASymbol));
}

#[test]
fn branch_symbols() {
    assert!(is_branch_symbol('['));
    assert!(is_branch_symbol(']'));
    assert!(!is_branch_symbol('F'));
}
