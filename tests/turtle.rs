use lindenmayer::instruction::Instruction::{Branch, Symbol};
use lindenmayer::turtle::{plan, Action, Step, StepSets};

#[test]
fn branch_is_bracketed_by_save_and_restore() {
    let word = vec![Branch(vec![Symbol('F')]), Symbol('F')];
    let actions = plan(&StepSets::new(), &word);
    assert_eq!(
        actions,
        vec![
            Action::Save,
            Action::Move(Step::DrawForward),
            Action::Restore,
            Action::Move(Step::DrawForward)
        ]
    );
    let draws = actions
        .iter()
        .filter(|a| **a == Action::Move(Step::DrawForward))
        .count();
    assert_eq!(draws, 2);
}

#[test]
fn turns_are_reserved() {
    let sets = StepSets::new().draw_forward("+-F");
    let word = vec![Symbol('+'), Symbol('-'), Symbol('F')];
    assert_eq!(
        plan(&sets, &word),
        vec![Action::TurnLeft, Action::TurnRight, Action::Move(Step::DrawForward)]
    );
}

#[test]
fn classification_priority() {
    let sets = StepSets::new()
        .draw_forward("A")
        .draw_backward("AB")
        .forward("ABC")
        .backwards("ABCD");
    assert_eq!(sets.classify('A'), Some(Step::DrawForward));
    assert_eq!(sets.classify('B'), Some(Step::DrawBackward));
    assert_eq!(sets.classify('C'), Some(Step::Forward));
    assert_eq!(sets.classify('D'), Some(Step::Backward));
    assert_eq!(sets.classify('E'), None);
}

#[test]
fn default_classes() {
    let sets = StepSets::default();
    assert_eq!(sets.classify('F'), Some(Step::DrawForward));
    assert_eq!(sets.classify('f'), Some(Step::DrawBackward));
    assert_eq!(sets.classify('G'), None);
}

#[test]
fn unclassified_symbols_do_nothing() {
    let word = vec![Symbol('X'), Branch(vec![]), Symbol('Y')];
    assert_eq!(plan(&StepSets::new(), &word), vec![Action::Save, Action::Restore]);
}

#[test]
fn nested_branches_plan() {
    let word = vec![Branch(vec![Symbol('+'), Branch(vec![Symbol('f')])]), Symbol('F')];
    assert_eq!(
        plan(&StepSets::new(), &word),
        vec![
            Action::Save,
            Action::TurnLeft,
            Action::Save,
            Action::Move(Step::DrawBackward),
            Action::Restore,
            Action::Restore,
            Action::Move(Step::DrawForward)
        ]
    );
}
