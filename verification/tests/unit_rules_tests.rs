use plox::expressions::{Atomic, Expression, ANY, NOT};
use plox::rules::{
    get_warnings, Conflict, EOrderRule, ERule, EWarningRule, NearEnd, NearStart, Note, Order,
    Patch, Requires, TWarningRule,
};

fn mods() -> Vec<String> {
    ["a", "b", "c", "d", "e", "f", "g"]
        .iter()
        .map(|e| (*e).into())
        .collect()
}

fn atom(name: &str) -> Expression {
    Atomic::from(name).into()
}

#[test]
fn unit_rules_tests_test_notes() {
    let mods = mods();

    let rules: Vec<_> = [("a", "some a"), ("c", "some b"), ("x", "some x!")]
        .iter()
        .map(|e| Note::new(e.1.into(), &[atom(e.0)]))
        .collect();

    let mut warnings: Vec<String> = vec![];
    for rule in rules {
        if rule.eval(&mods) {
            warnings.push(rule.get_comment().into());
        }
    }
    let expected: Vec<String> = vec!["some a".to_owned(), "some b".into()];
    assert_eq!(warnings, expected);
}

#[test]
fn unit_rules_tests_test_conflicts() {
    let mods = mods();

    let rule1 = Conflict::new("a conflicts with b".into(), &[atom("a"), atom("b")]);
    let rule2 = Conflict::new("b conflicts with x".into(), &[atom("b"), atom("x")]);
    let rules: Vec<Conflict> = vec![
        rule1, // a conflicts with a
        rule2, // b conflicts with x
    ];

    let mut warnings: Vec<String> = vec![];
    for rule in rules {
        if rule.eval(&mods) {
            warnings.push(rule.get_comment().into());
        }
    }
    let expected: Vec<String> = vec!["a conflicts with b".into()];
    assert_eq!(warnings, expected);
}

#[test]
fn test_requires() {
    let mods = mods();

    let rules: Vec<Requires> = vec![
        // a requires b
        Requires::new("a requires b".into(), atom("a"), atom("b")),
        // b requires x
        Requires::new("b requires x".into(), atom("b"), atom("x")),
        // x requires y
        Requires::new("x requires y".into(), atom("x"), atom("y")),
    ];

    let mut warnings: Vec<String> = vec![];
    for rule in rules {
        if rule.eval(&mods) {
            warnings.push(rule.get_comment().into());
        }
    }
    let expected: Vec<String> = vec!["b requires x".to_owned()];
    assert_eq!(warnings, expected);
}

#[test]
fn unit_tests_test_notes() {
    let mods = mods();

    let rules: Vec<_> = [("a", "some a"), ("c", "some b"), ("x", "some x!")]
        .iter()
        .map(|e| Note::new(e.1.into(), &[Atomic::from(e.0).into()]))
        .collect();

    let mut warnings: Vec<String> = vec![];
    for rule in rules {
        if rule.eval(&mods) {
            warnings.push(rule.get_comment().into());
        }
    }
    let expected: Vec<String> = vec!["some a".to_owned(), "some b".into()];
    assert_eq!(warnings, expected);
}

#[test]
fn unit_tests_test_conflicts() {
    let mods = mods();

    let rules: Vec<Conflict> = vec![
        Conflict::new("some a".into(), &[atom("a"), atom("b")]),
        Conflict::new("some b".into(), &[atom("b"), atom("x")]),
    ];

    let mut warnings: Vec<String> = vec![];
    for rule in rules {
        if rule.eval(&mods) {
            warnings.push(rule.get_comment().into());
        }
    }
    let expected: Vec<String> = vec!["some a".to_owned()];
    assert_eq!(warnings, expected);
}

#[test]
fn notes_are_reported_in_the_order_of_the_rules() {
    let mods: Vec<String> = vec!["a.esp".into(), "b.esp".into(), "c.esp".into()];
    let rules: Vec<EWarningRule> = vec![
        Note::new("some a".into(), &[atom("a.esp")]).into(),
        Note::new("some b".into(), &[atom("c.esp")]).into(),
        Note::new("some x".into(), &[atom("x.esp")]).into(),
    ];
    let expected: Vec<String> = vec!["some a".into(), "some b".into()];
    assert_eq!(expected, get_warnings(&rules, &mods));
}

#[test]
fn conflict_needs_two_true_expressions() {
    let mods: Vec<String> = vec!["a.esp".into(), "b.esp".into()];
    let rules: Vec<EWarningRule> = vec![
        Conflict::new("a vs b".into(), &[atom("a.esp"), atom("b.esp")]).into(),
        Conflict::new("b vs x".into(), &[atom("b.esp"), atom("x.esp")]).into(),
    ];
    let expected: Vec<String> = vec!["a vs b".into()];
    assert_eq!(expected, get_warnings(&rules, &mods));

    let one = Conflict::new("only one".into(), &[atom("a.esp")]);
    assert!(!one.eval(&mods));
    let three = Conflict::new(
        "two of three".into(),
        &[atom("x.esp"), atom("a.esp"), atom("b.esp")],
    );
    assert!(three.eval(&mods));
    let none = Conflict::new("none".into(), &[]);
    assert!(!none.eval(&mods));
}

#[test]
fn requires_holds_where_the_second_is_missing() {
    let mods: Vec<String> = vec!["a.esp".into(), "b.esp".into()];
    let rules: Vec<EWarningRule> = vec![
        Requires::new("a needs b".into(), atom("a.esp"), atom("b.esp")).into(),
        Requires::new("b needs x".into(), atom("b.esp"), atom("x.esp")).into(),
        Requires::new("x needs y".into(), atom("x.esp"), atom("y.esp")).into(),
    ];
    let expected: Vec<String> = vec!["b needs x".into()];
    assert_eq!(expected, get_warnings(&rules, &mods));
}

#[test]
fn patch_is_requires_either_way() {
    let mods: Vec<String> = vec!["a.esp".into(), "b.esp".into()];
    for (a, b) in [
        ("a.esp", "b.esp"),
        ("a.esp", "x.esp"),
        ("x.esp", "a.esp"),
        ("x.esp", "y.esp"),
    ] {
        let patch = Patch::new("p".into(), atom(a), atom(b));
        let forth = Requires::new("r".into(), atom(a), atom(b));
        let back = Requires::new("r".into(), atom(b), atom(a));
        assert_eq!(patch.eval(&mods), forth.eval(&mods) || back.eval(&mods));
    }
    assert!(!Patch::new("p".into(), atom("a.esp"), atom("b.esp")).eval(&mods));
    assert!(Patch::new("p".into(), atom("a.esp"), atom("x.esp")).eval(&mods));
    assert!(Patch::new("p".into(), atom("x.esp"), atom("a.esp")).eval(&mods));
    assert!(!Patch::new("p".into(), atom("x.esp"), atom("y.esp")).eval(&mods));
}

#[test]
fn rules_that_were_not_filled_in_do_not_hold() {
    let mods = mods();
    assert!(!Requires::default().eval(&mods));
    assert!(!Patch::default().eval(&mods));
    assert!(!Note::default().eval(&mods));
    assert!(!Conflict::default().eval(&mods));
    assert!(Order::default().names.is_empty());
    assert!(NearStart::default().names.is_empty());
    assert!(NearEnd::default().names.is_empty());
}

#[test]
fn comments_can_be_read_and_set() {
    let mut note = Note::new("first".into(), &[atom("a")]);
    assert_eq!("first", note.get_comment());
    note.set_comment("second".into());
    assert_eq!("second", note.get_comment());
    assert!(note.eval(&mods()));

    let mut rule: EWarningRule = Patch::new("p".into(), atom("a"), atom("x")).into();
    assert_eq!("p", rule.get_comment());
    rule.set_comment("q".into());
    assert_eq!("q", rule.get_comment());
    assert!(rule.eval(&mods()));
}

#[test]
fn note_with_nested_expressions() {
    let mods = mods();
    let nested: Expression = NOT::new(ANY::new(vec![atom("x"), atom("y")]).into()).into();
    let note = Note::new("n".into(), &[atom("x"), nested]);
    assert!(note.eval(&mods));
}

#[test]
fn order_rules_hold_their_names() {
    let order = Order::from("a.esp", "b.esp");
    assert_eq!(vec!["a.esp".to_owned(), "b.esp".to_owned()], order.names);
    let order = Order::new(vec!["x.esp".to_owned()]);
    assert_eq!(vec!["x.esp".to_owned()], order.names);
    let start = NearStart::new(vec!["s.esp".to_owned()]);
    assert_eq!(vec!["s.esp".to_owned()], start.names);
    let end = NearEnd::new(vec!["e.esp".to_owned()]);
    assert_eq!(vec!["e.esp".to_owned()], end.names);
}

#[test]
fn rules_convert_into_their_kinds() {
    let rule: ERule = Order::from("a", "b").into();
    assert!(matches!(rule, ERule::EOrderRule(EOrderRule::Order(_))));
    let rule: ERule = NearStart::new(vec![]).into();
    assert!(matches!(rule, ERule::EOrderRule(EOrderRule::NearStart(_))));
    let rule: ERule = NearEnd::new(vec![]).into();
    assert!(matches!(rule, ERule::EOrderRule(EOrderRule::NearEnd(_))));
    let rule: ERule = Note::default().into();
    assert!(matches!(rule, ERule::EWarningRule(EWarningRule::Note(_))));
    let rule: ERule = Conflict::default().into();
    assert!(matches!(rule, ERule::EWarningRule(EWarningRule::Conflict(_))));
    let rule: ERule = Requires::default().into();
    assert!(matches!(rule, ERule::EWarningRule(EWarningRule::Requires(_))));
    let rule: ERule = Patch::default().into();
    assert!(matches!(rule, ERule::EWarningRule(EWarningRule::Patch(_))));
    let rule: EOrderRule = Order::from("a", "b").into();
    let rule: ERule = rule.into();
    assert!(matches!(rule, ERule::EOrderRule(EOrderRule::Order(_))));
    let rule: EWarningRule = Note::default().into();
    let rule: ERule = rule.into();
    assert!(matches!(rule, ERule::EWarningRule(EWarningRule::Note(_))));
}

#[test]
fn clone_keeps_the_rule() {
    let rule: ERule = Requires::new("c".into(), atom("a"), atom("b")).into();
    assert_eq!(format!("{:?}", rule), format!("{:?}", rule.clone()));
    let rule: ERule = Order::from("a", "b").into();
    assert_eq!(format!("{:?}", rule), format!("{:?}", rule.clone()));
}
