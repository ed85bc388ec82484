use plox::expressions::{Atomic, Expression, ALL, ANY, DESC, NOT};

const A: &str = "a.esp";
const B: &str = "b.esp";
const C: &str = "c.esp";
const D: &str = "d.esp";
const E: &str = "e.esp";
const F: &str = "f.esp";
const X: &str = "x.esp";
const Y: &str = "y.esp";

fn e(str: &str) -> Expression {
    Atomic::from(str).into()
}

fn get_mods() -> Vec<String> {
    [A, B, C, D, E, F].iter().map(|e| (*e).into()).collect()
}

fn letters() -> Vec<String> {
    vec!["a", "b", "c", "d", "e", "f", "g"]
        .iter()
        .map(|e| (*e).into())
        .collect()
}

#[test]
fn evaluate_all() {
    // [ALL] is true if A and B are true
    {
        let expr = ALL::new(vec![e(A), e(B)]);
        assert!(expr.eval(&get_mods()));
    }

    // [ALL] is false if A is true and B is not true
    {
        let expr = ALL::new(vec![e(A), e(X)]);
        assert!(!expr.eval(&get_mods()));
    }

    // [ALL] is false if A is not true and B is true
    {
        let expr = ALL::new(vec![e(X), e(A)]);
        assert!(!expr.eval(&get_mods()));
    }

    // [ALL] is false if A is not true and B is not true
    {
        let expr = ALL::new(vec![e(X), e(Y)]);
        assert!(!expr.eval(&get_mods()));
    }
}

#[test]
fn evaluate_any() {
    // [ANY] is true if A and B are true
    {
        let expr = ANY::new(vec![e(A), e(B)]);
        assert!(expr.eval(&get_mods()));
    }

    // [ANY] is true if A is true and B is not true
    {
        let expr = ANY::new(vec![e(A), e(X)]);
        assert!(expr.eval(&get_mods()));
    }

    // [ANY] is true if A is not true and B is true
    {
        let expr = ANY::new(vec![e(X), e(A)]);
        assert!(expr.eval(&get_mods()));
    }

    // [ANY] is false if A is not true and B is not true
    {
        let expr = ANY::new(vec![e(X), e(Y)]);
        assert!(!expr.eval(&get_mods()));
    }
}

#[test]
fn evaluate_not() {
    // [NOT] is true if A is not true
    {
        let expr = NOT::new(e(X));
        assert!(expr.eval(&get_mods()));
    }

    // [NOT] is false if A is true
    {
        let expr = NOT::new(e(A));
        assert!(!expr.eval(&get_mods()));
    }
}

#[test]
fn evaluate_nested() {
    // check that (a and x) are not present in the modlist
    {
        let nested = ALL::new(vec![e(A), e(X)]);
        let expr = NOT::new(nested.into());
        assert!(expr.eval(&get_mods()));
    }
    // check that (a and b) are not present in the modlist
    {
        let nested = ALL::new(vec![e(A), e(B)]);
        let expr = NOT::new(nested.into());
        assert!(!expr.eval(&get_mods())); // should fail
    }

    // check that (a and b) are present and that either (x and y) are not present
    {
        let nested1 = ALL::new(vec![e(A), e(B)]);
        let nested2 = NOT::new(ANY::new(vec![e(X), e(Y)]).into());
        let expr = ALL::new(vec![nested1.into(), nested2.into()]);
        assert!(expr.eval(&get_mods()));
    }

    // check that (a and b) are present and that either (x and y) are present
    {
        let nested1 = ALL::new(vec![e(A), e(B)]);
        let nested2 = ANY::new(vec![e(A), e(Y)]);
        let expr = ALL::new(vec![nested1.into(), nested2.into()]);
        assert!(expr.eval(&get_mods()));
    }
}

#[test]
fn unit_expression_tests_evaluate_all() {
    let mods = letters();

    let mut expr = ALL::new(vec![Atomic::from("a").into(), Atomic::from("b").into()]);
    assert!(expr.eval(&mods));

    expr = ALL::new(vec![Atomic::from("a").into(), Atomic::from("x").into()]);
    assert!(!expr.eval(&mods));
}

#[test]
fn unit_expression_tests_evaluate_any() {
    let mods = letters();

    let mut expr = ANY::new(vec![Atomic::from("a").into(), Atomic::from("x").into()]);
    assert!(expr.eval(&mods));

    expr = ANY::new(vec![Atomic::from("y").into(), Atomic::from("x").into()]);
    assert!(!expr.eval(&mods));
}

#[test]
fn atomic_ignores_ascii_case_on_both_sides() {
    let mods: Vec<String> = vec!["Morrowind.ESM".to_owned(), "a.esp".to_owned()];
    assert!(Atomic::from("morrowind.esm").eval(&mods));
    assert!(Atomic::from("MORROWIND.esm").eval(&mods));
    assert!(Atomic::from("A.ESP").eval(&mods));
    assert!(!Atomic::from("b.esp").eval(&mods));
    let lower: Vec<String> = mods.iter().map(|m| m.to_ascii_lowercase()).collect();
    let upper: Vec<String> = mods.iter().map(|m| m.to_ascii_uppercase()).collect();
    for name in ["a.esp", "A.esp", "A.ESP", "x.esp", "X.ESP"] {
        let expected = Atomic::from(name).eval(&mods);
        assert_eq!(expected, Atomic::from(name).eval(&lower));
        assert_eq!(expected, Atomic::from(name).eval(&upper));
    }
}

#[test]
fn atomic_compares_letters_beyond_ascii_exactly() {
    let mods: Vec<String> = vec!["\u{e4}.esp".to_owned()];
    assert!(Atomic::from("\u{e4}.esp").eval(&mods));
    assert!(!Atomic::from("\u{c4}.esp").eval(&mods));
}

#[test]
fn atomic_on_empty_list_is_false() {
    let mods: Vec<String> = vec![];
    assert!(!Atomic::from("a.esp").eval(&mods));
}

#[test]
fn empty_all_is_true_and_empty_any_is_false() {
    assert!(ALL::new(vec![]).eval(&get_mods()));
    assert!(!ANY::new(vec![]).eval(&get_mods()));
}

#[test]
fn nested_expression_with_absent_mods_is_true() {
    // [ALL [a.esp] [NOT [ANY [x.esp] [y.esp]]]]
    let mods: Vec<String> = vec![A.to_owned(), B.to_owned()];
    let inner = NOT::new(ANY::new(vec![e(X), e(Y)]).into());
    let expr = ALL::new(vec![e(A), inner.into()]);
    assert!(expr.eval(&mods));
}

#[test]
fn desc_without_metadata_is_false() {
    let plain = DESC::new(e(A), "pattern".to_owned(), false);
    let negated = DESC::new(e(A), "pattern".to_owned(), true);
    assert!(!plain.eval(&get_mods()));
    assert!(!negated.eval(&get_mods()));
    let wrapped: Expression = DESC::new(e(A), "pattern".to_owned(), false).into();
    assert!(!wrapped.eval(&get_mods()));
    assert!(NOT::new(wrapped).eval(&get_mods()));
}

#[test]
fn desc_with_match_outcome() {
    let plain = DESC::new(e(A), "pattern".to_owned(), false);
    let negated = DESC::new(e(A), "pattern".to_owned(), true);
    let absent = DESC::new(e(X), "pattern".to_owned(), true);
    assert!(plain.eval_with(&get_mods(), Some(true)));
    assert!(!plain.eval_with(&get_mods(), Some(false)));
    assert!(!plain.eval_with(&get_mods(), None));
    assert!(!negated.eval_with(&get_mods(), Some(true)));
    assert!(negated.eval_with(&get_mods(), Some(false)));
    assert!(!negated.eval_with(&get_mods(), None));
    assert!(!absent.eval_with(&get_mods(), Some(false)));
}

#[test]
fn clone_keeps_the_expression() {
    let expr: Expression = ALL::new(vec![e(A), NOT::new(e(X)).into()]).into();
    let copy = expr.clone();
    assert_eq!(format!("{:?}", expr), format!("{:?}", copy));
    assert!(copy.eval(&get_mods()));
}

#[test]
fn atomic_keeps_its_name() {
    assert_eq!("My Mod.esp", Atomic::from("My Mod.esp").get_item());
    assert_eq!("b.esp", Atomic::new("b.esp".to_owned()).item);
    let from_string: Atomic = String::from("c.esp").into();
    assert_eq!("c.esp", from_string.get_item());
}
