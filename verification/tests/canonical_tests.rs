use plox::expressions::{Atomic, Expression, ALL, ANY, DESC, NOT};
use plox::parser::{new_cyberpunk_parser, new_tes3_parser};
use plox::rules::{
    Conflict, ERule, NearEnd, NearStart, Note, Order, Patch, Requires,
};

fn atom(name: &str) -> Expression {
    Atomic::from(name).into()
}

fn strings(items: &[&str]) -> Vec<String> {
    items.iter().map(|e| (*e).to_owned()).collect()
}

#[test]
fn text_of_expressions() {
    assert_eq!("a.esp", atom("a.esp").to_text());
    let all: Expression = ALL::new(vec![atom("a.esp"), atom("my mod.esm")]).into();
    assert_eq!("[all a.esp my mod.esm]", all.to_text());
    let any: Expression = ANY::new(vec![atom("a.esp")]).into();
    assert_eq!("[any a.esp]", any.to_text());
    let not: Expression = NOT::new(any).into();
    assert_eq!("[not [any a.esp]]", not.to_text());
    let desc: Expression = DESC::new(atom("a.esp"), "some text".to_owned(), false).into();
    assert_eq!("[desc /some text/ a.esp]", desc.to_text());
    let desc: Expression = DESC::new(not, "x".to_owned(), true).into();
    assert_eq!("[desc !/x/ [not [any a.esp]]]", desc.to_text());
    let empty: Expression = ALL::new(vec![]).into();
    assert_eq!("[all ]", empty.to_text());
}

fn sample_expressions() -> Vec<Expression> {
    vec![
        atom("a.esp"),
        atom("my mod with spaces.esm"),
        ALL::new(vec![atom("a.esp"), atom("b.esp")]).into(),
        ANY::new(vec![atom("a.esp")]).into(),
        NOT::new(atom("x.esp")).into(),
        ALL::new(vec![
            NOT::new(ANY::new(vec![atom("x.esp"), atom("y y.esp")]).into()).into(),
            atom("a.esp"),
            ANY::new(vec![atom("b.esp"), NOT::new(atom("c.esm")).into()]).into(),
            atom("d.esp"),
        ])
        .into(),
        DESC::new(atom("a.esp"), "nice pattern".to_owned(), false).into(),
        DESC::new(
            ALL::new(vec![atom("a.esp"), NOT::new(atom("b.esp")).into()]).into(),
            "".to_owned(),
            true,
        )
        .into(),
        NOT::new(DESC::new(atom("a.esp"), "p".to_owned(), true).into()).into(),
    ]
}

#[test]
fn parsing_the_text_of_an_expression_gives_it_back() {
    let parser = new_tes3_parser();
    for e in sample_expressions() {
        let text = e.to_text();
        let parsed = parser.parse_expression(&text).unwrap();
        assert_eq!(format!("{:?}", e), format!("{:?}", parsed), "{}", text);
        assert_eq!(text, parsed.to_text());
    }
}

#[test]
fn writing_and_parsing_again_changes_nothing() {
    let parser = new_tes3_parser();
    for input in [
        "[ANY   a.esp\n b.esp ]",
        "[Not   [ALL a.esp [any b.esp]]]",
        "[DESC   /x y/   a.esp]",
        "some mod.esm",
    ] {
        let once = parser.parse_expression(input).unwrap();
        let twice = parser.parse_expression(&once.to_text()).unwrap();
        assert_eq!(format!("{:?}", once), format!("{:?}", twice), "{}", input);
    }
}

fn sample_rules() -> Vec<ERule> {
    vec![
        Order::new(strings(&["a.esp", "my mod.esm", "c.esp"])).into(),
        Order::from("a.esp", "b.esp").into(),
        NearStart::new(strings(&["a.esp"])).into(),
        NearStart::new(vec![]).into(),
        NearEnd::new(strings(&["a b c.esp", "d.esm"])).into(),
        Note::new("a comment, with text".to_owned(), &[atom("a.esp")]).into(),
        Note::new(
            "".to_owned(),
            &[
                atom("a.esp"),
                ALL::new(vec![atom("b.esp"), NOT::new(atom("c.esp")).into()]).into(),
            ],
        )
        .into(),
        Conflict::new("one; two".to_owned(), &[atom("a.esp"), atom("b b.esp")]).into(),
        Requires::new(
            "needs".to_owned(),
            atom("a.esp"),
            ANY::new(vec![atom("b.esp"), atom("c.esp")]).into(),
        )
        .into(),
        Patch::new("".to_owned(), atom("patch.esp"), atom("patched.esm")).into(),
    ]
}

#[test]
fn text_of_rules() {
    let order: ERule = Order::from("a.esp", "b.esp").into();
    assert_eq!("[order ]\na.esp\nb.esp\n", order.to_text());
    let note: ERule = Note::new("hello".to_owned(), &[atom("a.esp")]).into();
    assert_eq!("[note hello]\na.esp\n", note.to_text());
    let requires: ERule = Requires::new("r".to_owned(), atom("a.esp"), atom("b.esp")).into();
    assert_eq!("[requires r]\na.esp\nb.esp\n", requires.to_text());
    let empty: ERule = Patch::default().into();
    assert_eq!("[patch ]\n", empty.to_text());
    let near: ERule = NearEnd::new(vec![]).into();
    assert_eq!("[nearend ]\n", near.to_text());
}

#[test]
fn parsing_the_text_of_a_rule_gives_it_back() {
    let parser = new_tes3_parser();
    for rule in sample_rules() {
        let text = rule.to_text();
        let parsed = parser.parse_chunk(&text).unwrap();
        assert_eq!(format!("{:?}", rule), format!("{:?}", parsed), "{}", text);
        assert_eq!(text, parsed.to_text());
    }
}

#[test]
fn parsing_the_text_of_a_document_of_rules_gives_them_back() {
    let parser = new_tes3_parser();
    let rules = sample_rules();
    let mut document = String::new();
    for rule in &rules {
        document.push_str(&rule.to_text());
        document.push('\n');
    }
    let parsed = parser.parse_rules_from_reader(&document);
    assert_eq!(format!("{:?}", rules), format!("{:?}", parsed));
}

#[test]
fn text_of_a_rule_for_another_game() {
    let parser = new_cyberpunk_parser();
    let rule: ERule = Order::new(strings(&["a.archive", "b mod.archive"])).into();
    let parsed = parser.parse_chunk(&rule.to_text()).unwrap();
    assert_eq!(format!("{:?}", rule), format!("{:?}", parsed));
    // the names of another game are no names here
    let rule: ERule = Order::new(strings(&["a.esp", "b.esp"])).into();
    assert!(parser.parse_chunk(&rule.to_text()).is_err());
}
