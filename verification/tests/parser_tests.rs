use plox::expressions::Expression;
use plox::parser::{
    get_parser, new_cyberpunk_parser, new_openmw_parser, new_tes3_parser, parse_desc_input,
    parse_rule_expression, read_comment, rules_files, ESupportedGame, ParseError, Parser,
};
use plox::rule_parser::{parse_rules, read_file_as_list, split_chunks};
use plox::rules::{
    EOrderRule, ERule, EWarningRule, Note, Order, Requires, TParser, TWarningRule,
};

fn strings(items: &[&str]) -> Vec<String> {
    items.iter().map(|e| (*e).to_owned()).collect()
}

#[test]
fn test_parse_rule_expression() {
    {
        let inputs = [
            ("NOTE comment] more content.", "NOTE comment]"),
            ("NOTE] more content.", "NOTE]"),
            ("NOTE comment]", "NOTE comment]"),
            ("NOTE with [nested] comment]", "NOTE with [nested] comment]"),
            (
                "NOTE with [nested] comment] and more",
                "NOTE with [nested] comment]",
            ),
        ];

        for (input, expected) in inputs {
            assert_eq!(
                expected.to_owned(),
                parse_rule_expression(input).unwrap()
            );
        }
    }

    {
        let inputs = [
            ("NOTE comment[]"),
            ("NOTE comment[with] [[[[[broken scope]"),
        ];

        for input in inputs {
            assert!(parse_rule_expression(input).is_err())
        }
    }
}

#[test]
fn test_tokenize() {
    let parser = new_cyberpunk_parser();

    let inputs = [
        vec!["a.archive", "my e3.archive.archive"],
        vec![" a.archive", "\"mod with spaces.archive\"", "b.archive"],
        vec![" a.archive", "\"mod with spaces.archive\"", "\"c.archive\""],
        vec!["a mod with spaces.archive"],
        vec!["a.archive"],
    ];

    for input_vec in inputs {
        let input = input_vec.join(" ");
        let expected = input_vec
            .iter()
            .map(|f| f.trim().trim_matches('"').trim())
            .collect::<Vec<_>>();
        assert_eq!(expected, parser.tokenize(input.to_owned()).as_slice());
    }
}

#[test]
fn tokenize_takes_quoted_names_whole() {
    let parser = new_cyberpunk_parser();
    let tokens = parser.tokenize(" a.archive \"mod with spaces.archive\" b.archive".to_owned());
    assert_eq!(
        strings(&["a.archive", "mod with spaces.archive", "b.archive"]),
        tokens
    );
}

#[test]
fn tokenize_drops_the_comment() {
    let parser = new_tes3_parser();
    assert_eq!(
        strings(&["a.esp", "b.esm"]),
        parser.tokenize("a.esp b.esm ; c.esp".to_owned())
    );
    assert_eq!(
        strings(&["a.esp"]),
        parser.tokenize("a.esp  ;".to_owned())
    );
    assert!(parser.tokenize("; a.esp".to_owned()).is_empty());
    assert!(parser.tokenize("".to_owned()).is_empty());
}

#[test]
fn tokenize_keeps_white_space_inside_quotes() {
    let parser = new_tes3_parser();
    assert_eq!(
        strings(&["a.esp b.esp", "c.esp"]),
        parser.tokenize("\"a.esp b.esp\" c.esp".to_owned())
    );
    assert_eq!(strings(&[""]), parser.tokenize("\"\"".to_owned()));
}

#[test]
fn tokenize_does_not_judge_tokens() {
    let parser = new_tes3_parser();
    assert_eq!(
        strings(&["no extension here"]),
        parser.tokenize("no extension here".to_owned())
    );
    assert_eq!(
        strings(&["a.esp", ""]),
        parser.tokenize("a.esp  ".to_owned())
    );
}

#[test]
fn parsers_know_the_extensions_of_their_games() {
    assert_eq!(strings(&[".esp", ".esm"]), new_tes3_parser().ext);
    assert_eq!(
        strings(&[".esp", ".esm", ".omwaddon"]),
        new_openmw_parser().ext
    );
    assert_eq!(strings(&[".archive"]), new_cyberpunk_parser().ext);
    assert_eq!(ESupportedGame::Morrowind, get_parser(ESupportedGame::Morrowind).game);
    assert_eq!(
        strings(&[".esp", ".esm", ".omwaddon"]),
        get_parser(ESupportedGame::OpenMorrowind).ext
    );
    assert_eq!(
        strings(&[".archive"]),
        get_parser(ESupportedGame::Cyberpunk).ext
    );
    let parser = Parser::new(strings(&[".pak"]), ESupportedGame::Cyberpunk);
    assert_eq!(strings(&[".pak"]), parser.ext);
    assert!(parser.rules.is_empty());
    assert!(parser.order_rules.is_empty());
}

#[test]
fn rules_files_of_the_games() {
    assert_eq!(
        strings(&["mlox_base.txt", "mlox_user.txt", "mlox_my_rules.txt"]),
        rules_files(ESupportedGame::Morrowind)
    );
    assert_eq!(
        strings(&["mlox_base.txt", "mlox_user.txt", "mlox_my_rules.txt"]),
        rules_files(ESupportedGame::OpenMorrowind)
    );
    assert_eq!(
        strings(&["plox_base.txt", "plox_my_rules.txt"]),
        rules_files(ESupportedGame::Cyberpunk)
    );
}

#[test]
fn ends_with_an_extension() {
    let parser = new_openmw_parser();
    assert!(parser.ends_with_vec("a.esp"));
    assert!(parser.ends_with_vec("a.esm"));
    assert!(parser.ends_with_vec("a.omwaddon"));
    assert!(parser.ends_with_vec(".esp"));
    assert!(!parser.ends_with_vec("a.archive"));
    assert!(!parser.ends_with_vec("a.esp "));
    assert!(!parser.ends_with_vec("esp"));
    assert!(!parser.ends_with_vec(""));
    assert!(parser.ends_with_vec_whitespace("a.esp "));
    assert!(!parser.ends_with_vec_whitespace("a.esp\n"));
    assert!(!parser.ends_with_vec_whitespace("a.esp"));
    assert!(parser.ends_with_vec2_whitespace_or_newline("a.esp "));
    assert!(parser.ends_with_vec2_whitespace_or_newline("a.esp\n"));
    assert!(!parser.ends_with_vec2_whitespace_or_newline("a.esp\t"));
}

fn debug(e: &Expression) -> String {
    format!("{:?}", e)
}

#[test]
fn parse_expression_of_a_name() {
    let parser = new_tes3_parser();
    match parser.parse_expression("my mod.esp").unwrap() {
        Expression::Atomic(a) => assert_eq!("my mod.esp", a.item),
        other => panic!("not an atomic: {:?}", other),
    }
    assert_eq!(
        Err(ParseError::NotAnAtomic),
        parser.parse_expression("a.archive").map(|e| debug(&e))
    );
    assert_eq!(
        Err(ParseError::NotAnAtomic),
        parser.parse_expression("").map(|e| debug(&e))
    );
}

#[test]
fn parse_expression_of_the_operators() {
    let parser = new_tes3_parser();
    let mods = strings(&["a.esp", "b.esp"]);

    let any = parser.parse_expression("[any a.esp x.esp]").unwrap();
    assert!(matches!(&any, Expression::ANY(x) if x.expressions.len() == 2));
    assert!(any.eval(&mods));

    let all = parser.parse_expression("[ALL a.esp x.esp]").unwrap();
    assert!(matches!(&all, Expression::ALL(x) if x.expressions.len() == 2));
    assert!(!all.eval(&mods));

    let not = parser.parse_expression("[Not x.esp]").unwrap();
    assert!(matches!(&not, Expression::NOT(_)));
    assert!(not.eval(&mods));

    // NOT takes the last expression of its body
    let not = parser.parse_expression("[not a.esp x.esp]").unwrap();
    assert!(not.eval(&mods));
}

#[test]
fn parse_nested_expressions() {
    let parser = new_tes3_parser();
    let mods = strings(&["a.esp", "b.esp"]);
    let found = parser
        .parse_expressions("[ALL [a.esp] [NOT [ANY [x.esp] [y.esp]]]]")
        .map(|v| v.len());
    // a name in brackets is no expression: names stand bare
    assert_eq!(Err(ParseError::UnknownExpression), found);
    let expr = parser
        .parse_expression("[ALL a.esp [NOT [ANY x.esp y.esp]]]")
        .unwrap();
    assert!(expr.eval(&mods));
    let expr = parser
        .parse_expression("[all a.esp [not [any x.esp b.esp]]]")
        .unwrap();
    assert!(!expr.eval(&mods));
}

#[test]
fn parser_rejects_operators_without_operands() {
    let parser = new_tes3_parser();
    for input in ["[any]", "[all]", "[ANY ]", "[ALL   ]", "[not]", "[desc /x/]"] {
        assert_eq!(
            Err(ParseError::UnknownExpression),
            parser.parse_expression(input).map(|e| debug(&e)),
            "{}",
            input
        );
    }
    // and so for an operator deep inside
    assert_eq!(
        Err(ParseError::UnknownExpression),
        parser
            .parse_expression("[all a.esp [not [any]]]")
            .map(|e| debug(&e))
    );
}

#[test]
fn parser_rejects_what_is_no_expression() {
    let parser = new_tes3_parser();
    for input in ["[xor a.esp b.esp]", "[any a.esp", "[", "[]", "[an]"] {
        assert_eq!(
            Err(ParseError::UnknownExpression),
            parser.parse_expression(input).map(|e| debug(&e)),
            "{}",
            input
        );
    }
    assert_eq!(
        Err(ParseError::NotAnAtomic),
        parser
            .parse_expression("[any a.esp b.txt]")
            .map(|e| debug(&e))
    );
}

#[test]
fn parse_expression_of_desc() {
    let parser = new_tes3_parser();
    match parser.parse_expression("[desc /some text/ a.esp]").unwrap() {
        Expression::DESC(d) => {
            assert_eq!("some text", d.description);
            assert!(!d.is_negated);
            assert!(matches!(&*d.expression, Expression::Atomic(a) if a.item == "a.esp"));
        }
        other => panic!("not a desc: {:?}", other),
    }
    match parser.parse_expression("[DESC !/a/b/ a.esp]").unwrap() {
        Expression::DESC(d) => {
            assert_eq!("a/b", d.description);
            assert!(d.is_negated);
        }
        other => panic!("not a desc: {:?}", other),
    }
    assert_eq!(
        Err(ParseError::UnknownExpression),
        parser
            .parse_expression("[desc /only one a.esp]")
            .map(|e| debug(&e))
    );
    assert_eq!(
        Err(ParseError::UnknownExpression),
        parser
            .parse_expression("[desc no pattern a.esp]")
            .map(|e| debug(&e))
    );
}

#[test]
fn desc_input_is_split_at_the_outer_slashes() {
    assert_eq!(
        Some(("regex".to_owned(), false, "a.esp".to_owned())),
        parse_desc_input("/regex/ a.esp")
    );
    assert_eq!(
        Some(("regex".to_owned(), true, "a.esp".to_owned())),
        parse_desc_input("!/regex/ a.esp")
    );
    assert_eq!(
        Some(("a / b".to_owned(), false, "".to_owned())),
        parse_desc_input("x / a / b /")
    );
    assert_eq!(None, parse_desc_input("/"));
    assert_eq!(None, parse_desc_input("no slash"));
}

#[test]
fn parse_expressions_splits_at_extensions_and_brackets() {
    let parser = new_tes3_parser();
    let found = parser
        .parse_expressions("a.esp [any b.esp c.esp]\nmy mod.esm\n  d.esp")
        .unwrap();
    assert_eq!(4, found.len());
    assert!(matches!(&found[0], Expression::Atomic(a) if a.item == "a.esp"));
    assert!(matches!(&found[1], Expression::ANY(_)));
    assert!(matches!(&found[2], Expression::Atomic(a) if a.item == "my mod.esm"));
    assert!(matches!(&found[3], Expression::Atomic(a) if a.item == "d.esp"));
    assert!(parser.parse_expressions("").unwrap().is_empty());
    assert!(parser.parse_expressions("  \n ").unwrap().is_empty());
    assert_eq!(
        Err(ParseError::NotAnAtomic),
        parser.parse_expressions("a.esp b.txt").map(|v| v.len())
    );
}

#[test]
fn comment_at_the_start_of_a_body() {
    assert_eq!(None, read_comment("a.esp\n b.esp"));
    assert_eq!(None, read_comment(""));
    assert_eq!(
        Some(("a comment".to_owned(), 12)),
        read_comment("  a comment\na.esp")
    );
    assert_eq!(
        Some(("onetwo".to_owned(), 10)),
        read_comment(" one\n\ttwo\nrest")
    );
    assert_eq!(Some(("end".to_owned(), 4)), read_comment(" end"));
}

fn parse_one(parser: &Parser, chunk: &str) -> Result<String, ParseError> {
    parser.parse_chunk(chunk).map(|r| format!("{:?}", r))
}

#[test]
fn chunk_must_start_with_a_bracket() {
    let parser = new_tes3_parser();
    assert_eq!(Err(ParseError::UnexpectedEnd), parse_one(&parser, ""));
    assert_eq!(
        Err(ParseError::NotARuleStart),
        parse_one(&parser, "order]\na.esp\nb.esp\n")
    );
    assert_eq!(
        Err(ParseError::NotARuleStart),
        parse_one(&parser, "\u{5b5}[order]\na.esp\nb.esp\n")
    );
    assert_eq!(
        Err(ParseError::UnknownRule),
        parse_one(&parser, "[order\na.esp\nb.esp\n")
    );
    assert_eq!(
        Err(ParseError::UnknownRule),
        parse_one(&parser, "[sort]\na.esp\nb.esp\n")
    );
}

#[test]
fn chunk_of_an_order_rule() {
    let parser = new_tes3_parser();
    match parser.parse_chunk("[order]\na.esp\nb.esp ; why\n\"c d.esp\"\n").unwrap() {
        ERule::EOrderRule(EOrderRule::Order(o)) => {
            assert_eq!(strings(&["a.esp", "b.esp", "c d.esp"]), o.names)
        }
        other => panic!("not an order rule: {:?}", other),
    }
    assert_eq!(
        Err(ParseError::MalformedOrder),
        parse_one(&parser, "[order]\na.esp\n")
    );
    assert_eq!(
        Err(ParseError::TokenizeFailed),
        parse_one(&parser, "[order]\na.esp\nb.txt\n")
    );
    match parser.parse_chunk("[nearstart]\na.esp\n").unwrap() {
        ERule::EOrderRule(EOrderRule::NearStart(o)) => assert_eq!(strings(&["a.esp"]), o.names),
        other => panic!("not a nearstart rule: {:?}", other),
    }
    match parser.parse_chunk("[NearEnd]\na.esp b.esp\n").unwrap() {
        ERule::EOrderRule(EOrderRule::NearEnd(o)) => {
            assert_eq!(strings(&["a.esp", "b.esp"]), o.names)
        }
        other => panic!("not a nearend rule: {:?}", other),
    }
}

#[test]
fn chunk_of_a_note() {
    let parser = new_tes3_parser();
    match parser.parse_chunk("[note with [nested] text]\na.esp\n[any b.esp c.esp]\n").unwrap() {
        ERule::EWarningRule(EWarningRule::Note(n)) => {
            assert_eq!("with [nested] text", n.comment);
            assert_eq!(2, n.expressions.len());
        }
        other => panic!("not a note: {:?}", other),
    }
    assert_eq!(
        Err(ParseError::MalformedNote),
        parse_one(&parser, "[note nothing]\n; a.esp\n")
    );
    assert_eq!(
        Err(ParseError::MalformedConflict),
        parse_one(&parser, "[conflict]\n")
    );
    assert_eq!(
        Err(ParseError::NotAnAtomic),
        parse_one(&parser, "[note]\nb.txt\n")
    );
}

#[test]
fn chunk_with_a_comment_in_its_first_lines() {
    let parser = new_tes3_parser();
    match parser.parse_chunk("[note]\n  this is\n  a comment\na.esp\n").unwrap() {
        ERule::EWarningRule(EWarningRule::Note(n)) => {
            assert_eq!("this is  a comment", n.comment);
            assert_eq!(1, n.expressions.len());
        }
        other => panic!("not a note: {:?}", other),
    }
    match parser.parse_chunk("[conflict short]\n and more\na.esp\nb.esp\n").unwrap() {
        ERule::EWarningRule(EWarningRule::Conflict(c)) => {
            assert_eq!("short and more", c.comment);
            assert_eq!(2, c.expressions.len());
        }
        other => panic!("not a conflict: {:?}", other),
    }
}

#[test]
fn chunk_of_requires_and_patch() {
    let parser = new_tes3_parser();
    let mods = strings(&["a.esp"]);
    match parser.parse_chunk("[requires a needs b]\na.esp\nb.esp\n").unwrap() {
        ERule::EWarningRule(w) => {
            assert!(matches!(&w, EWarningRule::Requires(_)));
            assert_eq!("a needs b", w.get_comment());
            assert!(w.eval(&mods));
        }
        other => panic!("not a warning rule: {:?}", other),
    }
    match parser.parse_chunk("[patch]\na.esp b.esp\n").unwrap() {
        ERule::EWarningRule(w) => {
            assert!(matches!(&w, EWarningRule::Patch(_)));
            assert!(w.eval(&mods));
        }
        other => panic!("not a warning rule: {:?}", other),
    }
    assert_eq!(
        Err(ParseError::MalformedRequires),
        parse_one(&parser, "[requires]\na.esp\n")
    );
    assert_eq!(
        Err(ParseError::MalformedRequires),
        parse_one(&parser, "[requires]\na.esp\nb.esp\nc.esp\n")
    );
    assert_eq!(
        Err(ParseError::MalformedPatch),
        parse_one(&parser, "[patch]\na.esp\n")
    );
}

#[test]
fn parse_of_a_rule_body_fills_the_rule() {
    let parser = new_tes3_parser();
    let mut order = Order::default();
    assert_eq!(Ok(()), Order::parse(&mut order, "a.esp\nb.esp", &parser));
    assert_eq!(strings(&["a.esp", "b.esp"]), order.names);
    let mut order = Order::default();
    assert_eq!(
        Err(ParseError::MalformedOrder),
        Order::parse(&mut order, "a.esp", &parser)
    );
    assert_eq!(strings(&["a.esp"]), order.names);

    let mut note = Note::default();
    assert_eq!(
        Ok(()),
        Note::parse(&mut note, " said here\na.esp", &parser)
    );
    assert_eq!("said here", note.comment);
    assert_eq!(1, note.expressions.len());

    let mut requires = Requires::default();
    requires.set_comment("kept".to_owned());
    assert_eq!(
        Ok(()),
        Requires::parse(&mut requires, "a.esp b.esp", &parser)
    );
    assert_eq!("kept", requires.comment);
    assert!(requires.expression_a.is_some());
    assert!(requires.expression_b.is_some());
}

#[test]
fn document_is_split_at_blank_lines() {
    let text = "; a comment\n[Order]\nA.esp\n  ; another\nB.esp\n\n\n[Note]\n x\nC.esp";
    let chunks = split_chunks(text);
    assert_eq!(2, chunks.len());
    assert_eq!("[order]\na.esp\nb.esp\n", chunks[0].data);
    assert_eq!(2, chunks[0].info);
    assert_eq!("[note]\n x\nc.esp\n", chunks[1].data);
    assert_eq!(8, chunks[1].info);
    assert!(split_chunks("").is_empty());
    assert!(split_chunks("\n\n ; only a comment\n").is_empty());
}

#[test]
fn document_with_a_malformed_rule() {
    let parser = new_tes3_parser();
    let text = "[Order]\nA.esp\nB.esp\n\n[Bogus]\nA.esp\n\n[Note hello]\nA.esp\n\n[Order]\nlonely.esp\n";
    let rules = parser.parse_rules_from_reader(text);
    assert_eq!(2, rules.len());
    assert!(matches!(&rules[0], ERule::EOrderRule(EOrderRule::Order(o)) if o.names == strings(&["a.esp", "b.esp"])));
    assert!(matches!(&rules[1], ERule::EWarningRule(EWarningRule::Note(n)) if n.comment == "hello"));
    assert_eq!(2, parse_rules(ESupportedGame::Morrowind, text).len());
    assert_eq!(0, parse_rules(ESupportedGame::Cyberpunk, text).len());
    assert!(parser.parse_rules_from_reader("").is_empty());
}

#[test]
fn init_reads_the_documents_in_order() {
    let mut parser = new_tes3_parser();
    let base = "[Order]\na.esp\nb.esp\n\n[Note base]\na.esp\n".to_owned();
    let user = "[Conflict user]\na.esp\nb.esp\n\n[NearStart]\nc.esp\n".to_owned();
    parser.init(&vec![base.clone(), user]);
    assert_eq!(2, parser.order_rules.len());
    assert_eq!(2, parser.rules.len());
    assert!(matches!(&parser.order_rules[0], EOrderRule::Order(_)));
    assert!(matches!(&parser.order_rules[1], EOrderRule::NearStart(_)));
    assert_eq!("base", parser.rules[0].get_comment());
    assert_eq!("user", parser.rules[1].get_comment());
    assert_eq!(ESupportedGame::Morrowind, parser.game);
    assert_eq!(strings(&[".esp", ".esm"]), parser.ext);
    // reading again forgets what was read before
    parser.init(&vec![base]);
    assert_eq!(1, parser.order_rules.len());
    assert_eq!(1, parser.rules.len());
    parser.init(&vec![]);
    assert!(parser.order_rules.is_empty());
    assert!(parser.rules.is_empty());
}

#[test]
fn lines_of_a_file() {
    assert_eq!(
        strings(&["a.esp", "b.esp", "", "c.esp"]),
        read_file_as_list("a.esp\r\nb.esp\n\nc.esp")
    );
    assert_eq!(strings(&["a\r"]), read_file_as_list("a\r"));
    assert!(read_file_as_list("").is_empty());
    assert_eq!(strings(&[""]), read_file_as_list("\n"));
}

#[test]
fn errors_have_messages() {
    assert_eq!(
        "Parsing error: unknown rule",
        ParseError::UnknownRule.message()
    );
    assert_eq!(
        "Parsing error: Not a rule start",
        ParseError::NotARuleStart.message()
    );
    assert_eq!(
        "Parsing error: unknown expression",
        ParseError::UnknownExpression.message()
    );
    assert_eq!(
        "Parsing error: Not an atomic",
        ParseError::NotAnAtomic.message()
    );
    assert_eq!(
        "Parsing error: tokenize failed",
        ParseError::TokenizeFailed.message()
    );
    assert_eq!(
        "Malformed Order rule: less than 2 expressions",
        ParseError::MalformedOrder.message()
    );
}
