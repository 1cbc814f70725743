use lbnf::grammar::{Cat, Def, Exp, Grammar, Ident, Item, Label, Mode};
use lbnf::parse;

fn id(s: &str) -> Ident {
    Ident(s.to_string())
}

fn sample_grammar() -> Grammar {
    Grammar {
        definitions: vec![
            Def::Rule(
                Label::Id(id("EAdd")),
                Cat::IdCat(id("Exp")),
                vec![
                    Item::NTerminal(Cat::IdCat(id("Exp"))),
                    Item::Terminal("+".to_string()),
                    Item::NTerminal(Cat::IdCat(id("Exp"))),
                ],
            ),
            Def::Rule(
                Label::ListCons,
                Cat::ListCat(Box::new(Cat::IdCat(id("Stm")))),
                vec![
                    Item::NTerminal(Cat::IdCat(id("Stm"))),
                    Item::Terminal(";".to_string()),
                    Item::NTerminal(Cat::ListCat(Box::new(Cat::IdCat(id("Stm"))))),
                ],
            ),
            Def::Rule(Label::Wild, Cat::IdCat(id("E")), vec![]),
            Def::Macro(
                id("m"),
                Exp::Cons(
                    Box::new(Exp::Or(
                        Box::new(Exp::Var(id("x"))),
                        Box::new(Exp::LitInt(-7)),
                    )),
                    Box::new(Exp::App(
                        id("f"),
                        vec![
                            Exp::List(vec![Exp::LitChar('q'), Exp::LitString("say \"hi\"".to_string())]),
                            Exp::Many0(Box::new(Exp::Many1(Box::new(Exp::Var(id("d")))))),
                            Exp::LitDouble(5.5f64.to_string()),
                        ],
                    )),
                ),
            ),
        ],
    }
}

#[test]
fn round_trips_sample_grammar_compact() {
    let g = sample_grammar();
    let text = g.print(Mode::Compact);
    assert_eq!(parse(&text), Ok(sample_grammar()));
}

#[test]
fn round_trips_sample_grammar_pretty() {
    let g = sample_grammar();
    let text = g.print(Mode::Pretty);
    assert_eq!(parse(&text), Ok(sample_grammar()));
}

#[test]
fn round_trips_simple_rule() {
    let text = "EAdd. Exp ::= Exp \"+\" Exp ;";
    let g = parse(text).unwrap();
    assert_eq!(
        g,
        Grammar {
            definitions: vec![Def::Rule(
                Label::Id(id("EAdd")),
                Cat::IdCat(id("Exp")),
                vec![
                    Item::NTerminal(Cat::IdCat(id("Exp"))),
                    Item::Terminal("+".to_string()),
                    Item::NTerminal(Cat::IdCat(id("Exp"))),
                ],
            )],
        }
    );
    assert_eq!(g.print(Mode::Compact), text);
}

#[test]
fn clones_are_deep_and_equal() {
    let g = sample_grammar();
    let copy = g.clone();
    assert_eq!(copy, g);
    assert_eq!(copy.print(Mode::Pretty), g.print(Mode::Pretty));
}

#[test]
fn round_trips_empty_grammar() {
    assert_eq!(parse(""), Ok(Grammar { definitions: vec![] }));
    assert_eq!(parse("  \n\t "), Ok(Grammar { definitions: vec![] }));
}

#[test]
fn printing_is_idempotent_through_parsing_compact() {
    let first = sample_grammar().print(Mode::Compact);
    let second = parse(&first).unwrap().print(Mode::Compact);
    assert_eq!(first, second);
}

#[test]
fn printing_is_idempotent_through_parsing_pretty() {
    let first = sample_grammar().print(Mode::Pretty);
    let second = parse(&first).unwrap().print(Mode::Pretty);
    assert_eq!(first, second);
}

#[test]
fn parses_with_free_whitespace() {
    let text = "\n   EAdd.  Exp ::= Exp \"+\" Exp ;\n   EInt.  Exp ::= Integer     ;\n";
    let g = parse(text).unwrap();
    assert_eq!(g.definitions.len(), 2);
    assert_eq!(
        g.print(Mode::Pretty),
        "EAdd. Exp ::= Exp \"+\" Exp ;\nEInt. Exp ::= Integer ;\n"
    );
}

#[test]
fn round_trips_integer_extremes() {
    for text in ["m -9223372036854775808 ;", "m 9223372036854775807 ;", "m 0 ;"] {
        let g = parse(text).unwrap();
        assert_eq!(g.print(Mode::Compact), text);
    }
    let g = parse("m -9223372036854775808 ;").unwrap();
    assert_eq!(
        g.definitions[0],
        Def::Macro(id("m"), Exp::LitInt(i64::MIN))
    );
}

#[test]
fn round_trips_doubles_and_keeps_their_dot() {
    let g = parse("m 5.25 ;").unwrap();
    assert_eq!(g.definitions[0], Def::Macro(id("m"), Exp::LitDouble("5.25".to_string())));
    assert_eq!(g.print(Mode::Compact), "m 5.25 ;");
    let g2 = parse("m -0.5 ;").unwrap();
    assert_eq!(g2.print(Mode::Compact), "m -0.5 ;");
}

#[test]
fn round_trips_quote_char_literal() {
    let g = parse("m ''' ;").unwrap();
    assert_eq!(g.definitions[0], Def::Macro(id("m"), Exp::LitChar('\'')));
    assert_eq!(g.print(Mode::Compact), "m ''' ;");
}

#[test]
fn round_trips_all_label_forms() {
    let text = "_. E ::= E ;[]. L ::= ;(:). L ::= E L ;(:[]). L ::= E ;Head. E ::= \"x\" ;";
    let g = parse(text).unwrap();
    assert_eq!(g.print(Mode::Compact), text);
    assert!(matches!(g.definitions[0], Def::Rule(Label::Wild, _, _)));
    assert!(matches!(g.definitions[1], Def::Rule(Label::ListE, _, _)));
    assert!(matches!(g.definitions[2], Def::Rule(Label::ListCons, _, _)));
    assert!(matches!(g.definitions[3], Def::Rule(Label::ListOne, _, _)));
}

#[test]
fn round_trips_nested_list_categories() {
    let text = "x. [[Foo]] ::= [Foo] ;";
    let g = parse(text).unwrap();
    assert_eq!(
        g.definitions[0],
        Def::Rule(
            Label::Id(id("x")),
            Cat::ListCat(Box::new(Cat::ListCat(Box::new(Cat::IdCat(id("Foo")))))),
            vec![Item::NTerminal(Cat::ListCat(Box::new(Cat::IdCat(id("Foo")))))],
        )
    );
    assert_eq!(g.print(Mode::Compact), text);
}

#[test]
fn passes_backslashes_through_string_literals() {
    let text = "x. E ::= \"a\\b\" ;";
    let g = parse(text).unwrap();
    assert_eq!(
        g.definitions[0],
        Def::Rule(
            Label::Id(id("x")),
            Cat::IdCat(id("E")),
            vec![Item::Terminal("a\\b".to_string())],
        )
    );
    assert_eq!(g.print(Mode::Compact), text);
}

#[test]
fn concatenated_compound_expressions_do_not_merge() {
    let text = "m ((a : b) : ((c) | (d))) ;";
    let g = parse(text).unwrap();
    assert_eq!(
        g.definitions[0],
        Def::Macro(
            id("m"),
            Exp::Cons(
                Box::new(Exp::Cons(
                    Box::new(Exp::Var(id("a"))),
                    Box::new(Exp::Var(id("b"))),
                )),
                Box::new(Exp::Or(
                    Box::new(Exp::Var(id("c"))),
                    Box::new(Exp::Var(id("d"))),
                )),
            ),
        )
    );
    assert_eq!(g.print(Mode::Compact), text);
}
