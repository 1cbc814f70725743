use lbnf::grammar::{Cat, Def, Exp, Grammar, Ident, Item, Label, Mode};
use lbnf::printer::{escape_quotes, join_slice};

fn id(s: &str) -> Ident {
    Ident(s.to_string())
}

#[test]
fn prints_simple_rule_compact() {
    let g = Grammar {
        definitions: vec![Def::Rule(
            Label::Id(id("EAdd")),
            Cat::IdCat(id("Exp")),
            vec![
                Item::NTerminal(Cat::IdCat(id("Exp"))),
                Item::Terminal("+".to_string()),
                Item::NTerminal(Cat::IdCat(id("Exp"))),
            ],
        )],
    };
    assert_eq!(g.print(Mode::Compact), "EAdd. Exp ::= Exp \"+\" Exp ;");
}

#[test]
fn prints_simple_rule_pretty() {
    let g = Grammar {
        definitions: vec![Def::Rule(
            Label::Id(id("EAdd")),
            Cat::IdCat(id("Exp")),
            vec![
                Item::NTerminal(Cat::IdCat(id("Exp"))),
                Item::Terminal("+".to_string()),
                Item::NTerminal(Cat::IdCat(id("Exp"))),
            ],
        )],
    };
    assert_eq!(g.print(Mode::Pretty), "EAdd. Exp ::= Exp \"+\" Exp ;\n");
}

#[test]
fn prints_macro_with_many1() {
    let d = Def::Macro(id("digits"), Exp::Many1(Box::new(Exp::Var(id("digit")))));
    assert_eq!(d.print(), "digits ((digit)+) ;");
}

#[test]
fn prints_double_with_dot_from_integral_value() {
    let five = Exp::LitDouble(5.0f64.to_string());
    assert_eq!(five.print(), "5.0");
    assert_ne!(five.print(), "5");
}

#[test]
fn prints_double_with_fraction() {
    let e = Exp::LitDouble(5.25f64.to_string());
    assert_eq!(e.print(), "5.25");
}

#[test]
fn prints_negative_double() {
    let e = Exp::LitDouble((-0.5f64).to_string());
    assert_eq!(e.print(), "-0.5");
}

#[test]
fn prints_terminal_with_escaped_quotes() {
    let it = Item::Terminal("say \"hi\"".to_string());
    assert_eq!(it.print(), "\"say \\\"hi\\\"\"");
}

#[test]
fn prints_nested_list_category() {
    let c = Cat::ListCat(Box::new(Cat::ListCat(Box::new(Cat::IdCat(id("Foo"))))));
    assert_eq!(c.print(), "[[Foo]]");
}

#[test]
fn prints_empty_grammar_as_empty_text() {
    let g = Grammar { definitions: vec![] };
    assert_eq!(g.print(Mode::Compact), "");
    assert_eq!(g.print(Mode::Pretty), "");
}

#[test]
fn prints_all_label_forms() {
    assert_eq!(Label::Id(id("Head")).print(), "Head");
    assert_eq!(Label::Wild.print(), "_");
    assert_eq!(Label::ListE.print(), "[]");
    assert_eq!(Label::ListCons.print(), "(:)");
    assert_eq!(Label::ListOne.print(), "(:[])");
}

#[test]
fn prints_rule_with_no_items() {
    let d = Def::Rule(Label::Wild, Cat::IdCat(id("E")), vec![]);
    assert_eq!(d.print(), "_. E ::= ;");
}

#[test]
fn prints_compound_expressions_fully_parenthesized() {
    let cons = Exp::Cons(
        Box::new(Exp::Var(id("a"))),
        Box::new(Exp::Var(id("b"))),
    );
    assert_eq!(cons.print(), "(a : b)");
    let or = Exp::Or(
        Box::new(Exp::Var(id("a"))),
        Box::new(Exp::Var(id("b"))),
    );
    assert_eq!(or.print(), "((a) | (b))");
    let many0 = Exp::Many0(Box::new(Exp::Var(id("a"))));
    assert_eq!(many0.print(), "((a)*)");
}

#[test]
fn prints_application_and_list() {
    let app = Exp::App(id("f"), vec![Exp::LitInt(1), Exp::LitInt(2)]);
    assert_eq!(app.print(), "f(1, 2)");
    let empty_app = Exp::App(id("f"), vec![]);
    assert_eq!(empty_app.print(), "f()");
    let list = Exp::List(vec![Exp::LitInt(1), Exp::LitInt(2)]);
    assert_eq!(list.print(), "[1, 2]");
    let empty_list = Exp::List(vec![]);
    assert_eq!(empty_list.print(), "[]");
}

#[test]
fn prints_integer_extremes() {
    assert_eq!(Exp::LitInt(i64::MIN).print(), "-9223372036854775808");
    assert_eq!(Exp::LitInt(i64::MAX).print(), "9223372036854775807");
    assert_eq!(Exp::LitInt(0).print(), "0");
}

#[test]
fn prints_char_literal_raw() {
    assert_eq!(Exp::LitChar('x').print(), "'x'");
    assert_eq!(Exp::LitChar('\'').print(), "'''");
    assert_eq!(Exp::LitChar('"').print(), "'\"'");
}

#[test]
fn prints_string_literal_with_escaping() {
    assert_eq!(Exp::LitString("a\"b".to_string()).print(), "\"a\\\"b\"");
}

#[test]
fn prints_identifier_verbatim() {
    assert_eq!(id("Expr_1").print(), "Expr_1");
}

#[test]
fn escape_quotes_escapes_only_quotes() {
    assert_eq!(escape_quotes("say \"hi\""), "say \\\"hi\\\"");
    assert_eq!(escape_quotes("plain"), "plain");
    assert_eq!(escape_quotes(""), "");
}

#[test]
fn join_slice_inserts_separator_between_parts() {
    let v = vec!["a".to_string(), "b".to_string(), "c".to_string()];
    assert_eq!(join_slice(&v, ", "), "a, b, c");
    assert_eq!(join_slice(&vec![], ", "), "");
    assert_eq!(join_slice(&vec!["x".to_string()], ", "), "x");
}
