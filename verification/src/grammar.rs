//! The LBNF grammar model: a closed set of immutable value types that
//! represent one LBNF program as a tree.
//!
//! Every entity is owned exclusively by its parent; equality is structural.
//! The model performs no validation of its own: validity of the contained
//! strings (identifier shape, the decimal shape of a double literal) is
//! guaranteed only for values produced by [`crate::parse`], and is written
//! down here as the well-formedness predicates that the parser establishes.

use vstd::prelude::*;

verus! {

/// A grammar identifier; well-formed when it is a non-empty string of the
/// shape `[A-Za-z][A-Za-z0-9_]*`.
#[derive(Debug, Clone, PartialEq, Eq, Hash)]
pub struct Ident(pub String);

/// A whole LBNF program: an ordered sequence of definitions.  The order is
/// semantically significant and is preserved through printing and parsing.
#[derive(Debug, PartialEq)]
pub struct Grammar {
    pub definitions: Vec<Def>,
}

/// One top-level declaration.
#[derive(Debug, PartialEq)]
pub enum Def {
    /// A production: `Label. Cat ::= Item* ;`
    Rule(Label, Cat, Vec<Item>),
    /// A named expression macro: `Ident Exp ;`
    Macro(Ident, Exp),
}

/// One symbol on a rule's right-hand side.
#[derive(Debug, PartialEq, Eq)]
pub enum Item {
    /// A literal matched verbatim; printed double-quoted.
    Terminal(String),
    /// A reference to another category.
    NTerminal(Cat),
}

/// A grammar category (nonterminal symbol).
#[derive(Debug, PartialEq, Eq)]
pub enum Cat {
    /// `[Cat]`: "list of" the inner category; nests recursively.
    ListCat(Box<Cat>),
    /// A plain category name.
    IdCat(Ident),
}

/// The constructor tag attached to a rule.
#[derive(Debug, Clone, PartialEq, Eq, Hash)]
pub enum Label {
    /// A named constructor.
    Id(Ident),
    /// `_`: build no node.
    Wild,
    /// `[]`: the empty-list constructor.
    ListE,
    /// `(:)`: the cons constructor.
    ListCons,
    /// `(:[])`: the singleton-list constructor.
    ListOne,
}

/// An expression inside a macro body.
///
/// A double literal carries its decimal text (the shortest representation
/// that reads back as the same number, as the parser or a converting caller
/// produced it) rather than a machine float, so that printing is exact.
#[derive(Debug, PartialEq)]
pub enum Exp {
    /// `(head : tail)`
    Cons(Box<Exp>, Box<Exp>),
    /// `((left) | (right))`
    Or(Box<Exp>, Box<Exp>),
    /// `name(arg, ...)`
    App(Ident, Vec<Exp>),
    /// `[item, ...]`
    List(Vec<Exp>),
    /// A plain identifier.
    Var(Ident),
    /// `((e)+)`: one or more.
    Many1(Box<Exp>),
    /// `((e)*)`: zero or more.
    Many0(Box<Exp>),
    /// A 64-bit signed integer literal.
    LitInt(i64),
    /// A double literal, held as its decimal text.
    LitDouble(String),
    /// `'c'`: a single character, printed raw.
    LitChar(char),
    /// `"s"`: a string literal; only `"` is escaped when printed.
    LitString(String),
}

/// The printer's two output modes.
#[derive(Debug, Clone, Copy, PartialEq, Eq)]
pub enum Mode {
    /// Definitions are concatenated with no separator; each is
    /// self-terminating through its trailing `;`.
    Compact,
    /// Each definition is followed by a line break.
    Pretty,
}

impl Clone for Grammar {
    /// A deep copy of the whole tree.
    fn clone(&self) -> Self {
        Grammar { definitions: clone_defs(&self.definitions) }
    }
}

impl Clone for Def {
    /// A deep copy of one definition.
    fn clone(&self) -> Self {
        match self {
            Def::Rule(l, c, items) => Def::Rule(l.clone(), c.clone(), clone_items(items)),
            Def::Macro(name, e) => Def::Macro(name.clone(), e.clone()),
        }
    }
}

impl Clone for Item {
    /// A deep copy of one symbol.
    fn clone(&self) -> Self {
        match self {
            Item::Terminal(s) => Item::Terminal(s.clone()),
            Item::NTerminal(c) => Item::NTerminal(c.clone()),
        }
    }
}

impl Clone for Cat {
    /// A deep copy of a category.
    fn clone(&self) -> Self
        decreases *self,
    {
        match self {
            Cat::ListCat(inner) => Cat::ListCat(Box::new((**inner).clone())),
            Cat::IdCat(i) => Cat::IdCat(i.clone()),
        }
    }
}

impl Clone for Exp {
    /// A deep copy of an expression.
    fn clone(&self) -> Self
        decreases *self,
    {
        match self {
            Exp::Cons(a, b) => Exp::Cons(Box::new((**a).clone()), Box::new((**b).clone())),
            Exp::Or(a, b) => Exp::Or(Box::new((**a).clone()), Box::new((**b).clone())),
            Exp::App(f, args) => Exp::App(f.clone(), clone_exps(args)),
            Exp::List(elems) => Exp::List(clone_exps(elems)),
            Exp::Var(i) => Exp::Var(i.clone()),
            Exp::Many1(a) => Exp::Many1(Box::new((**a).clone())),
            Exp::Many0(a) => Exp::Many0(Box::new((**a).clone())),
            Exp::LitInt(n) => Exp::LitInt(*n),
            Exp::LitDouble(s) => Exp::LitDouble(s.clone()),
            Exp::LitChar(c) => Exp::LitChar(*c),
            Exp::LitString(s) => Exp::LitString(s.clone()),
        }
    }
}

/// Deep copies of the definitions, in order.
fn clone_defs(v: &Vec<Def>) -> Vec<Def> {
    let mut out: Vec<Def> = Vec::new();
    let mut i: usize = 0;
    while i < v.len()
        decreases v@.len() - i,
    {
        out.push(v[i].clone());
        i = i + 1;
    }
    out
}

/// Deep copies of the symbols, in order.
fn clone_items(v: &Vec<Item>) -> Vec<Item> {
    let mut out: Vec<Item> = Vec::new();
    let mut i: usize = 0;
    while i < v.len()
        decreases v@.len() - i,
    {
        out.push(v[i].clone());
        i = i + 1;
    }
    out
}

/// Deep copies of the expressions, in order.
fn clone_exps(v: &Vec<Exp>) -> Vec<Exp>
    decreases *v,
{
    let mut out: Vec<Exp> = Vec::new();
    let mut i: usize = 0;
    while i < v.len()
        decreases v@.len() - i,
    {
        out.push(v[i].clone());
        i = i + 1;
    }
    out
}

/// Whether `c` may start an identifier: a letter.
pub open spec fn is_ident_start(c: char) -> bool {
    ('a' <= c && c <= 'z') || ('A' <= c && c <= 'Z')
}

/// Whether `c` may continue an identifier: a letter, digit or underscore.
pub open spec fn is_ident_char(c: char) -> bool {
    is_ident_start(c) || ('0' <= c && c <= '9') || c == '_'
}

/// Whether `c` is a decimal digit.
pub open spec fn is_digit(c: char) -> bool {
    '0' <= c && c <= '9'
}

/// Well-formedness of an identifier: non-empty, a letter first, then
/// letters, digits and underscores.
pub open spec fn wf_ident(i: Ident) -> bool {
    &&& i.0@.len() > 0
    &&& is_ident_start(i.0@[0])
    &&& forall|k: int| 0 <= k < i.0@.len() ==> is_ident_char(#[trigger] i.0@[k])
}

/// The decimal text of a double literal as the parser produces it:
/// an optional minus sign, one or more digits, a dot, one or more digits.
pub open spec fn wf_double_text(s: Seq<char>) -> bool {
    let first: int = if s.len() > 0 && s[0] == '-' {
        1
    } else {
        0
    };
    exists|dot: int|
        {
            &&& first < dot
            &&& dot + 1 < s.len()
            &&& s[dot] == '.'
            &&& (forall|k: int| first <= k < dot ==> is_digit(#[trigger] s[k]))
            &&& (forall|k: int| dot < k < s.len() ==> is_digit(#[trigger] s[k]))
        }
}

/// Well-formedness of a label: its identifier, if any, is well-formed.
pub open spec fn wf_label(l: Label) -> bool {
    match l {
        Label::Id(i) => wf_ident(i),
        Label::Wild => true,
        Label::ListE => true,
        Label::ListCons => true,
        Label::ListOne => true,
    }
}

/// Well-formedness of a category: every identifier in it is well-formed.
pub open spec fn wf_cat(c: Cat) -> bool
    decreases c,
{
    match c {
        Cat::ListCat(inner) => wf_cat(*inner),
        Cat::IdCat(i) => wf_ident(i),
    }
}

/// Well-formedness of a right-hand-side symbol.
pub open spec fn wf_item(it: Item) -> bool {
    match it {
        Item::Terminal(_) => true,
        Item::NTerminal(c) => wf_cat(c),
    }
}

/// Well-formedness of an expression: every identifier in it is
/// well-formed and every double literal's text has a decimal shape.
pub open spec fn wf_exp(e: Exp) -> bool
    decreases e,
{
    match e {
        Exp::Cons(a, b) => wf_exp(*a) && wf_exp(*b),
        Exp::Or(a, b) => wf_exp(*a) && wf_exp(*b),
        Exp::App(f, args) => wf_ident(f) && (forall|k: int|
            0 <= k < args@.len() ==> wf_exp(#[trigger] args@[k])),
        Exp::List(elems) => forall|k: int| 0 <= k < elems@.len() ==> wf_exp(#[trigger] elems@[k]),
        Exp::Var(i) => wf_ident(i),
        Exp::Many1(a) => wf_exp(*a),
        Exp::Many0(a) => wf_exp(*a),
        Exp::LitInt(_) => true,
        Exp::LitDouble(s) => wf_double_text(s@),
        Exp::LitChar(_) => true,
        Exp::LitString(_) => true,
    }
}

/// Well-formedness of one definition.
pub open spec fn wf_def(d: Def) -> bool {
    match d {
        Def::Rule(l, c, items) => wf_label(l) && wf_cat(c) && (forall|k: int|
            0 <= k < items@.len() ==> wf_item(#[trigger] items@[k])),
        Def::Macro(name, e) => wf_ident(name) && wf_exp(e),
    }
}

/// Well-formedness of a whole grammar: what the parser guarantees of
/// every tree it produces.
pub open spec fn wf_grammar(g: Grammar) -> bool {
    forall|k: int| 0 <= k < g.definitions@.len() ==> wf_def(#[trigger] g.definitions@[k])
}

} // verus!
