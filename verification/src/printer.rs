//! The canonical printer: a total, deterministic function from a
//! [`Grammar`] value to LBNF source text.
//!
//! The text of every construct is first defined mathematically, as a
//! function from the tree to a sequence of characters; each executable
//! printing function then carries the contract that it returns exactly
//! that sequence.  Compound expressions are printed fully parenthesized,
//! so no precedence tracking is ever needed to read the output back.

use crate::grammar::{Cat, Def, Exp, Grammar, Ident, Item, Label, Mode};
use vstd::prelude::*;
use vstd::string::{StrSliceExecFns, StringExecFns};

verus! {

/// One character of string-literal content, escaped: `"` becomes `\"`,
/// every other character stands for itself.
pub open spec fn escaped_char(c: char) -> Seq<char> {
    if c == '"' {
        seq!['\\', '"']
    } else {
        seq![c]
    }
}

/// String-literal content with every `"` escaped as `\"`.
pub open spec fn escaped_text(s: Seq<char>) -> Seq<char>
    decreases s.len(),
{
    if s.len() == 0 {
        Seq::empty()
    } else {
        escaped_char(s[0]) + escaped_text(s.subrange(1, s.len() as int))
    }
}

/// The parts joined with the separator between consecutive parts,
/// starting from part `i`.
pub open spec fn joined_text(parts: Seq<Seq<char>>, sep: Seq<char>, i: int) -> Seq<char>
    decreases parts.len() - i,
{
    if i < 0 || i >= parts.len() {
        Seq::empty()
    } else {
        parts[i] + (if i + 1 < parts.len() {
            sep
        } else {
            Seq::empty()
        }) + joined_text(parts, sep, i + 1)
    }
}

/// The decimal digit `d` as a character, for `0 <= d <= 9`.
pub open spec fn digit_char(d: int) -> char {
    if d == 0 {
        '0'
    } else if d == 1 {
        '1'
    } else if d == 2 {
        '2'
    } else if d == 3 {
        '3'
    } else if d == 4 {
        '4'
    } else if d == 5 {
        '5'
    } else if d == 6 {
        '6'
    } else if d == 7 {
        '7'
    } else if d == 8 {
        '8'
    } else {
        '9'
    }
}

/// The decimal digits of a non-negative integer, most significant first.
pub open spec fn digits_text(n: nat) -> Seq<char>
    decreases n,
{
    if n < 10 {
        seq![digit_char(n as int)]
    } else {
        digits_text(n / 10) + seq![digit_char((n % 10) as int)]
    }
}

/// The decimal representation of an integer, sign included when negative.
pub open spec fn int_text(i: int) -> Seq<char> {
    if i < 0 {
        seq!['-'] + digits_text((-i) as nat)
    } else {
        digits_text(i as nat)
    }
}

/// Whether the sequence contains a decimal point.
pub open spec fn has_dot(s: Seq<char>) -> bool {
    exists|k: int| 0 <= k < s.len() && s[k] == '.'
}

/// The printed form of a double literal's stored text: unchanged when it
/// already contains a decimal point, otherwise with `.0` appended, so an
/// integral-valued double never prints as an integer.
pub open spec fn double_text(s: Seq<char>) -> Seq<char> {
    if has_dot(s) {
        s
    } else {
        s + seq!['.', '0']
    }
}

/// The printed form of a label; these five textual forms are fixed
/// contract with the LBNF surface syntax.
pub open spec fn label_text(l: Label) -> Seq<char> {
    match l {
        Label::Id(i) => i.0@,
        Label::Wild => seq!['_'],
        Label::ListE => seq!['[', ']'],
        Label::ListCons => seq!['(', ':', ')'],
        Label::ListOne => seq!['(', ':', '[', ']', ')'],
    }
}

/// The printed form of a category: the identifier verbatim, or the inner
/// category wrapped in `[ ]`.
pub open spec fn cat_text(c: Cat) -> Seq<char>
    decreases c,
{
    match c {
        Cat::ListCat(inner) => seq!['['] + cat_text(*inner) + seq![']'],
        Cat::IdCat(i) => i.0@,
    }
}

/// The printed form of one right-hand-side symbol.
pub open spec fn item_text(it: Item) -> Seq<char> {
    match it {
        Item::Terminal(s) => seq!['"'] + escaped_text(s@) + seq!['"'],
        Item::NTerminal(c) => cat_text(c),
    }
}

/// The items from index `i` on, one space before each.
pub open spec fn items_text(items: Seq<Item>, i: int) -> Seq<char>
    decreases items.len() - i,
{
    if i < 0 || i >= items.len() {
        Seq::empty()
    } else {
        seq![' '] + item_text(items[i]) + items_text(items, i + 1)
    }
}

/// The printed form of an expression.  Every compound variant (`Cons`,
/// `Or`, `Many1`, `Many0`) is parenthesized unconditionally.
pub open spec fn exp_text(e: Exp) -> Seq<char>
    decreases e,
{
    match e {
        Exp::Cons(a, b) => seq!['('] + exp_text(*a) + seq![' ', ':', ' '] + exp_text(*b)
            + seq![')'],
        Exp::Or(a, b) => seq!['(', '('] + exp_text(*a) + seq![')', ' ', '|', ' ', '('] + exp_text(
            *b,
        ) + seq![')', ')'],
        Exp::App(f, args) => f.0@ + seq!['('] + exp_args_text(args, 0) + seq![')'],
        Exp::List(elems) => seq!['['] + exp_args_text(elems, 0) + seq![']'],
        Exp::Var(i) => i.0@,
        Exp::Many1(a) => seq!['(', '('] + exp_text(*a) + seq![')', '+', ')'],
        Exp::Many0(a) => seq!['(', '('] + exp_text(*a) + seq![')', '*', ')'],
        Exp::LitInt(n) => int_text(n as int),
        Exp::LitDouble(s) => double_text(s@),
        Exp::LitChar(c) => seq!['\'', c, '\''],
        Exp::LitString(s) => seq!['"'] + escaped_text(s@) + seq!['"'],
    }
}

/// The expressions from index `i` on, joined with `, `.
pub open spec fn exp_args_text(args: Vec<Exp>, i: int) -> Seq<char>
    decreases args, args@.len() - i,
{
    if i < 0 || i >= args@.len() {
        Seq::empty()
    } else {
        exp_text(args@[i]) + (if i + 1 < args@.len() {
            seq![',', ' ']
        } else {
            Seq::empty()
        }) + exp_args_text(args, i + 1)
    }
}

/// The printed form of one definition: `label. cat ::= items ;` for a
/// rule, `name exp ;` for a macro.
pub open spec fn def_text(d: Def) -> Seq<char> {
    match d {
        Def::Rule(l, c, items) => label_text(l) + seq!['.', ' '] + cat_text(c) + seq![
            ' ',
            ':',
            ':',
            '=',
        ] + items_text(items@, 0) + seq![' ', ';'],
        Def::Macro(name, e) => name.0@ + seq![' '] + exp_text(e) + seq![' ', ';'],
    }
}

/// The definitions from index `i` on; in `Pretty` mode each is followed
/// by a line break, in `Compact` mode by nothing.
pub open spec fn defs_text(defs: Seq<Def>, i: int, mode: Mode) -> Seq<char>
    decreases defs.len() - i,
{
    if i < 0 || i >= defs.len() {
        Seq::empty()
    } else {
        def_text(defs[i]) + (if mode is Pretty {
            seq!['\n']
        } else {
            Seq::empty()
        }) + defs_text(defs, i + 1, mode)
    }
}

/// The printed form of a whole grammar: the concatenation of its
/// definitions' printed forms.
pub open spec fn grammar_text(g: Grammar, mode: Mode) -> Seq<char> {
    defs_text(g.definitions@, 0, mode)
}

/// Relies on String::push: appends the given character to the end of the
/// string.
#[verifier::external_body]
pub(crate) fn push_char(out: &mut String, c: char)
    ensures
        final(out)@ == old(out)@ + seq![c],
{
    out.push(c);
}

/// Escaping distributes over concatenation.
pub proof fn lemma_escaped_append(a: Seq<char>, b: Seq<char>)
    ensures
        escaped_text(a + b) == escaped_text(a) + escaped_text(b),
    decreases a.len(),
{
    if a.len() == 0 {
        assert(a + b =~= b);
        assert(escaped_text(a) + escaped_text(b) =~= escaped_text(b));
    } else {
        assert((a + b).subrange(1, (a + b).len() as int) =~= a.subrange(1, a.len() as int) + b);
        lemma_escaped_append(a.subrange(1, a.len() as int), b);
        assert(escaped_text(a + b) =~= escaped_text(a) + escaped_text(b));
    }
}

/// Appending one character to the input appends its escaped form to the
/// escaped text.
pub proof fn lemma_escaped_snoc(s: Seq<char>, c: char)
    ensures
        escaped_text(s + seq![c]) == escaped_text(s) + escaped_char(c),
    decreases s.len(),
{
    if s.len() == 0 {
        assert(escaped_text(Seq::<char>::empty()) == Seq::<char>::empty());
        assert(s + seq![c] =~= seq![c]);
        assert((s + seq![c]).subrange(1, 1) =~= Seq::<char>::empty());
        assert(escaped_text(s + seq![c]) =~= escaped_char(c));
        assert(escaped_text(s) + escaped_char(c) =~= escaped_char(c));
    } else {
        let t = s + seq![c];
        assert(t.subrange(1, t.len() as int) =~= s.subrange(1, s.len() as int) + seq![c]);
        lemma_escaped_snoc(s.subrange(1, s.len() as int), c);
        assert(escaped_text(t) =~= escaped_text(s) + escaped_char(c));
    }
}

/// Appends the string-literal content with every `"` escaped as `\"`.
fn push_escaped(out: &mut String, s: &str)
    ensures
        final(out)@ == old(out)@ + escaped_text(s@),
{
    let n: usize = s.unicode_len();
    let mut i: usize = 0;
    while i < n
        invariant
            n == s@.len(),
            i <= n,
            out@ == old(out)@ + escaped_text(s@.subrange(0, i as int)),
        decreases n - i,
    {
        let c = s.get_char(i);
        if c == '"' {
            push_char(out, '\\');
            push_char(out, '"');
        } else {
            push_char(out, c);
        }
        proof {
            lemma_escaped_snoc(s@.subrange(0, i as int), c);
            assert(s@.subrange(0, (i + 1) as int) =~= s@.subrange(0, i as int) + seq![c]);
            assert(out@ =~= old(out)@ + escaped_text(s@.subrange(0, (i + 1) as int)));
        }
        i = i + 1;
    }
    proof {
        assert(s@.subrange(0, n as int) =~= s@);
    }
}

/// Returns the string-literal content with every `"` escaped as `\"`;
/// no other character is changed.
pub fn escape_quotes(s: &str) -> (r: String)
    ensures
        r@ == escaped_text(s@),
{
    let mut out = String::new();
    push_escaped(&mut out, s);
    out
}

/// Returns the parts joined with the separator between consecutive parts.
pub fn join_slice(v: &Vec<String>, sep: &str) -> (r: String)
    ensures
        r@ == joined_text(v.deep_view(), sep@, 0),
{
    let mut out = String::new();
    push_joined(&mut out, v, sep, 0);
    out
}

/// Appends the parts from index `i` on, separator between them.
fn push_joined(out: &mut String, v: &Vec<String>, sep: &str, i: usize)
    requires
        i <= v@.len(),
    ensures
        final(out)@ == old(out)@ + joined_text(v.deep_view(), sep@, i as int),
    decreases v@.len() - i,
{
    if i < v.len() {
        out.append(v[i].as_str());
        if i + 1 < v.len() {
            out.append(sep);
        }
        push_joined(out, v, sep, i + 1);
        proof {
            assert(v.deep_view()[i as int] == v@[i as int]@);
            assert(out@ =~= old(out)@ + joined_text(v.deep_view(), sep@, i as int));
        }
    }
}

/// The decimal digit `d` as a character.
fn digit_to_char(d: u64) -> (c: char)
    requires
        d < 10,
    ensures
        c == digit_char(d as int),
{
    match d {
        0 => '0',
        1 => '1',
        2 => '2',
        3 => '3',
        4 => '4',
        5 => '5',
        6 => '6',
        7 => '7',
        8 => '8',
        _ => '9',
    }
}

/// Appends the decimal digits of `n`, most significant first.
fn push_u64_digits(out: &mut String, n: u64)
    ensures
        final(out)@ == old(out)@ + digits_text(n as nat),
    decreases n,
{
    if n >= 10 {
        push_u64_digits(out, n / 10);
    }
    push_char(out, digit_to_char(n % 10));
    proof {
        assert(out@ =~= old(out)@ + digits_text(n as nat));
    }
}

/// Appends the decimal representation of `n`, sign included when negative.
fn push_i64(out: &mut String, n: i64)
    ensures
        final(out)@ == old(out)@ + int_text(n as int),
{
    if n < 0 {
        push_char(out, '-');
        let m: u64 = if n == i64::MIN {
            9223372036854775808u64
        } else {
            (-n) as u64
        };
        assert(m as nat == (-(n as int)) as nat);
        push_u64_digits(out, m);
        proof {
            assert(out@ =~= old(out)@ + int_text(n as int));
        }
    } else {
        push_u64_digits(out, n as u64);
    }
}

/// Whether the string contains a decimal point.
fn contains_dot(s: &str) -> (b: bool)
    ensures
        b == has_dot(s@),
{
    let n: usize = s.unicode_len();
    let mut i: usize = 0;
    while i < n
        invariant
            n == s@.len(),
            i <= n,
            forall|k: int| 0 <= k < i ==> s@[k] != '.',
        decreases n - i,
    {
        if s.get_char(i) == '.' {
            return true;
        }
        i = i + 1;
    }
    false
}

/// Appends the printed form of a double literal's text: `.0` is appended
/// when the text holds no decimal point.
fn push_double(out: &mut String, s: &str)
    ensures
        final(out)@ == old(out)@ + double_text(s@),
{
    out.append(s);
    if !contains_dot(s) {
        push_char(out, '.');
        push_char(out, '0');
        proof {
            assert(out@ =~= old(out)@ + double_text(s@));
        }
    }
}

/// Appends the printed form of a label.
fn push_label(out: &mut String, l: &Label)
    ensures
        final(out)@ == old(out)@ + label_text(*l),
{
    match l {
        Label::Id(i) => {
            out.append(i.0.as_str());
        },
        Label::Wild => {
            push_char(out, '_');
        },
        Label::ListE => {
            push_char(out, '[');
            push_char(out, ']');
        },
        Label::ListCons => {
            push_char(out, '(');
            push_char(out, ':');
            push_char(out, ')');
        },
        Label::ListOne => {
            push_char(out, '(');
            push_char(out, ':');
            push_char(out, '[');
            push_char(out, ']');
            push_char(out, ')');
        },
    }
    proof {
        assert(out@ =~= old(out)@ + label_text(*l));
    }
}

/// Appends the printed form of a category.
fn push_cat(out: &mut String, c: &Cat)
    ensures
        final(out)@ == old(out)@ + cat_text(*c),
    decreases *c,
{
    match c {
        Cat::ListCat(inner) => {
            push_char(out, '[');
            push_cat(out, inner);
            push_char(out, ']');
        },
        Cat::IdCat(i) => {
            out.append(i.0.as_str());
        },
    }
    proof {
        assert(out@ =~= old(out)@ + cat_text(*c));
    }
}

/// Appends the printed form of one right-hand-side symbol.
fn push_item(out: &mut String, it: &Item)
    ensures
        final(out)@ == old(out)@ + item_text(*it),
{
    match it {
        Item::Terminal(s) => {
            push_char(out, '"');
            push_escaped(out, s.as_str());
            push_char(out, '"');
        },
        Item::NTerminal(c) => {
            push_cat(out, c);
        },
    }
    proof {
        assert(out@ =~= old(out)@ + item_text(*it));
    }
}

/// Appends the items from index `i` on, one space before each.
fn push_items(out: &mut String, items: &Vec<Item>, i: usize)
    requires
        i <= items@.len(),
    ensures
        final(out)@ == old(out)@ + items_text(items@, i as int),
    decreases items@.len() - i,
{
    if i < items.len() {
        push_char(out, ' ');
        push_item(out, &items[i]);
        push_items(out, items, i + 1);
        proof {
            assert(out@ =~= old(out)@ + items_text(items@, i as int));
        }
    }
}

/// Appends the printed form of an expression.
fn push_exp(out: &mut String, e: &Exp)
    ensures
        final(out)@ == old(out)@ + exp_text(*e),
    decreases *e,
{
    match e {
        Exp::Cons(a, b) => {
            push_char(out, '(');
            push_exp(out, a);
            push_char(out, ' ');
            push_char(out, ':');
            push_char(out, ' ');
            push_exp(out, b);
            push_char(out, ')');
        },
        Exp::Or(a, b) => {
            push_char(out, '(');
            push_char(out, '(');
            push_exp(out, a);
            push_char(out, ')');
            push_char(out, ' ');
            push_char(out, '|');
            push_char(out, ' ');
            push_char(out, '(');
            push_exp(out, b);
            push_char(out, ')');
            push_char(out, ')');
        },
        Exp::App(f, args) => {
            out.append(f.0.as_str());
            push_char(out, '(');
            push_exp_args(out, args, 0);
            push_char(out, ')');
        },
        Exp::List(elems) => {
            push_char(out, '[');
            push_exp_args(out, elems, 0);
            push_char(out, ']');
        },
        Exp::Var(i) => {
            out.append(i.0.as_str());
        },
        Exp::Many1(a) => {
            push_char(out, '(');
            push_char(out, '(');
            push_exp(out, a);
            push_char(out, ')');
            push_char(out, '+');
            push_char(out, ')');
        },
        Exp::Many0(a) => {
            push_char(out, '(');
            push_char(out, '(');
            push_exp(out, a);
            push_char(out, ')');
            push_char(out, '*');
            push_char(out, ')');
        },
        Exp::LitInt(n) => {
            push_i64(out, *n);
        },
        Exp::LitDouble(s) => {
            push_double(out, s.as_str());
        },
        Exp::LitChar(c) => {
            push_char(out, '\'');
            push_char(out, *c);
            push_char(out, '\'');
        },
        Exp::LitString(s) => {
            push_char(out, '"');
            push_escaped(out, s.as_str());
            push_char(out, '"');
        },
    }
    proof {
        assert(out@ =~= old(out)@ + exp_text(*e));
    }
}

/// Appends the expressions from index `i` on, joined with `, `.
fn push_exp_args(out: &mut String, args: &Vec<Exp>, i: usize)
    requires
        i <= args@.len(),
    ensures
        final(out)@ == old(out)@ + exp_args_text(*args, i as int),
    decreases *args, args@.len() - i,
{
    if i < args.len() {
        push_exp(out, &args[i]);
        if i + 1 < args.len() {
            push_char(out, ',');
            push_char(out, ' ');
        }
        push_exp_args(out, args, i + 1);
        proof {
            assert(out@ =~= old(out)@ + exp_args_text(*args, i as int));
        }
    }
}

/// Appends the printed form of one definition.
fn push_def(out: &mut String, d: &Def)
    ensures
        final(out)@ == old(out)@ + def_text(*d),
{
    match d {
        Def::Rule(l, c, items) => {
            push_label(out, l);
            push_char(out, '.');
            push_char(out, ' ');
            push_cat(out, c);
            push_char(out, ' ');
            push_char(out, ':');
            push_char(out, ':');
            push_char(out, '=');
            push_items(out, items, 0);
            push_char(out, ' ');
            push_char(out, ';');
        },
        Def::Macro(name, e) => {
            out.append(name.0.as_str());
            push_char(out, ' ');
            push_exp(out, e);
            push_char(out, ' ');
            push_char(out, ';');
        },
    }
    proof {
        assert(out@ =~= old(out)@ + def_text(*d));
    }
}

/// Appends the definitions from index `i` on, each followed by a line
/// break in `Pretty` mode.
fn push_defs(out: &mut String, defs: &Vec<Def>, i: usize, mode: Mode)
    requires
        i <= defs@.len(),
    ensures
        final(out)@ == old(out)@ + defs_text(defs@, i as int, mode),
    decreases defs@.len() - i,
{
    if i < defs.len() {
        push_def(out, &defs[i]);
        if matches!(mode, Mode::Pretty) {
            push_char(out, '\n');
        }
        push_defs(out, defs, i + 1, mode);
        proof {
            assert(out@ =~= old(out)@ + defs_text(defs@, i as int, mode));
        }
    }
}

impl Grammar {
    /// Prints the whole grammar: the concatenation of its definitions'
    /// printed forms, one per line in `Pretty` mode.
    pub fn print(&self, mode: Mode) -> (r: String)
        ensures
            r@ == grammar_text(*self, mode),
    {
        let mut out = String::new();
        push_defs(&mut out, &self.definitions, 0, mode);
        out
    }
}

impl Def {
    /// Prints this definition in its canonical form.
    pub fn print(&self) -> (r: String)
        ensures
            r@ == def_text(*self),
    {
        let mut out = String::new();
        push_def(&mut out, self);
        out
    }
}

impl Item {
    /// Prints this symbol: quoted and escaped for a terminal, the
    /// category's form otherwise.
    pub fn print(&self) -> (r: String)
        ensures
            r@ == item_text(*self),
    {
        let mut out = String::new();
        push_item(&mut out, self);
        out
    }
}

impl Cat {
    /// Prints this category.
    pub fn print(&self) -> (r: String)
        ensures
            r@ == cat_text(*self),
    {
        let mut out = String::new();
        push_cat(&mut out, self);
        out
    }
}

impl Label {
    /// Prints this label in one of its five fixed textual forms.
    pub fn print(&self) -> (r: String)
        ensures
            r@ == label_text(*self),
    {
        let mut out = String::new();
        push_label(&mut out, self);
        out
    }
}

impl Ident {
    /// Prints this identifier: its characters verbatim.
    pub fn print(&self) -> (r: String)
        ensures
            r@ == self.0@,
    {
        let mut out = String::new();
        out.append(self.0.as_str());
        out
    }
}

impl Exp {
    /// Prints this expression, compound variants fully parenthesized.
    pub fn print(&self) -> (r: String)
        ensures
            r@ == exp_text(*self),
    {
        let mut out = String::new();
        push_exp(&mut out, self);
        out
    }
}

} // verus!
