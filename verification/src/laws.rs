//! The printer's stated laws.
//!
//! These facts carry the round-trip burden at the token and expression
//! level and are proved here once and for all:
//!
//! * every double literal prints with a decimal point, so it can never be
//!   read back as an integer, and one the parser produced prints
//!   verbatim;
//! * the printer's quote escaping is invertible, so a string literal
//!   survives printing and re-parsing unchanged;
//! * the printed form of every compound expression is self-delimiting:
//!   reading it left to right, the first point at which all parentheses,
//!   string quotes and character quotes are closed again is its end, so
//!   printed expressions never merge when concatenated.
//!
//! The round-trip law itself lives in the readers' contracts: each one,
//! from identifiers and categories up to [`crate::parse`], promises over
//! the likeness relations below that wherever a printed form stands it
//! returns exactly what was printed.

use crate::grammar::{
    is_digit,
    is_ident_char,
    is_ident_start,
    wf_cat,
    wf_double_text,
    wf_exp,
    Cat,
    Def,
    Exp,
    Grammar,
    Item,
    Label,
};
use crate::grammar::Mode;
use crate::printer::{
    cat_text,
    def_text,
    defs_text,
    digit_char,
    digits_text,
    double_text,
    escaped_char,
    escaped_text,
    exp_args_text,
    exp_text,
    grammar_text,
    has_dot,
    int_text,
    item_text,
    items_text,
    label_text,
};
use vstd::prelude::*;

verus! {

/// Double formatting law: the printed form of a double literal's text
/// always contains a decimal point, whatever text the literal holds.
pub proof fn lemma_double_text_has_dot(s: Seq<char>)
    ensures
        has_dot(double_text(s)),
{
    if !has_dot(s) {
        let t = s + seq!['.', '0'];
        assert(t[s.len() as int] == '.');
    }
}

/// Double formatting law at the expression level: a `LitDouble` never
/// prints as a bare integer.
pub proof fn lemma_lit_double_prints_dot(e: Exp)
    requires
        e matches Exp::LitDouble(_),
    ensures
        has_dot(exp_text(e)),
{
    match e {
        Exp::LitDouble(s) => {
            lemma_double_text_has_dot(s@);
        },
        _ => {
        },
    }
}

/// A double literal as the parser produces it — digits around a dot —
/// prints verbatim: the printer's `.0` fallback never fires, so printing
/// a parsed double a second time changes nothing.
pub proof fn lemma_parsed_double_prints_verbatim(s: Seq<char>)
    requires
        wf_double_text(s),
    ensures
        double_text(s) == s,
{
    lemma_double_text_plain(s);
}

/// String-literal text read back: `\"` stands for a quote, a backslash
/// before anything else stands for itself, every other character for
/// itself.  This is the reading that any conforming parser applies to the
/// printer's escaped output.
pub open spec fn unescaped_text(s: Seq<char>) -> Seq<char>
    decreases s.len(),
{
    if s.len() == 0 {
        Seq::empty()
    } else if s.len() >= 2 && s[0] == '\\' && s[1] == '"' {
        seq!['"'] + unescaped_text(s.subrange(2, s.len() as int))
    } else {
        seq![s[0]] + unescaped_text(s.subrange(1, s.len() as int))
    }
}

/// Escaping idempotence, at its core: for content that holds no
/// backslash of its own, reading the escaped text back yields exactly
/// the original content — so printing, parsing and printing again can
/// never change a string literal.
pub proof fn lemma_escape_unescape(v: Seq<char>)
    requires
        forall|k: int| 0 <= k < v.len() ==> v[k] != '\\',
    ensures
        unescaped_text(escaped_text(v)) == v,
    decreases v.len(),
{
    if v.len() > 0 {
        let rest = v.subrange(1, v.len() as int);
        lemma_escape_unescape(rest);
        let t = escaped_text(v);
        if v[0] == '"' {
            assert(t =~= seq!['\\', '"'] + escaped_text(rest));
            assert(t.subrange(2, t.len() as int) =~= escaped_text(rest));
            assert(unescaped_text(t) =~= seq!['"'] + rest);
            assert(unescaped_text(t) =~= v);
        } else {
            assert(t =~= seq![v[0]] + escaped_text(rest));
            assert(t.subrange(1, t.len() as int) =~= escaped_text(rest));
            if t.len() >= 2 && t[0] == '\\' && t[1] == '"' {
                assert(false);
            }
            assert(unescaped_text(t) =~= seq![v[0]] + rest);
            assert(unescaped_text(t) =~= v);
        }
    }
}

/// Whether two labels are the same form with the same identifier text.
pub open spec fn label_like(a: Label, b: Label) -> bool {
    match a {
        Label::Id(i) => (b matches Label::Id(j) && i.0@ == j.0@),
        Label::Wild => b is Wild,
        Label::ListE => b is ListE,
        Label::ListCons => b is ListCons,
        Label::ListOne => b is ListOne,
    }
}

/// Whether two categories are the same tree with the same identifier
/// text.  This is structural equality read through the strings' views.
pub open spec fn cat_like(a: Cat, b: Cat) -> bool
    decreases a,
{
    match a {
        Cat::ListCat(x) => (b matches Cat::ListCat(y) && cat_like(*x, *y)),
        Cat::IdCat(i) => (b matches Cat::IdCat(j) && i.0@ == j.0@),
    }
}

/// Whether the printed form of `c` stands in `s` at position `pos`.
pub open spec fn cat_text_at(s: Seq<char>, pos: int, c: Cat) -> bool {
    &&& 0 <= pos
    &&& pos + cat_text(c).len() <= s.len()
    &&& s.subrange(pos, pos + cat_text(c).len()) == cat_text(c)
}

/// Whether two right-hand-side symbols are the same symbol with the
/// same text.
pub open spec fn item_like(a: Item, b: Item) -> bool {
    match a {
        Item::Terminal(x) => (b matches Item::Terminal(y) && x@ == y@),
        Item::NTerminal(c) => (b matches Item::NTerminal(d) && cat_like(c, d)),
    }
}

/// Whether two expressions are the same tree with the same literal
/// texts and values.
pub open spec fn exp_like(a: Exp, b: Exp) -> bool
    decreases a,
{
    match a {
        Exp::Cons(x, y) => (b matches Exp::Cons(x2, y2) && exp_like(*x, *x2) && exp_like(*y, *y2)),
        Exp::Or(x, y) => (b matches Exp::Or(x2, y2) && exp_like(*x, *x2) && exp_like(*y, *y2)),
        Exp::App(f, args) => (b matches Exp::App(f2, args2) && f.0@ == f2.0@ && args@.len()
            == args2@.len() && (forall|k: int|
            0 <= k < args@.len() ==> exp_like(#[trigger] args@[k], args2@[k]))),
        Exp::List(es) => (b matches Exp::List(es2) && es@.len() == es2@.len() && (forall|k: int|
            0 <= k < es@.len() ==> exp_like(#[trigger] es@[k], es2@[k]))),
        Exp::Var(i) => (b matches Exp::Var(j) && i.0@ == j.0@),
        Exp::Many1(x) => (b matches Exp::Many1(y) && exp_like(*x, *y)),
        Exp::Many0(x) => (b matches Exp::Many0(y) && exp_like(*x, *y)),
        Exp::LitInt(n) => (b matches Exp::LitInt(m) && n == m),
        Exp::LitDouble(x) => (b matches Exp::LitDouble(y) && x@ == y@),
        Exp::LitChar(c) => (b matches Exp::LitChar(d) && c == d),
        Exp::LitString(x) => (b matches Exp::LitString(y) && x@ == y@),
    }
}

/// Whether two definitions are the same definition with the same texts.
pub open spec fn def_like(a: Def, b: Def) -> bool {
    match a {
        Def::Rule(l1, c1, i1) => (b matches Def::Rule(l2, c2, i2) && label_like(l1, l2) && cat_like(
            c1,
            c2,
        ) && i1@.len() == i2@.len() && (forall|k: int|
            0 <= k < i1@.len() ==> item_like(#[trigger] i1@[k], i2@[k]))),
        Def::Macro(n1, e1) => (b matches Def::Macro(n2, e2) && n1.0@ == n2.0@ && exp_like(e1, e2)),
    }
}

/// Whether two grammars hold corresponding definitions in the same
/// order.
pub open spec fn grammar_like(a: Grammar, b: Grammar) -> bool {
    &&& a.definitions@.len() == b.definitions@.len()
    &&& forall|k: int|
        0 <= k < a.definitions@.len() ==> def_like(#[trigger] a.definitions@[k], b.definitions@[k])
}

/// Like labels print identically.
proof fn lemma_label_like_text(a: Label, b: Label)
    requires
        label_like(a, b),
    ensures
        label_text(a) == label_text(b),
{
}

/// Like categories print identically.
proof fn lemma_cat_like_text(a: Cat, b: Cat)
    requires
        cat_like(a, b),
    ensures
        cat_text(a) == cat_text(b),
    decreases a,
{
    match a {
        Cat::ListCat(x) => {
            match b {
                Cat::ListCat(y) => {
                    lemma_cat_like_text(*x, *y);
                },
                Cat::IdCat(_) => {
                },
            }
        },
        Cat::IdCat(_) => {
        },
    }
}

/// Like expressions print identically.
pub proof fn lemma_exp_like_text(a: Exp, b: Exp)
    requires
        exp_like(a, b),
    ensures
        exp_text(a) == exp_text(b),
    decreases a,
{
    match a {
        Exp::Cons(x, y) => {
            match b {
                Exp::Cons(x2, y2) => {
                    lemma_exp_like_text(*x, *x2);
                    lemma_exp_like_text(*y, *y2);
                },
                _ => {
                },
            }
        },
        Exp::Or(x, y) => {
            match b {
                Exp::Or(x2, y2) => {
                    lemma_exp_like_text(*x, *x2);
                    lemma_exp_like_text(*y, *y2);
                },
                _ => {
                },
            }
        },
        Exp::App(_, args) => {
            match b {
                Exp::App(_, args2) => {
                    lemma_exp_args_like_text(args, args2, 0);
                },
                _ => {
                },
            }
        },
        Exp::List(es) => {
            match b {
                Exp::List(es2) => {
                    lemma_exp_args_like_text(es, es2, 0);
                },
                _ => {
                },
            }
        },
        Exp::Many1(x) => {
            match b {
                Exp::Many1(y) => {
                    lemma_exp_like_text(*x, *y);
                },
                _ => {
                },
            }
        },
        Exp::Many0(x) => {
            match b {
                Exp::Many0(y) => {
                    lemma_exp_like_text(*x, *y);
                },
                _ => {
                },
            }
        },
        _ => {
        },
    }
}

/// Like argument lists print identically from any index on.
proof fn lemma_exp_args_like_text(a: Vec<Exp>, b: Vec<Exp>, i: int)
    requires
        a@.len() == b@.len(),
        forall|k: int| 0 <= k < a@.len() ==> exp_like(#[trigger] a@[k], b@[k]),
    ensures
        exp_args_text(a, i) == exp_args_text(b, i),
    decreases a, a@.len() - i,
{
    if 0 <= i < a@.len() {
        lemma_exp_like_text(a@[i], b@[i]);
        lemma_exp_args_like_text(a, b, i + 1);
    }
}

/// Like symbols print identically.
proof fn lemma_item_like_text(a: Item, b: Item)
    requires
        item_like(a, b),
    ensures
        item_text(a) == item_text(b),
{
    match a {
        Item::Terminal(_) => {
        },
        Item::NTerminal(c) => {
            match b {
                Item::NTerminal(d) => {
                    lemma_cat_like_text(c, d);
                },
                Item::Terminal(_) => {
                },
            }
        },
    }
}

/// Like symbol lists print identically from any index on.
proof fn lemma_items_like_text(a: Seq<Item>, b: Seq<Item>, i: int)
    requires
        a.len() == b.len(),
        forall|k: int| 0 <= k < a.len() ==> item_like(#[trigger] a[k], b[k]),
    ensures
        items_text(a, i) == items_text(b, i),
    decreases a.len() - i,
{
    if 0 <= i < a.len() {
        lemma_item_like_text(a[i], b[i]);
        lemma_items_like_text(a, b, i + 1);
    }
}

/// Like definitions print identically.
proof fn lemma_def_like_text(a: Def, b: Def)
    requires
        def_like(a, b),
    ensures
        def_text(a) == def_text(b),
{
    match a {
        Def::Rule(l1, c1, i1) => {
            match b {
                Def::Rule(l2, c2, i2) => {
                    lemma_label_like_text(l1, l2);
                    lemma_cat_like_text(c1, c2);
                    lemma_items_like_text(i1@, i2@, 0);
                },
                Def::Macro(_, _) => {
                },
            }
        },
        Def::Macro(_, e1) => {
            match b {
                Def::Macro(_, e2) => {
                    lemma_exp_like_text(e1, e2);
                },
                Def::Rule(_, _, _) => {
                },
            }
        },
    }
}

/// Like definition lists print identically from any index on.
proof fn lemma_defs_like_text(a: Seq<Def>, b: Seq<Def>, i: int, mode: Mode)
    requires
        a.len() == b.len(),
        forall|k: int| 0 <= k < a.len() ==> def_like(#[trigger] a[k], b[k]),
    ensures
        defs_text(a, i, mode) == defs_text(b, i, mode),
    decreases a.len() - i,
{
    if 0 <= i < a.len() {
        lemma_def_like_text(a[i], b[i]);
        lemma_defs_like_text(a, b, i + 1, mode);
    }
}

/// Escaping idempotence at the grammar level: like grammars print to
/// identical text, in both modes.  Together with the round-trip clause
/// of [`crate::parse`], printing what parsing returned for a printed
/// grammar yields the first text again, byte for byte.
pub proof fn lemma_like_grammars_print_alike(a: Grammar, b: Grammar, mode: Mode)
    requires
        grammar_like(a, b),
    ensures
        grammar_text(a, mode) == grammar_text(b, mode),
{
    lemma_defs_like_text(a.definitions@, b.definitions@, 0, mode);
}

/// Whether position `k` of `s` cannot extend an identifier: the end of
/// the input or a non-identifier character.
pub open spec fn ident_break_at(s: Seq<char>, k: int) -> bool {
    k == s.len() || !is_ident_char(s[k])
}

/// The printed form of a well-formed category is nonempty and starts
/// with a bracket or a letter.
pub proof fn lemma_cat_text_head(c: Cat)
    requires
        wf_cat(c),
    ensures
        cat_text(c).len() > 0,
        cat_text(c)[0] == '[' || is_ident_start(cat_text(c)[0]),
{
    match c {
        Cat::ListCat(_) => {
        },
        Cat::IdCat(i) => {
            assert(cat_text(c)[0] == i.0@[0]);
        },
    }
}

/// Whether an expression is a compound variant, the ones the printer
/// parenthesizes unconditionally.
pub open spec fn is_compound(e: Exp) -> bool {
    match e {
        Exp::Cons(_, _) => true,
        Exp::Or(_, _) => true,
        Exp::Many1(_) => true,
        Exp::Many0(_) => true,
        _ => false,
    }
}

/// The lexical mode of a left-to-right scan of printed text.
pub enum ScanMode {
    /// Between tokens: parentheses count.
    Norm,
    /// Inside a string literal.
    Str,
    /// Inside a string literal, directly after a backslash.
    StrEsc,
    /// Directly after a character literal's opening quote.
    Chr1,
    /// After a character literal's content, before its closing quote.
    Chr2,
}

/// The state of such a scan: the parenthesis depth and the lexical mode.
pub ghost struct ScanState {
    /// How many parentheses are open.
    pub depth: int,
    /// The lexical mode.
    pub mode: ScanMode,
}

/// Whether a scan state has everything closed: no open parenthesis and
/// no open literal.  Printed text that returns to a closed state is
/// complete — nothing after it can change what was read.
pub open spec fn closed(st: ScanState) -> bool {
    st.mode is Norm && st.depth == 0
}

/// The scan state `k` parentheses deeper than `st`, between tokens.
pub open spec fn deeper(st: ScanState, k: int) -> ScanState {
    ScanState { depth: st.depth + k, mode: ScanMode::Norm }
}

/// The scan state at the start of a fresh text: between tokens, no
/// parenthesis open.
pub open spec fn start_state() -> ScanState {
    ScanState { depth: 0, mode: ScanMode::Norm }
}

/// One step of the scan.
pub open spec fn scan_char(st: ScanState, c: char) -> ScanState {
    match st.mode {
        ScanMode::Norm => if c == '(' {
            ScanState { depth: st.depth + 1, mode: ScanMode::Norm }
        } else if c == ')' {
            ScanState { depth: st.depth - 1, mode: ScanMode::Norm }
        } else if c == '"' {
            ScanState { depth: st.depth, mode: ScanMode::Str }
        } else if c == '\'' {
            ScanState { depth: st.depth, mode: ScanMode::Chr1 }
        } else {
            st
        },
        ScanMode::Str => if c == '\\' {
            ScanState { depth: st.depth, mode: ScanMode::StrEsc }
        } else if c == '"' {
            ScanState { depth: st.depth, mode: ScanMode::Norm }
        } else {
            st
        },
        ScanMode::StrEsc => ScanState { depth: st.depth, mode: ScanMode::Str },
        ScanMode::Chr1 => ScanState { depth: st.depth, mode: ScanMode::Chr2 },
        ScanMode::Chr2 => ScanState { depth: st.depth, mode: ScanMode::Norm },
    }
}

/// The scan of a whole sequence.
pub open spec fn scan_text(st: ScanState, s: Seq<char>) -> ScanState
    decreases s.len(),
{
    if s.len() == 0 {
        st
    } else {
        scan_text(scan_char(st, s[0]), s.subrange(1, s.len() as int))
    }
}

/// Whether every nonempty prefix of `s`, scanned from `st`, ends in a
/// state that is not closed.
pub open spec fn open_throughout(st: ScanState, s: Seq<char>) -> bool
    decreases s.len(),
{
    s.len() == 0 || {
        let st1 = scan_char(st, s[0]);
        !closed(st1) && open_throughout(st1, s.subrange(1, s.len() as int))
    }
}

/// Scanning a concatenation scans the two parts in turn.
pub proof fn lemma_scan_append(st: ScanState, a: Seq<char>, b: Seq<char>)
    ensures
        scan_text(st, a + b) == scan_text(scan_text(st, a), b),
    decreases a.len(),
{
    if a.len() == 0 {
        assert(a + b =~= b);
    } else {
        assert((a + b).subrange(1, (a + b).len() as int) =~= a.subrange(1, a.len() as int) + b);
        lemma_scan_append(scan_char(st, a[0]), a.subrange(1, a.len() as int), b);
    }
}

/// A concatenation stays open throughout when each part does, the second
/// one from where the first one's scan ends.
pub proof fn lemma_open_append(st: ScanState, a: Seq<char>, b: Seq<char>)
    requires
        open_throughout(st, a),
        open_throughout(scan_text(st, a), b),
    ensures
        open_throughout(st, a + b),
    decreases a.len(),
{
    if a.len() == 0 {
        assert(a + b =~= b);
    } else {
        assert((a + b).subrange(1, (a + b).len() as int) =~= a.subrange(1, a.len() as int) + b);
        lemma_open_append(scan_char(st, a[0]), a.subrange(1, a.len() as int), b);
    }
}

/// The scan of a single character.
proof fn lemma_scan_one(st: ScanState, c: char)
    ensures
        scan_text(st, seq![c]) == scan_char(st, c),
        open_throughout(st, seq![c]) == !closed(scan_char(st, c)),
{
    let st1 = scan_char(st, c);
    assert(seq![c].subrange(1, 1) =~= Seq::<char>::empty());
    assert(scan_text(st1, Seq::<char>::empty()) == st1);
    assert(open_throughout(st1, Seq::<char>::empty()));
    assert(scan_text(st, seq![c]) == scan_text(st1, seq![c].subrange(1, 1)));
    assert(open_throughout(st, seq![c]) == (!closed(st1) && open_throughout(
        st1,
        seq![c].subrange(1, 1),
    )));
}

/// A character that the scan passes over without a state change.
pub open spec fn plain_char(c: char) -> bool {
    c != '(' && c != ')' && c != '"' && c != '\''
}

/// Plain text leaves the scan state unchanged at every step.
proof fn lemma_scan_plain(st: ScanState, s: Seq<char>)
    requires
        st.mode is Norm,
        forall|k: int| 0 <= k < s.len() ==> plain_char(#[trigger] s[k]),
    ensures
        scan_text(st, s) == st,
        !closed(st) ==> open_throughout(st, s),
    decreases s.len(),
{
    if s.len() > 0 {
        assert(scan_char(st, s[0]) == st);
        lemma_scan_plain(st, s.subrange(1, s.len() as int));
    }
}

/// Identifier characters are plain.
proof fn lemma_ident_chars_plain(s: Seq<char>)
    requires
        forall|k: int| 0 <= k < s.len() ==> is_ident_char(#[trigger] s[k]),
    ensures
        forall|k: int| 0 <= k < s.len() ==> plain_char(#[trigger] s[k]),
{
}

/// Every decimal digit prints as a digit character.
proof fn lemma_digit_char_is_digit(d: int)
    requires
        0 <= d <= 9,
    ensures
        is_digit(digit_char(d)),
{
}

/// The decimal digits of an integer are digit characters.
proof fn lemma_digits_text_digits(n: nat)
    ensures
        forall|k: int| 0 <= k < digits_text(n).len() ==> is_digit(#[trigger] digits_text(n)[k]),
    decreases n,
{
    if n < 10 {
        lemma_digit_char_is_digit(n as int);
        assert forall|k: int| 0 <= k < digits_text(n).len() implies is_digit(
            #[trigger] digits_text(n)[k],
        ) by {
            assert(digits_text(n)[k] == digit_char(n as int));
        }
    } else {
        lemma_digits_text_digits(n / 10);
        lemma_digit_char_is_digit((n % 10) as int);
        assert forall|k: int| 0 <= k < digits_text(n).len() implies is_digit(
            #[trigger] digits_text(n)[k],
        ) by {
            let left = digits_text(n / 10);
            if k < left.len() {
                assert(digits_text(n)[k] == left[k]);
            } else {
                assert(digits_text(n)[k] == digit_char((n % 10) as int));
            }
        }
    }
}

/// The printed form of an integer is plain text.
proof fn lemma_int_text_plain(i: int)
    ensures
        forall|k: int| 0 <= k < int_text(i).len() ==> plain_char(#[trigger] int_text(i)[k]),
{
    if i < 0 {
        lemma_digits_text_digits((-i) as nat);
    } else {
        lemma_digits_text_digits(i as nat);
    }
}

/// The stored text of a well-formed double literal is plain text and
/// already holds its dot.
proof fn lemma_double_text_plain(s: Seq<char>)
    requires
        wf_double_text(s),
    ensures
        has_dot(s),
        double_text(s) == s,
        forall|k: int| 0 <= k < s.len() ==> plain_char(#[trigger] s[k]),
{
    let first: int = if s.len() > 0 && s[0] == '-' {
        1
    } else {
        0
    };
    let dot = choose|dot: int|
        {
            &&& first < dot
            &&& dot + 1 < s.len()
            &&& s[dot] == '.'
            &&& (forall|k: int| first <= k < dot ==> is_digit(#[trigger] s[k]))
            &&& (forall|k: int| dot < k < s.len() ==> is_digit(#[trigger] s[k]))
        };
    assert(s[dot] == '.');
    assert(has_dot(s));
    assert forall|k: int| 0 <= k < s.len() implies plain_char(#[trigger] s[k]) by {
        if k < first {
            assert(s[k] == '-');
        } else if k < dot {
            assert(is_digit(s[k]));
        } else if k == dot {
        } else {
            assert(is_digit(s[k]));
        }
    }
}

/// Escaped string content, scanned in string mode, returns to string
/// mode and never closes, provided the content holds no backslash.
proof fn lemma_scan_escaped(st: ScanState, v: Seq<char>)
    requires
        st.mode is Str,
        forall|k: int| 0 <= k < v.len() ==> v[k] != '\\',
    ensures
        scan_text(st, escaped_text(v)) == st,
        open_throughout(st, escaped_text(v)),
    decreases v.len(),
{
    if v.len() > 0 {
        let rest = v.subrange(1, v.len() as int);
        lemma_scan_escaped(st, rest);
        lemma_scan_append(st, escaped_char(v[0]), escaped_text(rest));
        if v[0] == '"' {
            let st_esc = scan_char(st, '\\');
            lemma_scan_one(st_esc, '"');
            assert(seq!['\\', '"'].subrange(1, 2) =~= seq!['"']);
            assert(scan_text(st, escaped_char(v[0])) == st);
            assert(open_throughout(st, escaped_char(v[0])));
        } else {
            lemma_scan_one(st, v[0]);
            assert(scan_char(st, v[0]) == st);
        }
        lemma_open_append(st, escaped_char(v[0]), escaped_text(rest));
    }
}

/// A printed string literal, scanned from between-token mode, returns to
/// the same state; it never closes on the way when the start state is
/// not itself closed.
proof fn lemma_scan_string(st: ScanState, v: Seq<char>)
    requires
        st.mode is Norm,
        forall|k: int| 0 <= k < v.len() ==> v[k] != '\\',
    ensures
        scan_text(st, seq!['"'] + escaped_text(v) + seq!['"']) == st,
        !closed(st) ==> open_throughout(st, seq!['"'] + escaped_text(v) + seq!['"']),
{
    let st_str = scan_char(st, '"');
    lemma_scan_one(st, '"');
    lemma_scan_escaped(st_str, v);
    lemma_scan_one(st_str, '"');
    lemma_scan_append(st, seq!['"'], escaped_text(v));
    lemma_scan_append(st, seq!['"'] + escaped_text(v), seq!['"']);
    lemma_open_append(st, seq!['"'], escaped_text(v));
    if !closed(st) {
        lemma_open_append(st, seq!['"'] + escaped_text(v), seq!['"']);
    }
}

/// A printed character literal, scanned from between-token mode, returns
/// to the same state and never closes on the way when the start state is
/// not itself closed.
proof fn lemma_scan_char_lit(st: ScanState, c: char)
    requires
        st.mode is Norm,
    ensures
        scan_text(st, seq!['\'', c, '\'']) == st,
        !closed(st) ==> open_throughout(st, seq!['\'', c, '\'']),
{
    let st1 = scan_char(st, '\'');
    let st2 = scan_char(st1, c);
    lemma_scan_one(st, '\'');
    lemma_scan_one(st1, c);
    lemma_scan_one(st2, '\'');
    assert(seq!['\'', c, '\''] =~= seq!['\''] + seq![c] + seq!['\'']);
    lemma_scan_append(st, seq!['\''], seq![c]);
    lemma_scan_append(st, seq!['\''] + seq![c], seq!['\'']);
    lemma_open_append(st, seq!['\''], seq![c]);
    if !closed(st) {
        lemma_open_append(st, seq!['\''] + seq![c], seq!['\'']);
    }
}

/// Wrapping an inner text in parentheses: the scan returns to the start
/// state, every proper prefix stays open, and the whole stays open when
/// the start state is not closed.
proof fn lemma_wrap_parens(st: ScanState, body: Seq<char>)
    requires
        st.mode is Norm,
        st.depth >= 0,
        scan_text(deeper(st, 1), body) == deeper(st, 1),
        open_throughout(deeper(st, 1), body),
    ensures
        scan_text(st, seq!['('] + body + seq![')']) == st,
        !closed(st) ==> open_throughout(st, seq!['('] + body + seq![')']),
        open_throughout(st, (seq!['('] + body + seq![')']).subrange(
            0,
            (seq!['('] + body + seq![')']).len() - 1,
        )),
{
    let st1 = deeper(st, 1);
    assert(scan_char(st, '(') == st1);
    lemma_scan_one(st, '(');
    lemma_scan_one(st1, ')');
    lemma_scan_append(st, seq!['('], body);
    lemma_scan_append(st, seq!['('] + body, seq![')']);
    assert(scan_char(st1, ')') == st);
    lemma_open_append(st, seq!['('], body);
    if !closed(st) {
        lemma_open_append(st, seq!['('] + body, seq![')']);
    }
    assert((seq!['('] + body + seq![')']).subrange(0, (seq!['('] + body + seq![')']).len() - 1)
        =~= seq!['('] + body);
}

/// Whether no string literal in the expression holds a backslash.  A
/// backslash directly before a string's closing quote would be read back
/// as an escape, so the scan guarantees below hold under this condition.
pub open spec fn backslash_free(e: Exp) -> bool
    decreases e,
{
    match e {
        Exp::Cons(a, b) => backslash_free(*a) && backslash_free(*b),
        Exp::Or(a, b) => backslash_free(*a) && backslash_free(*b),
        Exp::App(_, args) => forall|k: int|
            0 <= k < args@.len() ==> backslash_free(#[trigger] args@[k]),
        Exp::List(elems) => forall|k: int|
            0 <= k < elems@.len() ==> backslash_free(#[trigger] elems@[k]),
        Exp::Var(_) => true,
        Exp::Many1(a) => backslash_free(*a),
        Exp::Many0(a) => backslash_free(*a),
        Exp::LitInt(_) => true,
        Exp::LitDouble(_) => true,
        Exp::LitChar(_) => true,
        Exp::LitString(s) => forall|k: int| 0 <= k < s@.len() ==> s@[k] != '\\',
    }
}

/// The scan of one printed expression from between-token mode: it
/// returns to the start state; it never closes on the way when the start
/// state is open; and for a compound expression no proper prefix closes
/// even from a closed start state.
pub proof fn lemma_scan_exp(e: Exp, st: ScanState)
    requires
        wf_exp(e),
        backslash_free(e),
        st.mode is Norm,
        st.depth >= 0,
    ensures
        scan_text(st, exp_text(e)) == st,
        !closed(st) ==> open_throughout(st, exp_text(e)),
        is_compound(e) ==> exp_text(e).len() > 0 && exp_text(e)[0] == '(' && open_throughout(
            st,
            exp_text(e).subrange(0, exp_text(e).len() - 1),
        ),
    decreases e,
{
    let st1 = deeper(st, 1);
    match e {
        Exp::Cons(a, b) => {
            let ta = exp_text(*a);
            let tb = exp_text(*b);
            let mid = seq![' ', ':', ' '];
            lemma_scan_exp(*a, st1);
            lemma_scan_exp(*b, st1);
            lemma_scan_plain(st1, mid);
            lemma_scan_append(st1, ta, mid);
            lemma_open_append(st1, ta, mid);
            lemma_scan_append(st1, ta + mid, tb);
            lemma_open_append(st1, ta + mid, tb);
            lemma_wrap_parens(st, ta + mid + tb);
            assert(exp_text(e) =~= seq!['('] + (ta + mid + tb) + seq![')']);
        },
        Exp::Or(a, b) => {
            let ta = exp_text(*a);
            let tb = exp_text(*b);
            let st2 = deeper(st, 2);
            lemma_scan_exp(*a, st2);
            lemma_scan_exp(*b, st2);
            let mid = seq![' ', '|', ' '];
            lemma_scan_plain(st1, mid);
            lemma_scan_one(st1, '(');
            lemma_scan_one(st2, ')');
            // body = '(' ta ')' mid '(' tb ')'
            let b1 = seq!['('] + ta;
            lemma_scan_append(st1, seq!['('], ta);
            lemma_open_append(st1, seq!['('], ta);
            let b2 = b1 + seq![')'];
            lemma_scan_append(st1, b1, seq![')']);
            lemma_open_append(st1, b1, seq![')']);
            let b3 = b2 + mid;
            lemma_scan_append(st1, b2, mid);
            lemma_open_append(st1, b2, mid);
            let b4 = b3 + seq!['('];
            lemma_scan_append(st1, b3, seq!['(']);
            lemma_open_append(st1, b3, seq!['(']);
            let b5 = b4 + tb;
            lemma_scan_append(st1, b4, tb);
            lemma_open_append(st1, b4, tb);
            let b6 = b5 + seq![')'];
            lemma_scan_append(st1, b5, seq![')']);
            lemma_open_append(st1, b5, seq![')']);
            lemma_wrap_parens(st, b6);
            assert(exp_text(e) =~= seq!['('] + b6 + seq![')']);
        },
        Exp::App(f, args) => {
            let tf = f.0@;
            lemma_ident_chars_plain(tf);
            lemma_scan_plain(st, tf);
            lemma_scan_exp_args(args, 0, st1);
            lemma_scan_one(st, '(');
            lemma_scan_one(st1, ')');
            let ar = exp_args_text(args, 0);
            lemma_scan_append(st, tf, seq!['(']);
            lemma_scan_append(st, tf + seq!['('], ar);
            lemma_scan_append(st, tf + seq!['('] + ar, seq![')']);
            if !closed(st) {
                lemma_open_append(st, tf, seq!['(']);
                lemma_open_append(st, tf + seq!['('], ar);
                lemma_open_append(st, tf + seq!['('] + ar, seq![')']);
            }
            assert(exp_text(e) =~= tf + seq!['('] + ar + seq![')']);
        },
        Exp::List(elems) => {
            lemma_scan_exp_args(elems, 0, st);
            lemma_scan_one(st, '[');
            let ar = exp_args_text(elems, 0);
            let st_after = scan_text(st, seq!['[']);
            assert(st_after == st);
            lemma_scan_append(st, seq!['['], ar);
            lemma_scan_one(st, ']');
            lemma_scan_append(st, seq!['['] + ar, seq![']']);
            if !closed(st) {
                lemma_open_append(st, seq!['['], ar);
                lemma_open_append(st, seq!['['] + ar, seq![']']);
            }
            assert(exp_text(e) =~= seq!['['] + ar + seq![']']);
        },
        Exp::Var(i) => {
            lemma_ident_chars_plain(i.0@);
            lemma_scan_plain(st, i.0@);
        },
        Exp::Many1(a) => {
            let ta = exp_text(*a);
            lemma_scan_exp(*a, deeper(st, 2));
            lemma_many_body(st, ta, '+');
            lemma_wrap_parens(st, seq!['('] + ta + seq![')', '+']);
            assert(exp_text(e) =~= seq!['('] + (seq!['('] + ta + seq![')', '+']) + seq![')']);
        },
        Exp::Many0(a) => {
            let ta = exp_text(*a);
            lemma_scan_exp(*a, deeper(st, 2));
            lemma_many_body(st, ta, '*');
            lemma_wrap_parens(st, seq!['('] + ta + seq![')', '*']);
            assert(exp_text(e) =~= seq!['('] + (seq!['('] + ta + seq![')', '*']) + seq![')']);
        },
        Exp::LitInt(n) => {
            lemma_int_text_plain(n as int);
            lemma_scan_plain(st, int_text(n as int));
        },
        Exp::LitDouble(s) => {
            lemma_double_text_plain(s@);
            lemma_scan_plain(st, s@);
        },
        Exp::LitChar(c) => {
            lemma_scan_char_lit(st, c);
        },
        Exp::LitString(s) => {
            lemma_scan_string(st, s@);
        },
    }
}

/// The inner body of a printed repetition: `( inner ) mark`, scanned one
/// level in, returns to that level and stays open.
proof fn lemma_many_body(st: ScanState, ta: Seq<char>, mark: char)
    requires
        st.mode is Norm,
        st.depth >= 0,
        plain_char(mark),
        scan_text(deeper(st, 2), ta) == deeper(st, 2),
        open_throughout(deeper(st, 2), ta),
    ensures
        scan_text(deeper(st, 1), seq!['('] + ta + seq![')', mark]) == deeper(st, 1),
        open_throughout(deeper(st, 1), seq!['('] + ta + seq![')', mark]),
{
    let st1 = deeper(st, 1);
    let st2 = deeper(st, 2);
    lemma_scan_one(st1, '(');
    lemma_scan_one(st2, ')');
    lemma_scan_one(st1, mark);
    lemma_scan_append(st1, seq!['('], ta);
    lemma_open_append(st1, seq!['('], ta);
    lemma_scan_append(st1, seq!['('] + ta, seq![')']);
    lemma_open_append(st1, seq!['('] + ta, seq![')']);
    assert(seq![')', mark] =~= seq![')'] + seq![mark]);
    assert(seq!['('] + ta + seq![')', mark] =~= (seq!['('] + ta + seq![')']) + seq![mark]);
    lemma_scan_append(st1, seq!['('] + ta + seq![')'], seq![mark]);
    lemma_open_append(st1, seq!['('] + ta + seq![')'], seq![mark]);
}

/// The scan of a printed argument list, from between-token mode: it
/// returns to the start state and never closes on the way when the start
/// state is open.
proof fn lemma_scan_exp_args(args: Vec<Exp>, i: int, st: ScanState)
    requires
        forall|k: int| 0 <= k < args@.len() ==> wf_exp(#[trigger] args@[k]),
        forall|k: int| 0 <= k < args@.len() ==> backslash_free(#[trigger] args@[k]),
        st.mode is Norm,
        st.depth >= 0,
    ensures
        scan_text(st, exp_args_text(args, i)) == st,
        !closed(st) ==> open_throughout(st, exp_args_text(args, i)),
    decreases args, args@.len() - i,
{
    if 0 <= i < args@.len() {
        let te = exp_text(args@[i]);
        let sep: Seq<char> = if i + 1 < args@.len() {
            seq![',', ' ']
        } else {
            Seq::empty()
        };
        lemma_scan_exp(args@[i], st);
        lemma_scan_plain(st, sep);
        lemma_scan_exp_args(args, i + 1, st);
        lemma_scan_append(st, te, sep);
        lemma_scan_append(st, te + sep, exp_args_text(args, i + 1));
        if !closed(st) {
            lemma_open_append(st, te, sep);
            lemma_open_append(st, te + sep, exp_args_text(args, i + 1));
        }
    }
}

/// Parenthesization totality: the printed form of a compound expression
/// (whose string literals hold no backslash) begins with `(`; scanned
/// from a fresh state it is closed exactly at its end and at no proper
/// prefix.  Two printed expressions concatenated with no separator can
/// therefore never be read as one other expression: the first one's end
/// is the first closed point of the text.
pub proof fn lemma_compound_self_delimiting(e: Exp)
    requires
        wf_exp(e),
        backslash_free(e),
        is_compound(e),
    ensures
        exp_text(e).len() > 0,
        exp_text(e)[0] == '(',
        scan_text(start_state(), exp_text(e)) == start_state(),
        open_throughout(start_state(), exp_text(e).subrange(0, exp_text(e).len() - 1)),
{
    lemma_scan_exp(e, start_state());
}

} // verus!
