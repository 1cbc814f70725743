//! The LBNF parser: a recursive-descent reader from source text to the
//! grammar model.
//!
//! The parser accepts the canonical forms the printer emits, with free
//! whitespace between tokens, and it alone establishes the model's
//! well-formedness: every tree it returns satisfies
//! [`crate::grammar::wf_grammar`].  Each reader also carries its piece
//! of the round-trip law: wherever a printed form stands in the input,
//! that reader returns exactly what was printed and stops at its end.

use crate::grammar::Mode;
use crate::printer::{
    cat_text,
    def_text,
    defs_text,
    escaped_text,
    grammar_text,
    item_text,
    items_text,
    label_text,
    lemma_escaped_append,
    lemma_escaped_snoc,
    push_char,
};
use crate::grammar::{
    is_digit,
    is_ident_char,
    is_ident_start,
    wf_cat,
    wf_def,
    wf_double_text,
    wf_exp,
    wf_grammar,
    wf_ident,
    wf_item,
    wf_label,
    Cat,
    Def,
    Exp,
    Grammar,
    Ident,
    Item,
    Label,
};
use vstd::prelude::*;

verus! {

/// A structured parse failure: the offending position (as a character
/// index into the input) and the unexpected character there, `None`
/// standing for an unexpected end of input.
#[derive(Debug, Clone, PartialEq, Eq)]
pub struct ParseError {
    /// The character index at which parsing could not continue.
    pub pos: usize,
    /// The character found there, or `None` at end of input.
    pub found: Option<char>,
}

/// Whether `c` is inter-token whitespace.
pub open spec fn is_space(c: char) -> bool {
    c == ' ' || c == '\n' || c == '\t' || c == '\r'
}

/// A character literal is well-formed whatever it holds.
proof fn wf_exp_lit_char(c: char)
    ensures
        wf_exp(Exp::LitChar(c)),
{
}

/// What every error of this parser says of the input: the position is
/// in range and the reported character is exactly what stands there,
/// `None` at the end of the input.
pub open spec fn err_names_input(s: Seq<char>, e: ParseError) -> bool {
    &&& e.pos <= s.len()
    &&& e.found == (if e.pos < s.len() {
        Some(s[e.pos as int])
    } else {
        None::<char>
    })
}

/// The error for the current position.
fn err_at(s: &Vec<char>, pos: usize) -> (e: ParseError)
    requires
        pos <= s@.len(),
    ensures
        e.pos == pos,
        err_names_input(s@, e),
{
    let found: Option<char> = if pos < s.len() {
        Some(s[pos])
    } else {
        None
    };
    ParseError { pos, found }
}

/// Whether `c` is inter-token whitespace.
fn space_char(c: char) -> (b: bool)
    ensures
        b == is_space(c),
{
    c == ' ' || c == '\n' || c == '\t' || c == '\r'
}

/// Whether `c` may start an identifier.
fn letter_char(c: char) -> (b: bool)
    ensures
        b == is_ident_start(c),
{
    ('a' <= c && c <= 'z') || ('A' <= c && c <= 'Z')
}

/// Whether `c` may continue an identifier.
fn ident_char(c: char) -> (b: bool)
    ensures
        b == is_ident_char(c),
{
    letter_char(c) || ('0' <= c && c <= '9') || c == '_'
}

/// Whether `c` is a decimal digit.
fn digit_char_test(c: char) -> (b: bool)
    ensures
        b == is_digit(c),
{
    '0' <= c && c <= '9'
}

/// The numeric value of a decimal digit.
fn digit_value(c: char) -> (d: u64)
    requires
        is_digit(c),
    ensures
        d <= 9,
{
    if c == '0' {
        0
    } else if c == '1' {
        1
    } else if c == '2' {
        2
    } else if c == '3' {
        3
    } else if c == '4' {
        4
    } else if c == '5' {
        5
    } else if c == '6' {
        6
    } else if c == '7' {
        7
    } else if c == '8' {
        8
    } else {
        9
    }
}

/// The first position at or after `pos` that holds no whitespace.
#[verifier::loop_isolation(false)]
fn skip_ws(s: &Vec<char>, pos: usize) -> (r: usize)
    requires
        pos <= s@.len(),
    ensures
        pos <= r <= s@.len(),
        r < s@.len() ==> !is_space(s@[r as int]),
        forall|k: int| pos <= k < r ==> is_space(#[trigger] s@[k]),
{
    let mut p = pos;
    while p < s.len() && space_char(s[p])
        invariant
            pos <= p <= s@.len(),
            forall|k: int| pos <= k < p ==> is_space(#[trigger] s@[k]),
        decreases s@.len() - p,
    {
        p = p + 1;
    }
    p
}

/// Reads an identifier: a letter, then letters, digits and underscores.
#[verifier::loop_isolation(false)]
fn parse_ident(s: &Vec<char>, pos: usize) -> (r: Result<(Ident, usize), ParseError>)
    requires
        pos <= s@.len(),
    ensures
        r matches Ok((id, p2)) ==> pos < p2 <= s@.len() && wf_ident(id) && id.0@ == s@.subrange(
            pos as int,
            p2 as int,
        ) && (p2 == s@.len() || !is_ident_char(s@[p2 as int])),
        pos < s@.len() && is_ident_start(s@[pos as int]) ==> r is Ok,
        r matches Err(e) ==> err_names_input(s@, e),
{
    if pos >= s.len() || !letter_char(s[pos]) {
        return Err(err_at(s, pos));
    }
    let mut text = String::new();
    push_char(&mut text, s[pos]);
    let mut p = pos + 1;
    while p < s.len() && ident_char(s[p])
        invariant
            pos < p <= s@.len(),
            text@ == s@.subrange(pos as int, p as int),
            is_ident_start(text@[0]),
            forall|k: int| 0 <= k < text@.len() ==> is_ident_char(#[trigger] text@[k]),
        decreases s@.len() - p,
    {
        push_char(&mut text, s[p]);
        proof {
            assert(text@ =~= s@.subrange(pos as int, (p + 1) as int));
        }
        p = p + 1;
    }
    Ok((Ident(text), p))
}

/// The hypothesis of the string-literal round trip: the quoted, escaped
/// form of the backslash-free content `v` stands at `pos`.
pub open spec fn string_printed_at(s: Seq<char>, pos: int, v: Seq<char>) -> bool {
    &&& 0 <= pos
    &&& pos + escaped_text(v).len() + 2 <= s.len()
    &&& s.subrange(pos, pos + escaped_text(v).len() + 2) == seq!['"'] + escaped_text(v) + seq!['"']
    &&& forall|k: int| 0 <= k < v.len() ==> v[k] != '\\'
}

/// The reader's alignment while it walks a printed string literal: the
/// first `k` content characters are read and the position stands at the
/// end of their escaped form.
pub open spec fn string_scan_state(v: Seq<char>, k: int, t: Seq<char>, offset: int) -> bool {
    &&& 0 <= k <= v.len()
    &&& t == v.subrange(0, k)
    &&& offset == escaped_text(v.subrange(0, k)).len()
}

/// What the input holds at an aligned position inside a printed string
/// literal: the escaped form of the next content character, or the
/// closing quote.
proof fn lemma_string_scan_step(s: Seq<char>, pos: int, v: Seq<char>, k: int, p: int)
    requires
        string_printed_at(s, pos, v),
        0 <= k <= v.len(),
        p == pos + 1 + escaped_text(v.subrange(0, k)).len(),
    ensures
        pos + 1 <= p <= pos + 1 + escaped_text(v).len(),
        k == v.len() ==> p == pos + 1 + escaped_text(v).len() && p < s.len() && s[p] == '"',
        k < v.len() && v[k] == '"' ==> p + 1 < s.len() && s[p] == '\\' && s[p + 1] == '"',
        k < v.len() && v[k] != '"' ==> p < s.len() && s[p] == v[k],
{
    let full = seq!['"'] + escaped_text(v) + seq!['"'];
    let w = escaped_text(v.subrange(0, k)).len() as int;
    assert(forall|j: int| 0 <= j < full.len() ==> s[pos + j] == #[trigger] full[j]) by {
        assert(forall|j: int|
            0 <= j < full.len() ==> s.subrange(pos, pos + escaped_text(v).len() + 2)[j]
                == #[trigger] full[j]);
    }
    assert(v.subrange(0, k) + v.subrange(k, v.len() as int) =~= v);
    lemma_escaped_append(v.subrange(0, k), v.subrange(k, v.len() as int));
    let tail = escaped_text(v.subrange(k, v.len() as int));
    if k == v.len() {
        assert(v.subrange(k, v.len() as int) =~= Seq::<char>::empty());
        assert(tail =~= Seq::<char>::empty());
        assert(escaped_text(v) == escaped_text(v.subrange(0, k)));
        assert(s[p] == full[1 + w]);
        assert(full[1 + escaped_text(v).len() as int] == '"');
    } else {
        let rest = v.subrange(k, v.len() as int);
        assert(rest[0] == v[k]);
        assert(rest.subrange(1, rest.len() as int) =~= v.subrange(k + 1, v.len() as int));
        assert(tail == crate::printer::escaped_char(v[k]) + escaped_text(
            v.subrange(k + 1, v.len() as int),
        ));
        if v[k] == '"' {
            assert(escaped_text(v)[w] == '\\');
            assert(escaped_text(v)[w + 1] == '"');
            assert(s[p] == full[1 + w]);
            assert(s[p + 1] == full[1 + w + 1]);
        } else {
            assert(escaped_text(v)[w] == v[k]);
            assert(s[p] == full[1 + w]);
        }
    }
}

/// Reads a double-quoted string literal, undoing the `\"` escape; a
/// backslash before any other character stands for itself.  On success
/// the returned value is exactly the consumed content, read back as
/// [`crate::laws::unescaped_text`] says.  Wherever the printed form of a
/// backslash-free content stands, the reader returns that content and
/// stops directly after the closing quote.
#[verifier::loop_isolation(false)]
fn parse_string_chars(s: &Vec<char>, pos: usize) -> (r: Result<(String, usize), ParseError>)
    requires
        pos <= s@.len(),
    ensures
        r matches Ok((t, p2)) ==> pos + 2 <= p2 <= s@.len() && s@[pos as int] == '"' && s@[p2 - 1]
            == '"' && t@ == crate::laws::unescaped_text(s@.subrange(pos + 1, p2 - 1)),
        r matches Err(e) ==> err_names_input(s@, e),
        forall|v: Seq<char>|
            #[trigger] string_printed_at(s@, pos as int, v) ==> (r matches Ok(t) && t.0@ == v
                && t.1 == pos + escaped_text(v).len() + 2),
{
    if pos >= s.len() || s[pos] != '"' {
        proof {
            assert forall|v: Seq<char>| #[trigger] string_printed_at(
                s@,
                pos as int,
                v,
            ) implies false by {
                lemma_string_scan_step(s@, pos as int, v, 0, pos + 1);
                assert(s@[pos as int] == (seq!['"'] + escaped_text(v) + seq!['"'])[0]);
                assert(s@.subrange(pos as int, pos + escaped_text(v).len() + 2)[0] == s@[
                    pos as int
                ]);
            }
        }
        return Err(err_at(s, pos));
    }
    let mut text = String::new();
    let mut p = pos + 1;
    proof {
        assert forall|v: Seq<char>| #[trigger] string_printed_at(s@, pos as int, v) implies exists|
            k: int,
        | #[trigger] string_scan_state(v, k, text@, p - pos - 1) by {
            assert(v.subrange(0, 0) =~= text@);
            assert(string_scan_state(v, 0, text@, p - pos - 1));
        }
    }
    while p < s.len()
        invariant
            pos < p <= s@.len(),
            forall|end: int|
                p <= end <= s@.len() ==> crate::laws::unescaped_text(
                    s@.subrange(pos + 1, end),
                ) == text@ + crate::laws::unescaped_text(#[trigger] s@.subrange(p as int, end)),
            forall|v: Seq<char>|
                #[trigger] string_printed_at(s@, pos as int, v) ==> exists|k: int|
                    #[trigger] string_scan_state(v, k, text@, p - pos - 1),
        decreases s@.len() - p,
    {
        let c = s[p];
        if c == '"' {
            proof {
                assert(s@.subrange(p as int, p as int) =~= Seq::<char>::empty());
                assert(crate::laws::unescaped_text(s@.subrange(pos + 1, p as int)) == text@
                    + crate::laws::unescaped_text(s@.subrange(p as int, p as int)));
                assert(text@ =~= text@ + Seq::<char>::empty());
                assert forall|v: Seq<char>| #[trigger] string_printed_at(
                    s@,
                    pos as int,
                    v,
                ) implies text@ == v && p + 1 == pos + escaped_text(v).len() + 2 by {
                    let k = choose|k: int| #[trigger] string_scan_state(v, k, text@, p - pos - 1);
                    lemma_string_scan_step(s@, pos as int, v, k, p as int);
                    assert(k == v.len());
                    assert(v.subrange(0, v.len() as int) =~= v);
                }
            }
            return Ok((text, p + 1));
        }
        if c == '\\' && p + 1 < s.len() && s[p + 1] == '"' {
            let ghost t0 = text@;
            let ghost p0 = p as int;
            push_char(&mut text, '"');
            proof {
                assert forall|v: Seq<char>| #[trigger] string_printed_at(
                    s@,
                    pos as int,
                    v,
                ) implies exists|k2: int| #[trigger] string_scan_state(v, k2, text@, p0 + 2 - pos - 1) by {
                    let k = choose|k: int| #[trigger] string_scan_state(v, k, t0, p0 - pos - 1);
                    lemma_string_scan_step(s@, pos as int, v, k, p0);
                    assert(k < v.len() && v[k] == '"');
                    lemma_escaped_snoc(v.subrange(0, k), v[k]);
                    assert(v.subrange(0, k + 1) =~= v.subrange(0, k) + seq![v[k]]);
                    assert(text@ =~= v.subrange(0, k + 1));
                    assert(string_scan_state(v, k + 1, text@, p0 + 2 - pos - 1));
                }
            }
            proof {
                assert forall|end: int| p + 2 <= end <= s@.len() implies crate::laws::unescaped_text(
                    s@.subrange(pos + 1, end),
                ) == text@ + crate::laws::unescaped_text(#[trigger] s@.subrange(
                    (p + 2) as int,
                    end,
                )) by {
                    let seg = s@.subrange(p as int, end);
                    let rest = crate::laws::unescaped_text(s@.subrange((p + 2) as int, end));
                    assert(seg.len() >= 2 && seg[0] == '\\' && seg[1] == '"');
                    assert(seg.subrange(2, seg.len() as int) =~= s@.subrange((p + 2) as int, end));
                    assert(crate::laws::unescaped_text(seg) == seq!['"'] + rest);
                    assert(crate::laws::unescaped_text(s@.subrange(pos + 1, end)) == t0 + (seq!['"']
                        + rest));
                    assert(t0 + (seq!['"'] + rest) =~= (t0 + seq!['"']) + rest);
                }
            }
            p = p + 2;
        } else {
            let ghost t0 = text@;
            let ghost p0 = p as int;
            push_char(&mut text, c);
            proof {
                assert forall|v: Seq<char>| #[trigger] string_printed_at(
                    s@,
                    pos as int,
                    v,
                ) implies exists|k2: int| #[trigger] string_scan_state(v, k2, text@, p0 + 1 - pos - 1) by {
                    let k = choose|k: int| #[trigger] string_scan_state(v, k, t0, p0 - pos - 1);
                    lemma_string_scan_step(s@, pos as int, v, k, p0);
                    assert(k < v.len() && v[k] != '"');
                    lemma_escaped_snoc(v.subrange(0, k), v[k]);
                    assert(v.subrange(0, k + 1) =~= v.subrange(0, k) + seq![v[k]]);
                    assert(text@ =~= v.subrange(0, k + 1));
                    assert(string_scan_state(v, k + 1, text@, p0 + 1 - pos - 1));
                }
            }
            proof {
                assert forall|end: int| p + 1 <= end <= s@.len() implies crate::laws::unescaped_text(
                    s@.subrange(pos + 1, end),
                ) == text@ + crate::laws::unescaped_text(#[trigger] s@.subrange(
                    (p + 1) as int,
                    end,
                )) by {
                    let seg = s@.subrange(p as int, end);
                    let rest = crate::laws::unescaped_text(s@.subrange((p + 1) as int, end));
                    assert(seg.len() >= 1 && seg[0] == c);
                    assert(!(seg.len() >= 2 && seg[0] == '\\' && seg[1] == '"'));
                    assert(seg.subrange(1, seg.len() as int) =~= s@.subrange((p + 1) as int, end));
                    assert(crate::laws::unescaped_text(seg) == seq![c] + rest);
                    assert(crate::laws::unescaped_text(s@.subrange(pos + 1, end)) == t0 + (seq![c]
                        + rest));
                    assert(t0 + (seq![c] + rest) =~= (t0 + seq![c]) + rest);
                }
            }
            p = p + 1;
        }
    }
    proof {
        assert forall|v: Seq<char>| #[trigger] string_printed_at(s@, pos as int, v) implies false by {
            let k = choose|k: int| #[trigger] string_scan_state(v, k, text@, p - pos - 1);
            lemma_string_scan_step(s@, pos as int, v, k, p as int);
        }
    }
    Err(err_at(s, p))
}

/// Reads a character literal: a quote, exactly one raw character, a
/// quote.
fn parse_char_lit(s: &Vec<char>, pos: usize) -> (r: Result<(Exp, usize), ParseError>)
    requires
        pos <= s@.len(),
    ensures
        r matches Ok((e, p2)) ==> pos < p2 <= s@.len() && wf_exp(e),
        r matches Err(e) ==> err_names_input(s@, e),
{
    if pos >= s.len() || s[pos] != '\'' {
        return Err(err_at(s, pos));
    }
    if pos + 1 >= s.len() {
        return Err(err_at(s, s.len()));
    }
    let c = s[pos + 1];
    if pos + 2 >= s.len() || s[pos + 2] != '\'' {
        return Err(err_at(s, if pos + 2 < s.len() {
            pos + 2
        } else {
            s.len()
        }));
    }
    proof {
        wf_exp_lit_char(c);
    }
    Ok((Exp::LitChar(c), pos + 3))
}

/// Reads an integer or double literal: an optional minus sign and
/// digits, with a dot and further digits making it a double.  An integer
/// outside the 64-bit signed range is a parse failure.
#[verifier::loop_isolation(false)]
fn parse_number(s: &Vec<char>, pos: usize) -> (r: Result<(Exp, usize), ParseError>)
    requires
        pos <= s@.len(),
    ensures
        r matches Ok((e, p2)) ==> pos < p2 <= s@.len() && wf_exp(e) && (e matches Exp::LitDouble(d)
            ==> d@ == s@.subrange(pos as int, p2 as int)),
        r matches Err(e) ==> err_names_input(s@, e),
{
    let mut p = pos;
    let neg: bool = if p < s.len() && s[p] == '-' {
        p = p + 1;
        true
    } else {
        false
    };
    if p >= s.len() || !digit_char_test(s[p]) {
        return Err(err_at(s, p));
    }
    let int_start = p;
    while p < s.len() && digit_char_test(s[p])
        invariant
            int_start <= p <= s@.len(),
            forall|k: int| int_start <= k < p ==> is_digit(#[trigger] s@[k]),
        decreases s@.len() - p,
    {
        p = p + 1;
    }
    assert(p > int_start);
    if p < s.len() && s[p] == '.' && p + 1 < s.len() && digit_char_test(s[p + 1]) {
        let dot = p;
        let mut q = p + 1;
        while q < s.len() && digit_char_test(s[q])
            invariant
                dot + 1 <= q <= s@.len(),
                forall|k: int| dot < k < q ==> is_digit(#[trigger] s@[k]),
            decreases s@.len() - q,
        {
            q = q + 1;
        }
        let mut text = String::new();
        let mut k = pos;
        while k < q
            invariant
                pos <= k <= q <= s@.len(),
                text@ == s@.subrange(pos as int, k as int),
            decreases q - k,
        {
            push_char(&mut text, s[k]);
            proof {
                assert(text@ =~= s@.subrange(pos as int, (k + 1) as int));
            }
            k = k + 1;
        }
        proof {
            let t = text@;
            let first: int = if neg {
                1
            } else {
                0
            };
            assert(t[dot - pos] == s@[dot as int]);
            assert(forall|j: int| first <= j < dot - pos ==> is_digit(#[trigger] t[j]));
            assert(forall|j: int| dot - pos < j < t.len() ==> is_digit(#[trigger] t[j]));
            assert(wf_double_text(t));
        }
        return Ok((Exp::LitDouble(text), q));
    }
    let mut val: u64 = 0;
    let mut k = int_start;
    while k < p
        invariant
            int_start <= k <= p <= s@.len(),
            forall|j: int| int_start <= j < p ==> is_digit(#[trigger] s@[j]),
        decreases p - k,
    {
        let d = digit_value(s[k]);
        if val > (18446744073709551615u64 - d) / 10 {
            return Err(err_at(s, pos));
        }
        val = val * 10 + d;
        k = k + 1;
    }
    if neg {
        if val > 9223372036854775808u64 {
            return Err(err_at(s, pos));
        }
        let n: i64 = if val == 9223372036854775808u64 {
            i64::MIN
        } else {
            -(val as i64)
        };
        Ok((Exp::LitInt(n), p))
    } else {
        if val > 9223372036854775807u64 {
            return Err(err_at(s, pos));
        }
        Ok((Exp::LitInt(val as i64), p))
    }
}

/// The hypothesis of the label round trip: a well-formed label's printed
/// form stands at `pos` and cannot be extended as an identifier.
pub open spec fn label_printed_at(s: Seq<char>, pos: int, l: Label) -> bool {
    &&& wf_label(l)
    &&& 0 <= pos
    &&& pos + label_text(l).len() <= s.len()
    &&& s.subrange(pos, pos + label_text(l).len()) == label_text(l)
    &&& crate::laws::ident_break_at(s, pos + label_text(l).len())
}

/// The characters that a printed label's form pins in the input.
proof fn lemma_label_printed_chars(s: Seq<char>, pos: int, l: Label)
    requires
        label_printed_at(s, pos, l),
    ensures
        label_text(l).len() > 0,
        s[pos] == label_text(l)[0],
        label_text(l).len() >= 2 ==> s[pos + 1] == label_text(l)[1],
        label_text(l).len() >= 3 ==> s[pos + 2] == label_text(l)[2],
        label_text(l).len() >= 4 ==> s[pos + 3] == label_text(l)[3],
        label_text(l).len() >= 5 ==> s[pos + 4] == label_text(l)[4],
        forall|k: int|
            0 <= k < label_text(l).len() ==> s[pos + k] == #[trigger] label_text(l)[k],
{
    assert(forall|k: int|
        0 <= k < label_text(l).len() ==> s.subrange(pos, pos + label_text(l).len())[k]
            == #[trigger] label_text(l)[k]);
}

/// Reads a label: an identifier, `_`, `[]`, `(:)` or `(:[])`.  Wherever
/// a well-formed label's printed form stands, the reader returns that
/// label and stops exactly at its end.
fn parse_label(s: &Vec<char>, pos: usize) -> (r: Result<(Label, usize), ParseError>)
    requires
        pos <= s@.len(),
    ensures
        r matches Ok((l, p2)) ==> pos < p2 <= s@.len() && wf_label(l),
        r matches Err(e) ==> err_names_input(s@, e),
        forall|l: Label|
            #[trigger] label_printed_at(s@, pos as int, l) ==> (r matches Ok(v)
                && crate::laws::label_like(l, v.0) && v.1 == pos + label_text(l).len()),
{
    if pos >= s.len() {
        proof {
            assert forall|l: Label| #[trigger] label_printed_at(s@, pos as int, l) implies false by {
                lemma_label_printed_chars(s@, pos as int, l);
            }
        }
        return Err(err_at(s, pos));
    }
    let c = s[pos];
    if c == '_' {
        proof {
            assert forall|l: Label| #[trigger] label_printed_at(
                s@,
                pos as int,
                l,
            ) implies crate::laws::label_like(l, Label::Wild) && pos + 1 == pos + label_text(
                l,
            ).len() by {
                lemma_label_printed_chars(s@, pos as int, l);
            }
        }
        Ok((Label::Wild, pos + 1))
    } else if c == '[' {
        if pos + 1 < s.len() && s[pos + 1] == ']' {
            proof {
                assert forall|l: Label| #[trigger] label_printed_at(
                    s@,
                    pos as int,
                    l,
                ) implies crate::laws::label_like(l, Label::ListE) && pos + 2 == pos + label_text(
                    l,
                ).len() by {
                    lemma_label_printed_chars(s@, pos as int, l);
                }
            }
            Ok((Label::ListE, pos + 2))
        } else {
            proof {
                assert forall|l: Label| #[trigger] label_printed_at(
                    s@,
                    pos as int,
                    l,
                ) implies false by {
                    lemma_label_printed_chars(s@, pos as int, l);
                }
            }
            Err(err_at(s, if pos + 1 < s.len() {
                pos + 1
            } else {
                s.len()
            }))
        }
    } else if c == '(' {
        if pos + 1 < s.len() && pos + 2 < s.len() && s[pos + 1] == ':' && s[pos + 2] == ')' {
            proof {
                assert forall|l: Label| #[trigger] label_printed_at(
                    s@,
                    pos as int,
                    l,
                ) implies crate::laws::label_like(l, Label::ListCons) && pos + 3 == pos
                    + label_text(l).len() by {
                    lemma_label_printed_chars(s@, pos as int, l);
                }
            }
            Ok((Label::ListCons, pos + 3))
        } else if pos + 1 < s.len() && pos + 2 < s.len() && pos + 3 < s.len() && pos + 4 < s.len()
            && s[pos + 1] == ':' && s[pos + 2] == '[' && s[pos + 3] == ']' && s[pos + 4] == ')' {
            proof {
                assert forall|l: Label| #[trigger] label_printed_at(
                    s@,
                    pos as int,
                    l,
                ) implies crate::laws::label_like(l, Label::ListOne) && pos + 5 == pos + label_text(
                    l,
                ).len() by {
                    lemma_label_printed_chars(s@, pos as int, l);
                }
            }
            Ok((Label::ListOne, pos + 5))
        } else {
            proof {
                assert forall|l: Label| #[trigger] label_printed_at(
                    s@,
                    pos as int,
                    l,
                ) implies false by {
                    lemma_label_printed_chars(s@, pos as int, l);
                }
            }
            Err(err_at(s, pos))
        }
    } else {
        let idr = parse_ident(s, pos);
        let (id, p) = match idr {
            Ok(v) => v,
            Err(e) => {
                proof {
                    assert forall|l: Label| #[trigger] label_printed_at(
                        s@,
                        pos as int,
                        l,
                    ) implies false by {
                        lemma_label_printed_chars(s@, pos as int, l);
                    }
                }
                return Err(e);
            },
        };
        proof {
            assert forall|l: Label| #[trigger] label_printed_at(
                s@,
                pos as int,
                l,
            ) implies crate::laws::label_like(l, Label::Id(id)) && p == pos + label_text(
                l,
            ).len() by {
                lemma_label_printed_chars(s@, pos as int, l);
                match l {
                    Label::Id(i) => {
                        let after = pos + i.0@.len();
                        assert(forall|k: int|
                            pos <= k < after ==> s@[k] == #[trigger] i.0@[k - pos]);
                        assert(forall|k: int|
                            pos <= k < p ==> s@[k] == #[trigger] id.0@[k - pos]);
                        if p < after {
                            assert(is_ident_char(i.0@[p - pos]));
                            assert(false);
                        }
                        if p > after {
                            assert(is_ident_char(id.0@[after - pos]));
                            assert(false);
                        }
                        assert(id.0@ =~= i.0@);
                    },
                    _ => {
                    },
                }
            }
        }
        Ok((Label::Id(id), p))
    }
}

/// The hypothesis of the category round trip: a well-formed category's
/// printed form stands at `pos` and cannot be extended as an identifier.
pub open spec fn cat_printed_at(s: Seq<char>, pos: int, c: Cat) -> bool {
    &&& wf_cat(c)
    &&& crate::laws::cat_text_at(s, pos, c)
    &&& crate::laws::ident_break_at(s, pos + cat_text(c).len())
}

/// When the printed form of a list category stands at `pos`, the printed
/// form of its inner category stands after the opening bracket, with the
/// closing bracket breaking it off.
proof fn lemma_cat_printed_unwrap(s: Seq<char>, pos: int, x: Cat)
    requires
        wf_cat(x),
        cat_printed_at(s, pos, Cat::ListCat(Box::new(x))),
    ensures
        s[pos] == '[',
        cat_printed_at(s, pos + 1, x),
        pos + 1 + cat_text(x).len() < s.len(),
        s[pos + 1 + cat_text(x).len()] == ']',
        !is_space(s[pos + 1]),
{
    let c = Cat::ListCat(Box::new(x));
    let whole = cat_text(c);
    let l = cat_text(x).len() as int;
    assert(whole =~= seq!['['] + cat_text(x) + seq![']']);
    assert(s.subrange(pos, pos + whole.len() as int) == whole);
    assert(s[pos] == whole[0]);
    assert(s[pos + 1 + l] == whole[1 + l]);
    assert(s.subrange(pos + 1, pos + 1 + l) =~= whole.subrange(1, 1 + l));
    assert(whole.subrange(1, 1 + l) =~= cat_text(x));
    crate::laws::lemma_cat_text_head(x);
    assert(s[pos + 1] == cat_text(x)[0]);
}

/// Reads a category: an identifier, or a category in square brackets.
/// Besides the bounds and well-formedness of what comes back, this
/// carries one instance of the round-trip law: wherever a well-formed
/// category's printed form stands, the reader returns that category and
/// stops exactly at its end.
fn parse_cat(s: &Vec<char>, pos: usize) -> (r: Result<(Cat, usize), ParseError>)
    requires
        pos <= s@.len(),
    ensures
        r matches Ok((c, p2)) ==> pos < p2 <= s@.len() && wf_cat(c),
        r matches Err(e) ==> err_names_input(s@, e),
        forall|c: Cat|
            #[trigger] cat_printed_at(s@, pos as int, c) ==> (r matches Ok(v)
                && crate::laws::cat_like(c, v.0) && v.1 == pos + cat_text(c).len()),
    decreases s@.len() - pos,
{
    if pos >= s.len() {
        proof {
            assert forall|c: Cat| #[trigger] cat_printed_at(s@, pos as int, c) implies false by {
                crate::laws::lemma_cat_text_head(c);
            }
        }
        return Err(err_at(s, pos));
    }
    if s[pos] == '[' {
        let q = skip_ws(s, pos + 1);
        proof {
            assert forall|x: Cat|
                wf_cat(x) && #[trigger] cat_printed_at(
                    s@,
                    pos as int,
                    Cat::ListCat(Box::new(x)),
                ) implies q == pos + 1 && cat_printed_at(s@, pos + 1, x) by {
                lemma_cat_printed_unwrap(s@, pos as int, x);
            }
        }
        let rec = parse_cat(s, q);
        let (inner, p) = match rec {
            Ok(v) => v,
            Err(e) => {
                proof {
                    assert forall|c: Cat| #[trigger] cat_printed_at(
                        s@,
                        pos as int,
                        c,
                    ) implies false by {
                        crate::laws::lemma_cat_text_head(c);
                        match c {
                            Cat::ListCat(x) => {
                                assert(c == Cat::ListCat(Box::new(*x)));
                                lemma_cat_printed_unwrap(s@, pos as int, *x);
                                assert(cat_printed_at(s@, q as int, *x));
                            },
                            Cat::IdCat(i) => {
                                assert(s@[pos as int] == i.0@[0]);
                            },
                        }
                    }
                }
                return Err(e);
            },
        };
        let r2 = skip_ws(s, p);
        proof {
            assert forall|c: Cat| #[trigger] cat_printed_at(s@, pos as int, c) implies s@[p as int]
                == ']' && r2 == p && p + 1 == pos + cat_text(c).len() && crate::laws::cat_like(
                c,
                Cat::ListCat(Box::new(inner)),
            ) by {
                crate::laws::lemma_cat_text_head(c);
                match c {
                    Cat::ListCat(x) => {
                        assert(c == Cat::ListCat(Box::new(*x)));
                        lemma_cat_printed_unwrap(s@, pos as int, *x);
                        assert(cat_printed_at(s@, q as int, *x));
                        assert(crate::laws::cat_like(*x, inner) && p == pos + 1 + cat_text(
                            *x,
                        ).len());
                        assert(cat_text(c).len() == 2 + cat_text(*x).len());
                    },
                    Cat::IdCat(i) => {
                        assert(s@[pos as int] == i.0@[0]);
                    },
                }
            }
        }
        if r2 < s.len() && s[r2] == ']' {
            Ok((Cat::ListCat(Box::new(inner)), r2 + 1))
        } else {
            Err(err_at(s, r2))
        }
    } else {
        let idr = parse_ident(s, pos);
        let (id, p) = match idr {
            Ok(v) => v,
            Err(e) => {
                proof {
                    assert forall|c: Cat| #[trigger] cat_printed_at(
                        s@,
                        pos as int,
                        c,
                    ) implies false by {
                        crate::laws::lemma_cat_text_head(c);
                    }
                }
                return Err(e);
            },
        };
        proof {
            assert forall|c: Cat| #[trigger] cat_printed_at(s@, pos as int, c) implies crate::laws::cat_like(
                c,
                Cat::IdCat(id),
            ) && p == pos + cat_text(c).len() by {
                crate::laws::lemma_cat_text_head(c);
                match c {
                    Cat::ListCat(_) => {
                        assert(s@[pos as int] == cat_text(c)[0]);
                    },
                    Cat::IdCat(i) => {
                        let after = pos + i.0@.len();
                        assert(forall|k: int|
                            pos <= k < after ==> s@[k] == #[trigger] i.0@[k - pos]);
                        assert(forall|k: int|
                            pos <= k < p ==> s@[k] == #[trigger] id.0@[k - pos]);
                        if p < after {
                            assert(is_ident_char(i.0@[p - pos]));
                            assert(false);
                        }
                        if p > after {
                            assert(is_ident_char(id.0@[after - pos]));
                            assert(false);
                        }
                        assert(id.0@ =~= i.0@);
                    },
                }
            }
        }
        Ok((Cat::IdCat(id), p))
    }
}

/// The hypothesis of the symbol round trip: the printed form of the
/// symbol stands at `pos` — quoted backslash-free content for a
/// terminal, a well-formed category with an identifier break for a
/// nonterminal.
pub open spec fn item_printed_at(s: Seq<char>, pos: int, it: Item) -> bool {
    match it {
        Item::Terminal(x) => string_printed_at(s, pos, x@),
        Item::NTerminal(c) => cat_printed_at(s, pos, c),
    }
}

/// A printed category never begins with a quote.
proof fn lemma_cat_not_quote(s: Seq<char>, pos: int, c: Cat)
    requires
        cat_printed_at(s, pos, c),
    ensures
        pos < s.len(),
        s[pos] != '"',
        s[pos] == cat_text(c)[0],
{
    crate::laws::lemma_cat_text_head(c);
    assert(s.subrange(pos, pos + cat_text(c).len())[0] == cat_text(c)[0]);
}

/// A printed terminal begins with a quote.
proof fn lemma_terminal_quote(s: Seq<char>, pos: int, v: Seq<char>)
    requires
        string_printed_at(s, pos, v),
    ensures
        pos < s.len(),
        s[pos] == '"',
{
    assert(s.subrange(pos, pos + escaped_text(v).len() + 2)[0] == (seq!['"'] + escaped_text(v)
        + seq!['"'])[0]);
}

/// Reads one right-hand-side symbol: a quoted terminal or a category.
/// Wherever a symbol's printed form stands, the reader returns that
/// symbol and stops exactly at its end.
fn parse_item(s: &Vec<char>, pos: usize) -> (r: Result<(Item, usize), ParseError>)
    requires
        pos <= s@.len(),
    ensures
        r matches Ok((it, p2)) ==> pos < p2 <= s@.len() && wf_item(it),
        r matches Err(e) ==> err_names_input(s@, e),
        forall|it: Item|
            #[trigger] item_printed_at(s@, pos as int, it) ==> (r matches Ok(v)
                && crate::laws::item_like(it, v.0) && v.1 == pos + item_text(it).len()),
{
    if pos < s.len() && s[pos] == '"' {
        let sr = parse_string_chars(s, pos);
        let (text, p) = match sr {
            Ok(v) => v,
            Err(e) => {
                proof {
                    assert forall|it: Item| #[trigger] item_printed_at(
                        s@,
                        pos as int,
                        it,
                    ) implies false by {
                        match it {
                            Item::Terminal(x) => {
                                assert(string_printed_at(s@, pos as int, x@));
                            },
                            Item::NTerminal(c) => {
                                lemma_cat_not_quote(s@, pos as int, c);
                            },
                        }
                    }
                }
                return Err(e);
            },
        };
        proof {
            assert forall|it: Item| #[trigger] item_printed_at(
                s@,
                pos as int,
                it,
            ) implies crate::laws::item_like(it, Item::Terminal(text)) && p == pos + item_text(
                it,
            ).len() by {
                match it {
                    Item::Terminal(x) => {
                        assert(string_printed_at(s@, pos as int, x@));
                        assert(item_text(it) =~= seq!['"'] + escaped_text(x@) + seq!['"']);
                    },
                    Item::NTerminal(c) => {
                        lemma_cat_not_quote(s@, pos as int, c);
                    },
                }
            }
        }
        Ok((Item::Terminal(text), p))
    } else {
        let cr = parse_cat(s, pos);
        let (c, p) = match cr {
            Ok(v) => v,
            Err(e) => {
                proof {
                    assert forall|it: Item| #[trigger] item_printed_at(
                        s@,
                        pos as int,
                        it,
                    ) implies false by {
                        match it {
                            Item::Terminal(x) => {
                                lemma_terminal_quote(s@, pos as int, x@);
                            },
                            Item::NTerminal(c2) => {
                                assert(cat_printed_at(s@, pos as int, c2));
                            },
                        }
                    }
                }
                return Err(e);
            },
        };
        proof {
            assert forall|it: Item| #[trigger] item_printed_at(
                s@,
                pos as int,
                it,
            ) implies crate::laws::item_like(it, Item::NTerminal(c)) && p == pos + item_text(
                it,
            ).len() by {
                match it {
                    Item::Terminal(x) => {
                        lemma_terminal_quote(s@, pos as int, x@);
                    },
                    Item::NTerminal(c2) => {
                        assert(cat_printed_at(s@, pos as int, c2));
                    },
                }
            }
        }
        Ok((Item::NTerminal(c), p))
    }
}

/// Reads an expression: a postfix expression, optionally continued by
/// `:` (cons) or `|` (alternative), both grouping to the right.
fn parse_exp(s: &Vec<char>, pos: usize) -> (r: Result<(Exp, usize), ParseError>)
    requires
        pos <= s@.len(),
    ensures
        r matches Ok((e, p2)) ==> pos < p2 <= s@.len() && wf_exp(e),
        r matches Err(e) ==> err_names_input(s@, e),
    decreases s@.len() - pos, 3int,
{
    let (e1, p) = parse_postfix(s, pos)?;
    let q = skip_ws(s, p);
    if q < s.len() && s[q] == ':' {
        let q2 = skip_ws(s, q + 1);
        let (e2, p3) = parse_exp(s, q2)?;
        Ok((Exp::Cons(Box::new(e1), Box::new(e2)), p3))
    } else if q < s.len() && s[q] == '|' {
        let q2 = skip_ws(s, q + 1);
        let (e2, p3) = parse_exp(s, q2)?;
        Ok((Exp::Or(Box::new(e1), Box::new(e2)), p3))
    } else {
        Ok((e1, p))
    }
}

/// Reads a primary expression followed by any number of `+` and `*`
/// repetition marks.
fn parse_postfix(s: &Vec<char>, pos: usize) -> (r: Result<(Exp, usize), ParseError>)
    requires
        pos <= s@.len(),
    ensures
        r matches Ok((e, p2)) ==> pos < p2 <= s@.len() && wf_exp(e),
        r matches Err(e) ==> err_names_input(s@, e),
    decreases s@.len() - pos, 2int,
{
    let (e, p) = parse_primary(s, pos)?;
    parse_postfix_marks(s, e, p, pos)
}

/// Wraps `e` in `Many1` or `Many0` for each `+` or `*` found next.
fn parse_postfix_marks(s: &Vec<char>, e: Exp, pos: usize, start: usize) -> (r: Result<
    (Exp, usize),
    ParseError,
>)
    requires
        pos <= s@.len(),
        start < pos,
        wf_exp(e),
    ensures
        r matches Ok((e2, p2)) ==> start < p2 <= s@.len() && pos <= p2 && wf_exp(e2),
        r matches Err(er) ==> err_names_input(s@, er),
    decreases s@.len() - pos,
{
    let q = skip_ws(s, pos);
    if q < s.len() && s[q] == '+' {
        parse_postfix_marks(s, Exp::Many1(Box::new(e)), q + 1, start)
    } else if q < s.len() && s[q] == '*' {
        parse_postfix_marks(s, Exp::Many0(Box::new(e)), q + 1, start)
    } else {
        Ok((e, pos))
    }
}

/// Reads a primary expression: a parenthesized group, a list, a literal,
/// a variable or an application.
fn parse_primary(s: &Vec<char>, pos: usize) -> (r: Result<(Exp, usize), ParseError>)
    requires
        pos <= s@.len(),
    ensures
        r matches Ok((e, p2)) ==> pos < p2 <= s@.len() && wf_exp(e),
        r matches Err(e) ==> err_names_input(s@, e),
    decreases s@.len() - pos, 1int,
{
    if pos >= s.len() {
        return Err(err_at(s, pos));
    }
    let c = s[pos];
    if c == '(' {
        let q = skip_ws(s, pos + 1);
        let (e, p) = parse_exp(s, q)?;
        let r2 = skip_ws(s, p);
        if r2 < s.len() && s[r2] == ')' {
            Ok((e, r2 + 1))
        } else {
            Err(err_at(s, r2))
        }
    } else if c == '[' {
        let (elems, p) = parse_exp_seq(s, pos + 1, ']')?;
        Ok((Exp::List(elems), p))
    } else if c == '"' {
        let (text, p) = parse_string_chars(s, pos)?;
        Ok((Exp::LitString(text), p))
    } else if c == '\'' {
        parse_char_lit(s, pos)
    } else if c == '-' || digit_char_test(c) {
        parse_number(s, pos)
    } else if letter_char(c) {
        let (id, p) = parse_ident(s, pos)?;
        if p < s.len() && s[p] == '(' {
            let (args, p2) = parse_exp_seq(s, p + 1, ')')?;
            Ok((Exp::App(id, args), p2))
        } else {
            Ok((Exp::Var(id), p))
        }
    } else {
        Err(err_at(s, pos))
    }
}

/// Reads a comma-separated, possibly empty expression sequence up to and
/// including the closing delimiter; `pos` stands just after the opener.
#[verifier::loop_isolation(false)]
fn parse_exp_seq(s: &Vec<char>, pos: usize, close: char) -> (r: Result<
    (Vec<Exp>, usize),
    ParseError,
>)
    requires
        pos <= s@.len(),
    ensures
        r matches Ok((v, p2)) ==> pos < p2 <= s@.len() && (forall|k: int|
            0 <= k < v@.len() ==> wf_exp(#[trigger] v@[k])),
        r matches Err(e) ==> err_names_input(s@, e),
    decreases s@.len() - pos, 4int,
{
    let mut elems: Vec<Exp> = Vec::new();
    let q0 = skip_ws(s, pos);
    if q0 < s.len() && s[q0] == close {
        return Ok((elems, q0 + 1));
    }
    let mut p = q0;
    loop
        invariant
            pos <= p <= s@.len(),
            forall|k: int| 0 <= k < elems@.len() ==> wf_exp(#[trigger] elems@[k]),
        decreases s@.len() - p,
    {
        let (e, p2) = parse_exp(s, p)?;
        elems.push(e);
        let q = skip_ws(s, p2);
        if q < s.len() && s[q] == close {
            return Ok((elems, q + 1));
        }
        if q < s.len() && s[q] == ',' {
            p = skip_ws(s, q + 1);
        } else {
            return Err(err_at(s, q));
        }
    }
}

/// The non-positional side of a printable symbol: a well-formed
/// category, or terminal content without a backslash.
pub open spec fn printable_item(it: Item) -> bool {
    match it {
        Item::Terminal(x) => forall|k: int| 0 <= k < x@.len() ==> x@[k] != '\\',
        Item::NTerminal(c) => wf_cat(c),
    }
}

/// The hypothesis of the symbol-list round trip: the printed symbols
/// from index `i` on, followed by ` ;`, stand at `pos`.
pub open spec fn items_rest_at(s: Seq<char>, pos: int, its: Seq<Item>, i: int) -> bool {
    &&& 0 <= i <= its.len()
    &&& 0 <= pos
    &&& pos + items_text(its, i).len() + 2 <= s.len()
    &&& s.subrange(pos, pos + items_text(its, i).len() + 2) == items_text(its, i) + seq![' ', ';']
    &&& forall|k: int| i <= k < its.len() ==> printable_item(#[trigger] its[k])
}

/// The first character of a printed symbol: a quote, a bracket or a
/// letter — never whitespace or a semicolon.
proof fn lemma_item_text_head(it: Item)
    requires
        printable_item(it),
    ensures
        item_text(it).len() > 0,
        !is_space(item_text(it)[0]),
        item_text(it)[0] != ';',
{
    match it {
        Item::Terminal(_) => {
            assert(item_text(it)[0] == '"');
        },
        Item::NTerminal(c) => {
            crate::laws::lemma_cat_text_head(c);
        },
    }
}

/// What the input holds at the start of the remaining symbol list: a
/// space, then either the next symbol's printed form or the closing
/// semicolon.
proof fn lemma_items_rest_step(s: Seq<char>, pos: int, its: Seq<Item>, i: int)
    requires
        items_rest_at(s, pos, its, i),
    ensures
        pos + 1 < s.len(),
        is_space(s[pos]),
        i == its.len() ==> s[pos + 1] == ';',
        i < its.len() ==> !is_space(s[pos + 1]) && s[pos + 1] != ';' && item_printed_at(
            s,
            pos + 1,
            its[i],
        ) && items_rest_at(s, pos + 1 + item_text(its[i]).len(), its, i + 1),
{
    let whole = items_text(its, i) + seq![' ', ';'];
    assert(forall|j: int| 0 <= j < whole.len() ==> s[pos + j] == #[trigger] whole[j]) by {
        assert(forall|j: int|
            0 <= j < whole.len() ==> s.subrange(pos, pos + items_text(its, i).len() + 2)[j]
                == #[trigger] whole[j]);
    }
    if i == its.len() {
        assert(items_text(its, i).len() == 0);
        assert(s[pos] == whole[0]);
        assert(s[pos + 1] == whole[1]);
    } else {
        let t = item_text(its[i]);
        assert(items_text(its, i) =~= seq![' '] + t + items_text(its, i + 1));
        assert(s[pos] == whole[0]);
        lemma_item_text_head(its[i]);
        assert(s[pos + 1] == whole[1]);
        assert(whole[1] == t[0]);
        assert(s.subrange(pos + 1, pos + 1 + t.len()) =~= whole.subrange(1, 1 + t.len() as int));
        assert(whole.subrange(1, 1 + t.len() as int) =~= t);
        assert(s.subrange(
            pos + 1 + t.len(),
            pos + 1 + t.len() + items_text(its, i + 1).len() + 2,
        ) =~= whole.subrange(1 + t.len() as int, whole.len() as int));
        assert(whole.subrange(1 + t.len() as int, whole.len() as int) =~= items_text(its, i + 1)
            + seq![' ', ';']);
        match its[i] {
            Item::Terminal(x) => {
                assert(t =~= seq!['"'] + escaped_text(x@) + seq!['"']);
                assert(string_printed_at(s, pos + 1, x@));
            },
            Item::NTerminal(c) => {
                assert(cat_text(c) == t);
                assert(s[pos + 1 + t.len()] == (items_text(its, i + 1) + seq![' ', ';'])[0]);
                if i + 1 < its.len() {
                    assert(items_text(its, i + 1)[0] == ' ');
                }
                assert(s[pos + 1 + t.len()] == ' ');
                assert(crate::laws::ident_break_at(s, pos + 1 + cat_text(c).len()));
                assert(cat_printed_at(s, pos + 1, c));
            },
        }
    }
}

/// Reads the space-separated symbols of a rule's right-hand side, up to
/// and including the closing semicolon, appending them to `items`.
/// Wherever the printed symbol list stands, the reader appends exactly
/// those symbols and stops directly after the semicolon.
fn parse_rule_items(s: &Vec<char>, pos: usize, items: &mut Vec<Item>) -> (r: Result<
    usize,
    ParseError,
>)
    requires
        pos <= s@.len(),
    ensures
        r matches Ok(p2) ==> pos < p2 <= s@.len() && final(items)@.len() >= old(items)@.len() && (
        forall|k: int| 0 <= k < old(items)@.len() ==> final(items)@[k] == old(items)@[k]) && (
        forall|k: int|
            old(items)@.len() <= k < final(items)@.len() ==> wf_item(#[trigger] final(items)@[k])),
        r matches Err(e) ==> err_names_input(s@, e),
        forall|its: Seq<Item>, i: int|
            #[trigger] items_rest_at(s@, pos as int, its, i) ==> (r matches Ok(p2)
                && final(items)@.len() == old(items)@.len() + its.len() - i && (forall|k: int|
                i <= k < its.len() ==> crate::laws::item_like(
                    its[k],
                    #[trigger] final(items)@[old(items)@.len() + k - i],
                )) && p2 == pos + items_text(its, i).len() + 2),
    decreases s@.len() - pos,
{
    let q = skip_ws(s, pos);
    if q < s.len() && s[q] == ';' {
        proof {
            assert forall|its: Seq<Item>, i: int| #[trigger] items_rest_at(
                s@,
                pos as int,
                its,
                i,
            ) implies i == its.len() && q == pos + 1 by {
                lemma_items_rest_step(s@, pos as int, its, i);
            }
        }
        return Ok(q + 1);
    }
    let ir = parse_item(s, q);
    let (it, p2) = match ir {
        Ok(v) => v,
        Err(e) => {
            proof {
                assert forall|its: Seq<Item>, i: int| #[trigger] items_rest_at(
                    s@,
                    pos as int,
                    its,
                    i,
                ) implies false by {
                    lemma_items_rest_step(s@, pos as int, its, i);
                }
            }
            return Err(e);
        },
    };
    let ghost pushed_len = items@.len();
    let ghost before_rec = items@.push(it);
    items.push(it);
    let res = parse_rule_items(s, p2, items);
    proof {
        if let Ok(p3) = res {
            assert forall|its: Seq<Item>, i: int| #[trigger] items_rest_at(
                s@,
                pos as int,
                its,
                i,
            ) implies items@.len() == pushed_len + its.len() - i && (forall|k: int|
                i <= k < its.len() ==> crate::laws::item_like(
                    its[k],
                    #[trigger] items@[pushed_len + k - i],
                )) && p3 == pos + items_text(its, i).len() + 2 by {
                lemma_items_rest_step(s@, pos as int, its, i);
                assert(i < its.len());
                assert(q == pos + 1);
                assert(item_printed_at(s@, (pos + 1) as int, its[i]));
                assert(crate::laws::item_like(its[i], it));
                assert(p2 == pos + 1 + item_text(its[i]).len());
                assert(items_rest_at(s@, p2 as int, its, i + 1));
                assert(items_text(its, i).len() == 1 + item_text(its[i]).len() + items_text(
                    its,
                    i + 1,
                ).len());
                assert forall|k: int| i <= k < its.len() implies crate::laws::item_like(
                    its[k],
                    #[trigger] items@[pushed_len + k - i],
                ) by {
                    if k == i {
                        assert(items@[pushed_len as int] == before_rec[pushed_len as int]);
                        assert(before_rec[pushed_len as int] == it);
                    } else {
                        let j = before_rec.len() as int + k - (i + 1);
                        assert(crate::laws::item_like(its[k], items@[j]));
                        assert(j == pushed_len + k - i);
                    }
                }
            }
        } else {
            assert forall|its: Seq<Item>, i: int| #[trigger] items_rest_at(
                s@,
                pos as int,
                its,
                i,
            ) implies false by {
                lemma_items_rest_step(s@, pos as int, its, i);
                assert(q == pos + 1);
                assert(item_printed_at(s@, (pos + 1) as int, its[i]));
                assert(p2 == pos + 1 + item_text(its[i]).len());
                assert(items_rest_at(s@, p2 as int, its, i + 1));
            }
        }
    }
    res
}

/// The hypothesis of the rule-tail round trip: after the label's dot,
/// the printed form ` cat ::= items ;` stands at `pos`.
pub open spec fn rule_tail_at(s: Seq<char>, pos: int, c: Cat, its: Seq<Item>) -> bool {
    &&& wf_cat(c)
    &&& (forall|k: int| 0 <= k < its.len() ==> printable_item(#[trigger] its[k]))
    &&& 0 <= pos
    &&& pos + rule_tail_text(c, its).len() <= s.len()
    &&& s.subrange(pos, pos + rule_tail_text(c, its).len()) == rule_tail_text(c, its)
}

/// The printed form of a rule after the label's dot.
pub open spec fn rule_tail_text(c: Cat, its: Seq<Item>) -> Seq<char> {
    seq![' '] + cat_text(c) + seq![' ', ':', ':', '='] + items_text(its, 0) + seq![' ', ';']
}

/// What the input holds across a printed rule tail.
proof fn lemma_rule_tail_step(s: Seq<char>, pos: int, c: Cat, its: Seq<Item>)
    requires
        rule_tail_at(s, pos, c, its),
    ensures
        pos + 1 < s.len(),
        is_space(s[pos]),
        cat_printed_at(s, pos + 1, c),
        is_space(s[pos + 1 + cat_text(c).len()]),
        s[pos + 2 + cat_text(c).len()] == ':',
        s[pos + 3 + cat_text(c).len()] == ':',
        s[pos + 4 + cat_text(c).len()] == '=',
        pos + 4 + cat_text(c).len() < s.len(),
        items_rest_at(s, pos + 5 + cat_text(c).len(), its, 0),
{
    let whole = rule_tail_text(c, its);
    let lc = cat_text(c).len() as int;
    assert(forall|j: int| 0 <= j < whole.len() ==> s[pos + j] == #[trigger] whole[j]) by {
        assert(forall|j: int|
            0 <= j < whole.len() ==> s.subrange(pos, pos + whole.len() as int)[j]
                == #[trigger] whole[j]);
    }
    crate::laws::lemma_cat_text_head(c);
    assert(s[pos] == whole[0]);
    assert(s.subrange(pos + 1, pos + 1 + lc) =~= whole.subrange(1, 1 + lc));
    assert(whole.subrange(1, 1 + lc) =~= cat_text(c));
    assert(s[pos + 1 + lc] == whole[1 + lc]);
    assert(whole[1 + lc] == ' ');
    assert(crate::laws::ident_break_at(s, pos + 1 + lc));
    assert(s[pos + 2 + lc] == whole[2 + lc]);
    assert(s[pos + 3 + lc] == whole[3 + lc]);
    assert(s[pos + 4 + lc] == whole[4 + lc]);
    assert(s.subrange(pos + 5 + lc, pos + whole.len() as int) =~= whole.subrange(
        5 + lc,
        whole.len() as int,
    ));
    assert(whole.subrange(5 + lc, whole.len() as int) =~= items_text(its, 0) + seq![' ', ';']);
}

/// Reads the remainder of a rule after its label: `. cat ::= items ;`.
/// Wherever a printed rule tail stands, the reader returns the rule with
/// the given label, that category and those symbols, and stops directly
/// after the semicolon.
fn parse_rule_tail(s: &Vec<char>, pos: usize, l: Label) -> (r: Result<(Def, usize), ParseError>)
    requires
        pos <= s@.len(),
        wf_label(l),
    ensures
        r matches Ok((d, p2)) ==> pos < p2 <= s@.len() && wf_def(d),
        r matches Err(e) ==> err_names_input(s@, e),
        forall|c2: Cat, its: Seq<Item>|
            #[trigger] rule_tail_at(s@, pos as int, c2, its) ==> (r matches Ok(v) && (
            v.0 matches Def::Rule(lr, cr, ir) && lr == l && crate::laws::cat_like(c2, cr)
                && ir@.len() == its.len() && (forall|k: int|
                0 <= k < its.len() ==> crate::laws::item_like(its[k], #[trigger] ir@[k])))
                && v.1 == pos + rule_tail_text(c2, its).len()),
{
    let q = skip_ws(s, pos);
    let cr = parse_cat(s, q);
    let (c, p) = match cr {
        Ok(v) => v,
        Err(e) => {
            proof {
                assert forall|c2: Cat, its: Seq<Item>| #[trigger] rule_tail_at(
                    s@,
                    pos as int,
                    c2,
                    its,
                ) implies false by {
                    lemma_rule_tail_step(s@, pos as int, c2, its);
                    crate::laws::lemma_cat_text_head(c2);
                    assert(q == pos + 1);
                }
            }
            return Err(e);
        },
    };
    let q2 = skip_ws(s, p);
    if !(q2 < s.len() && q2 + 1 < s.len() && q2 + 2 < s.len() && s[q2] == ':' && s[q2 + 1] == ':'
        && s[q2 + 2] == '=') {
        proof {
            assert forall|c2: Cat, its: Seq<Item>| #[trigger] rule_tail_at(
                s@,
                pos as int,
                c2,
                its,
            ) implies false by {
                lemma_rule_tail_step(s@, pos as int, c2, its);
                crate::laws::lemma_cat_text_head(c2);
                assert(q == pos + 1);
                assert(cat_printed_at(s@, q as int, c2));
                assert(p == pos + 1 + cat_text(c2).len());
                assert(q2 == p + 1);
            }
        }
        return Err(err_at(s, q2));
    }
    let mut items: Vec<Item> = Vec::new();
    let p3r = parse_rule_items(s, q2 + 3, &mut items);
    match p3r {
        Ok(p4) => {
            proof {
                assert forall|c2: Cat, its: Seq<Item>| #[trigger] rule_tail_at(
                    s@,
                    pos as int,
                    c2,
                    its,
                ) implies (crate::laws::cat_like(c2, c) && items@.len() == its.len() && (forall|
                    k: int,
                |
                    0 <= k < its.len() ==> crate::laws::item_like(its[k], #[trigger] items@[k]))
                    && p4 == pos + rule_tail_text(c2, its).len()) by {
                    lemma_rule_tail_step(s@, pos as int, c2, its);
                    crate::laws::lemma_cat_text_head(c2);
                    assert(q == pos + 1);
                    assert(cat_printed_at(s@, q as int, c2));
                    assert(crate::laws::cat_like(c2, c));
                    assert(p == pos + 1 + cat_text(c2).len());
                    assert(q2 == p + 1);
                    assert(items_rest_at(s@, (q2 + 3) as int, its, 0));
                    assert(rule_tail_text(c2, its).len() == 7 + cat_text(c2).len() + items_text(
                        its,
                        0,
                    ).len());
                    assert forall|k: int| 0 <= k < its.len() implies crate::laws::item_like(
                        its[k],
                        #[trigger] items@[k],
                    ) by {
                        let j = 0int + k - 0;
                        assert(crate::laws::item_like(its[k], items@[j]));
                        assert(j == k);
                    }
                }
            }
            Ok((Def::Rule(l, c, items), p4))
        },
        Err(e) => {
            proof {
                assert forall|c2: Cat, its: Seq<Item>| #[trigger] rule_tail_at(
                    s@,
                    pos as int,
                    c2,
                    its,
                ) implies false by {
                    lemma_rule_tail_step(s@, pos as int, c2, its);
                    crate::laws::lemma_cat_text_head(c2);
                    assert(q == pos + 1);
                    assert(cat_printed_at(s@, q as int, c2));
                    assert(p == pos + 1 + cat_text(c2).len());
                    assert(q2 == p + 1);
                    assert(items_rest_at(s@, (q2 + 3) as int, its, 0));
                }
            }
            Err(e)
        },
    }
}

/// The hypothesis of the definition round trip: a printed rule stands at
/// `pos` — its label and category well-formed, its symbols printable.
/// Macros are not covered: the expression readers state no round trip.
pub open spec fn def_printed_at(s: Seq<char>, pos: int, d: Def) -> bool {
    match d {
        Def::Rule(l, c, its) => {
            &&& wf_label(l)
            &&& wf_cat(c)
            &&& (forall|k: int| 0 <= k < its@.len() ==> printable_item(#[trigger] its@[k]))
            &&& 0 <= pos
            &&& pos + def_text(d).len() <= s.len()
            &&& s.subrange(pos, pos + def_text(d).len()) == def_text(d)
        },
        Def::Macro(_, _) => false,
    }
}

/// What the input holds across a printed rule: the label, its dot, and
/// the rule tail.
proof fn lemma_def_printed_step(s: Seq<char>, pos: int, l: Label, c: Cat, its: Vec<Item>)
    requires
        def_printed_at(s, pos, Def::Rule(l, c, its)),
    ensures
        pos < s.len(),
        label_printed_at(s, pos, l),
        pos + label_text(l).len() < s.len(),
        s[pos + label_text(l).len()] == '.',
        rule_tail_at(s, pos + label_text(l).len() + 1, c, its@),
        def_text(Def::Rule(l, c, its)).len() == label_text(l).len() + 1 + rule_tail_text(
            c,
            its@,
        ).len(),
        s[pos] == label_text(l)[0],
{
    let d = Def::Rule(l, c, its);
    let whole = def_text(d);
    let ll = label_text(l).len() as int;
    assert(whole =~= label_text(l) + seq!['.'] + rule_tail_text(c, its@));
    assert(forall|j: int| 0 <= j < whole.len() ==> s[pos + j] == #[trigger] whole[j]) by {
        assert(forall|j: int|
            0 <= j < whole.len() ==> s.subrange(pos, pos + whole.len() as int)[j]
                == #[trigger] whole[j]);
    }
    assert(s.subrange(pos, pos + ll) =~= whole.subrange(0, ll));
    assert(whole.subrange(0, ll) =~= label_text(l));
    assert(s[pos + ll] == whole[ll]);
    assert(whole[ll] == '.');
    assert(crate::laws::ident_break_at(s, pos + ll));
    assert(label_printed_at(s, pos, l));
    assert(s.subrange(pos + ll + 1, pos + whole.len() as int) =~= whole.subrange(
        ll + 1,
        whole.len() as int,
    ));
    assert(whole.subrange(ll + 1, whole.len() as int) =~= rule_tail_text(c, its@));
    assert(rule_tail_at(s, pos + ll + 1, c, its@));
    assert(s[pos] == whole[0]);
}

/// Reads one definition: a rule when a `.` follows the leading label or
/// identifier, a macro otherwise.  Wherever a printed rule stands, the
/// reader returns that rule and stops directly after its semicolon.
fn parse_def(s: &Vec<char>, pos: usize) -> (r: Result<(Def, usize), ParseError>)
    requires
        pos <= s@.len(),
    ensures
        r matches Ok((d, p2)) ==> pos < p2 <= s@.len() && wf_def(d),
        r matches Err(e) ==> err_names_input(s@, e),
        forall|d: Def|
            #[trigger] def_printed_at(s@, pos as int, d) ==> (r matches Ok(v)
                && crate::laws::def_like(d, v.0) && v.1 == pos + def_text(d).len()),
{
    if pos >= s.len() {
        proof {
            assert forall|d: Def| #[trigger] def_printed_at(s@, pos as int, d) implies false by {
                match d {
                    Def::Rule(l, c, its) => {
                        lemma_def_printed_step(s@, pos as int, l, c, its);
                    },
                    Def::Macro(_, _) => {
                    },
                }
            }
        }
        return Err(err_at(s, pos));
    }
    let c0 = s[pos];
    if letter_char(c0) {
        let idr = parse_ident(s, pos);
        let (id, p) = match idr {
            Ok(v) => v,
            Err(e) => {
                proof {
                    assert forall|d: Def| #[trigger] def_printed_at(
                        s@,
                        pos as int,
                        d,
                    ) implies false by {
                        match d {
                            Def::Rule(l, c, its) => {
                                lemma_def_printed_step(s@, pos as int, l, c, its);
                            },
                            Def::Macro(_, _) => {
                            },
                        }
                    }
                }
                return Err(e);
            },
        };
        let q = skip_ws(s, p);
        proof {
            assert forall|d: Def| #[trigger] def_printed_at(s@, pos as int, d) implies (q < s@.len()
                && s@[q as int] == '.' && crate::laws::label_like(d->Rule_0, Label::Id(id))
                && rule_tail_at(s@, q + 1, d->Rule_1, d->Rule_2@) && def_text(d).len()
                == label_text(d->Rule_0).len() + 1 + rule_tail_text(d->Rule_1, d->Rule_2@).len()
                && q == pos + label_text(d->Rule_0).len()) by {
                match d {
                    Def::Rule(l, c2, its) => {
                        lemma_def_printed_step(s@, pos as int, l, c2, its);
                        match l {
                            Label::Id(i) => {
                                let after = pos + i.0@.len();
                                assert(forall|k: int|
                                    pos <= k < after ==> s@[k] == #[trigger] i.0@[k - pos]);
                                assert(forall|k: int|
                                    pos <= k < p ==> s@[k] == #[trigger] id.0@[k - pos]);
                                if p < after {
                                    assert(is_ident_char(i.0@[p - pos]));
                                    assert(false);
                                }
                                if p > after {
                                    assert(is_ident_char(id.0@[after - pos]));
                                    assert(false);
                                }
                                assert(id.0@ =~= i.0@);
                                assert(q == p);
                            },
                            _ => {
                                assert(s@[pos as int] == label_text(l)[0]);
                                assert(false);
                            },
                        }
                    },
                    Def::Macro(_, _) => {
                    },
                }
            }
        }
        if q < s.len() && s[q] == '.' {
            let res = parse_rule_tail(s, q + 1, Label::Id(id));
            proof {
                assert forall|d: Def| #[trigger] def_printed_at(s@, pos as int, d) implies (
                res matches Ok(v) && crate::laws::def_like(d, v.0) && v.1 == pos + def_text(
                    d,
                ).len()) by {
                    match d {
                        Def::Rule(l, c2, its) => {
                            assert(rule_tail_at(s@, (q + 1) as int, c2, its@));
                        },
                        Def::Macro(_, _) => {
                        },
                    }
                }
            }
            res
        } else {
            let er = parse_exp(s, q);
            let (e, p2) = match er {
                Ok(v) => v,
                Err(e) => {
                    proof {
                        assert forall|d: Def| #[trigger] def_printed_at(
                            s@,
                            pos as int,
                            d,
                        ) implies false by {}
                    }
                    return Err(e);
                },
            };
            let q2 = skip_ws(s, p2);
            proof {
                assert forall|d: Def| #[trigger] def_printed_at(s@, pos as int, d) implies false by {}
            }
            if q2 < s.len() && s[q2] == ';' {
                Ok((Def::Macro(id, e), q2 + 1))
            } else {
                Err(err_at(s, q2))
            }
        }
    } else {
        let lr = parse_label(s, pos);
        let (l, p) = match lr {
            Ok(v) => v,
            Err(e) => {
                proof {
                    assert forall|d: Def| #[trigger] def_printed_at(
                        s@,
                        pos as int,
                        d,
                    ) implies false by {
                        match d {
                            Def::Rule(l2, c2, its) => {
                                lemma_def_printed_step(s@, pos as int, l2, c2, its);
                                assert(label_printed_at(s@, pos as int, l2));
                            },
                            Def::Macro(_, _) => {
                            },
                        }
                    }
                }
                return Err(e);
            },
        };
        let q = skip_ws(s, p);
        proof {
            assert forall|d: Def| #[trigger] def_printed_at(s@, pos as int, d) implies (q < s@.len()
                && s@[q as int] == '.' && crate::laws::label_like(d->Rule_0, l) && rule_tail_at(
                s@,
                q + 1,
                d->Rule_1,
                d->Rule_2@,
            ) && def_text(d).len() == label_text(d->Rule_0).len() + 1 + rule_tail_text(
                d->Rule_1,
                d->Rule_2@,
            ).len() && q == pos + label_text(d->Rule_0).len()) by {
                match d {
                    Def::Rule(l2, c2, its) => {
                        lemma_def_printed_step(s@, pos as int, l2, c2, its);
                        assert(label_printed_at(s@, pos as int, l2));
                        assert(p == pos + label_text(l2).len());
                        assert(q == p);
                    },
                    Def::Macro(_, _) => {
                    },
                }
            }
        }
        if q < s.len() && s[q] == '.' {
            let res = parse_rule_tail(s, q + 1, l);
            proof {
                assert forall|d: Def| #[trigger] def_printed_at(s@, pos as int, d) implies (
                res matches Ok(v) && crate::laws::def_like(d, v.0) && v.1 == pos + def_text(
                    d,
                ).len()) by {
                    match d {
                        Def::Rule(l2, c2, its) => {
                            assert(rule_tail_at(s@, (q + 1) as int, c2, its@));
                        },
                        Def::Macro(_, _) => {
                        },
                    }
                }
            }
            res
        } else {
            proof {
                assert forall|d: Def| #[trigger] def_printed_at(s@, pos as int, d) implies false by {}
            }
            Err(err_at(s, q))
        }
    }
}

/// The non-positional side of a printable definition: a rule whose
/// label and category are well-formed and whose symbols are printable.
pub open spec fn printable_def(d: Def) -> bool {
    match d {
        Def::Rule(l, c, its) => wf_label(l) && wf_cat(c) && (forall|k: int|
            0 <= k < its@.len() ==> printable_item(#[trigger] its@[k])),
        Def::Macro(_, _) => false,
    }
}

/// A grammar the round-trip clause covers: every definition printable.
pub open spec fn printable_grammar(g: Grammar) -> bool {
    forall|k: int| 0 <= k < g.definitions@.len() ==> printable_def(#[trigger] g.definitions@[k])
}

/// The definitions from index `i` on fill the rest of the input exactly,
/// starting at `start`.
pub open spec fn defs_body_at(s: Seq<char>, start: int, ds: Seq<Def>, i: int, mode: Mode) -> bool {
    &&& 0 <= i <= ds.len()
    &&& 0 <= start <= s.len()
    &&& (forall|k: int| i <= k < ds.len() ==> printable_def(#[trigger] ds[k]))
    &&& s.subrange(start, s.len() as int) == defs_text(ds, i, mode)
}

/// The hypothesis of the definition-list round trip: the rest of the
/// input is the printed definitions from index `i` on, possibly behind
/// one leading line break.
pub open spec fn defs_rest_at(s: Seq<char>, pos: int, ds: Seq<Def>, i: int, mode: Mode) -> bool {
    defs_body_at(s, pos, ds, i, mode) || (0 <= pos < s.len() && is_space(s[pos]) && defs_body_at(
        s,
        pos + 1,
        ds,
        i,
        mode,
    ))
}

/// A printed label never begins with whitespace.
proof fn lemma_label_text_head_char(l: Label)
    requires
        wf_label(l),
    ensures
        label_text(l).len() > 0,
        !is_space(label_text(l)[0]),
{
    match l {
        Label::Id(i) => {
            assert(label_text(l)[0] == i.0@[0]);
        },
        _ => {
        },
    }
}

/// What the input holds where the remaining definitions start: nothing
/// when they are exhausted, else one printed definition and then the
/// rest.
proof fn lemma_defs_body_step(s: Seq<char>, start: int, ds: Seq<Def>, i: int, mode: Mode)
    requires
        defs_body_at(s, start, ds, i, mode),
    ensures
        i == ds.len() ==> start == s.len(),
        i < ds.len() ==> start < s.len() && !is_space(s[start]) && def_printed_at(s, start, ds[i])
            && defs_rest_at(s, start + def_text(ds[i]).len(), ds, i + 1, mode),
{
    let whole = defs_text(ds, i, mode);
    assert(s.len() - start == whole.len());
    if i < ds.len() {
        let dt = def_text(ds[i]);
        let sep: Seq<char> = if mode is Pretty {
            seq!['\n']
        } else {
            Seq::empty()
        };
        assert(whole =~= dt + sep + defs_text(ds, i + 1, mode));
        assert(forall|j: int| 0 <= j < whole.len() ==> s[start + j] == #[trigger] whole[j]) by {
            assert(forall|j: int|
                0 <= j < whole.len() ==> s.subrange(start, s.len() as int)[j]
                    == #[trigger] whole[j]);
        }
        assert(s.subrange(start, start + dt.len() as int) =~= whole.subrange(0, dt.len() as int));
        assert(whole.subrange(0, dt.len() as int) =~= dt);
        match ds[i] {
            Def::Rule(l, c, its) => {
                assert(def_printed_at(s, start, ds[i]));
                lemma_def_printed_step(s, start, l, c, its);
                lemma_label_text_head_char(l);
                assert(s[start] == label_text(l)[0]);
            },
            Def::Macro(_, _) => {
            },
        }
        if mode is Pretty {
            assert(s[start + dt.len()] == whole[dt.len() as int]);
            assert(whole[dt.len() as int] == '\n');
            assert(s.subrange(start + dt.len() + 1, s.len() as int) =~= whole.subrange(
                dt.len() as int + 1,
                whole.len() as int,
            ));
            assert(whole.subrange(dt.len() as int + 1, whole.len() as int) =~= defs_text(
                ds,
                i + 1,
                mode,
            ));
            assert(defs_body_at(s, start + dt.len() + 1, ds, i + 1, mode));
        } else {
            assert(s.subrange(start + dt.len(), s.len() as int) =~= whole.subrange(
                dt.len() as int,
                whole.len() as int,
            ));
            assert(whole.subrange(dt.len() as int, whole.len() as int) =~= defs_text(
                ds,
                i + 1,
                mode,
            ));
            assert(defs_body_at(s, start + dt.len(), ds, i + 1, mode));
        }
    }
}

/// Reads definitions until the input is exhausted, appending them to
/// `defs`.  Wherever the rest of the input is a printed definition list,
/// the reader appends exactly those definitions and succeeds.
fn parse_defs(s: &Vec<char>, pos: usize, defs: &mut Vec<Def>) -> (r: Result<(), ParseError>)
    requires
        pos <= s@.len(),
    ensures
        r matches Ok(u) ==> final(defs)@.len() >= old(defs)@.len() && (forall|k: int|
            0 <= k < old(defs)@.len() ==> final(defs)@[k] == old(defs)@[k]) && (forall|k: int|
            old(defs)@.len() <= k < final(defs)@.len() ==> wf_def(#[trigger] final(defs)@[k])),
        r matches Err(e) ==> err_names_input(s@, e),
        forall|ds: Seq<Def>, i: int, mode: Mode|
            #[trigger] defs_rest_at(s@, pos as int, ds, i, mode) ==> (r is Ok && final(defs)@.len()
                == old(defs)@.len() + ds.len() - i && (forall|k: int|
                i <= k < ds.len() ==> crate::laws::def_like(
                    ds[k],
                    #[trigger] final(defs)@[old(defs)@.len() + k - i],
                ))),
    decreases s@.len() - pos,
{
    let q = skip_ws(s, pos);
    if q >= s.len() {
        proof {
            assert forall|ds: Seq<Def>, i: int, mode: Mode| #[trigger] defs_rest_at(
                s@,
                pos as int,
                ds,
                i,
                mode,
            ) implies i == ds.len() by {
                if defs_body_at(s@, pos as int, ds, i, mode) {
                    lemma_defs_body_step(s@, pos as int, ds, i, mode);
                } else {
                    lemma_defs_body_step(s@, pos as int + 1, ds, i, mode);
                }
            }
        }
        return Ok(());
    }
    let dr = parse_def(s, q);
    match dr {
        Err(e) => {
            proof {
                assert forall|ds: Seq<Def>, i: int, mode: Mode| #[trigger] defs_rest_at(
                    s@,
                    pos as int,
                    ds,
                    i,
                    mode,
                ) implies false by {
                    let start: int = if defs_body_at(s@, pos as int, ds, i, mode) {
                        pos as int
                    } else {
                        pos as int + 1
                    };
                    lemma_defs_body_step(s@, start, ds, i, mode);
                    assert(i < ds.len());
                    assert(q == start);
                    assert(def_printed_at(s@, q as int, ds[i]));
                }
            }
            Err(e)
        },
        Ok((d, p2)) => {
            let ghost pushed_len = defs@.len();
            let ghost before_rec = defs@.push(d);
            defs.push(d);
            let res = parse_defs(s, p2, defs);
            proof {
                if res is Ok {
                    assert forall|ds: Seq<Def>, i: int, mode: Mode| #[trigger] defs_rest_at(
                        s@,
                        pos as int,
                        ds,
                        i,
                        mode,
                    ) implies defs@.len() == pushed_len + ds.len() - i && (forall|k: int|
                        i <= k < ds.len() ==> crate::laws::def_like(
                            ds[k],
                            #[trigger] defs@[pushed_len + k - i],
                        )) by {
                        let start: int = if defs_body_at(s@, pos as int, ds, i, mode) {
                            pos as int
                        } else {
                            pos as int + 1
                        };
                        lemma_defs_body_step(s@, start, ds, i, mode);
                        assert(i < ds.len());
                        assert(q == start);
                        assert(def_printed_at(s@, q as int, ds[i]));
                        assert(crate::laws::def_like(ds[i], d));
                        assert(p2 == q + def_text(ds[i]).len());
                        assert(defs_rest_at(s@, p2 as int, ds, i + 1, mode));
                        assert forall|k: int| i <= k < ds.len() implies crate::laws::def_like(
                            ds[k],
                            #[trigger] defs@[pushed_len + k - i],
                        ) by {
                            if k == i {
                                assert(defs@[pushed_len as int] == before_rec[pushed_len as int]);
                                assert(before_rec[pushed_len as int] == d);
                            } else {
                                let j = before_rec.len() as int + k - (i + 1);
                                assert(crate::laws::def_like(ds[k], defs@[j]));
                                assert(j == pushed_len + k - i);
                            }
                        }
                    }
                } else {
                    assert forall|ds: Seq<Def>, i: int, mode: Mode| #[trigger] defs_rest_at(
                        s@,
                        pos as int,
                        ds,
                        i,
                        mode,
                    ) implies false by {
                        let start: int = if defs_body_at(s@, pos as int, ds, i, mode) {
                            pos as int
                        } else {
                            pos as int + 1
                        };
                        lemma_defs_body_step(s@, start, ds, i, mode);
                        assert(i < ds.len());
                        assert(q == start);
                        assert(def_printed_at(s@, q as int, ds[i]));
                        assert(p2 == q + def_text(ds[i]).len());
                        assert(defs_rest_at(s@, p2 as int, ds, i + 1, mode));
                    }
                }
            }
            res
        },
    }
}

/// Reads a whole grammar: definitions until the input is exhausted.
/// Wherever the whole input is a printed grammar, the reader returns
/// that grammar.
fn parse_grammar_chars(s: &Vec<char>) -> (r: Result<Grammar, ParseError>)
    ensures
        r matches Ok(g) ==> wf_grammar(g),
        r matches Err(e) ==> err_names_input(s@, e),
        s@.len() == 0 ==> (r matches Ok(g) && g.definitions@.len() == 0),
        forall|g: Grammar, mode: Mode|
            printable_grammar(g) && s@ == #[trigger] grammar_text(g, mode) ==> (r matches Ok(p)
                && crate::laws::grammar_like(g, p)),
{
    let mut defs: Vec<Def> = Vec::new();
    let res = parse_defs(s, 0, &mut defs);
    match res {
        Ok(u) => {
            proof {
                if s@.len() == 0 {
                    assert(s@.subrange(0, s@.len() as int) =~= defs_text(
                        Seq::<Def>::empty(),
                        0,
                        Mode::Compact,
                    ));
                    assert(defs_rest_at(s@, 0, Seq::<Def>::empty(), 0, Mode::Compact));
                    assert(defs@.len() == 0);
                }
                assert forall|g: Grammar, mode: Mode|
                    printable_grammar(g) && s@ == #[trigger] grammar_text(
                        g,
                        mode,
                    ) implies crate::laws::grammar_like(g, Grammar { definitions: defs }) by {
                    assert(s@.subrange(0, s@.len() as int) =~= grammar_text(g, mode));
                    assert(defs_body_at(s@, 0, g.definitions@, 0, mode));
                    assert(defs_rest_at(s@, 0, g.definitions@, 0, mode));
                    assert forall|k: int|
                        0 <= k < g.definitions@.len() implies crate::laws::def_like(
                        g.definitions@[k],
                        #[trigger] defs@[k],
                    ) by {
                        let j = 0int + k - 0;
                        assert(crate::laws::def_like(g.definitions@[k], defs@[j]));
                        assert(j == k);
                    }
                }
            }
            Ok(Grammar { definitions: defs })
        },
        Err(e) => {
            proof {
                if s@.len() == 0 {
                    assert(s@.subrange(0, s@.len() as int) =~= defs_text(
                        Seq::<Def>::empty(),
                        0,
                        Mode::Compact,
                    ));
                    assert(defs_rest_at(s@, 0, Seq::<Def>::empty(), 0, Mode::Compact));
                    assert(false);
                }
                assert forall|g: Grammar, mode: Mode|
                    printable_grammar(g) && s@ == #[trigger] grammar_text(g, mode) implies false by {
                    assert(s@.subrange(0, s@.len() as int) =~= grammar_text(g, mode));
                    assert(defs_body_at(s@, 0, g.definitions@, 0, mode));
                    assert(defs_rest_at(s@, 0, g.definitions@, 0, mode));
                }
            }
            Err(e)
        },
    }
}

/// The characters of the input, in order.
#[verifier::loop_isolation(false)]
fn str_chars(input: &str) -> (v: Vec<char>)
    ensures
        v@ == input@,
{
    let n: usize = input.unicode_len();
    let mut v: Vec<char> = Vec::new();
    let mut i: usize = 0;
    while i < n
        invariant
            i <= n == input@.len(),
            v@ == input@.subrange(0, i as int),
        decreases n - i,
    {
        v.push(input.get_char(i));
        proof {
            assert(v@ =~= input@.subrange(0, (i + 1) as int));
        }
        i = i + 1;
    }
    proof {
        assert(input@.subrange(0, n as int) =~= input@);
    }
    v
}

/// Parses LBNF source text into a grammar tree.  Every tree returned is
/// well-formed, empty input yields the empty grammar, and a printed
/// grammar parses back to itself.
pub(crate) fn parse_text(input: &str) -> (r: Result<Grammar, ParseError>)
    ensures
        r matches Ok(g) ==> wf_grammar(g),
        r matches Err(e) ==> err_names_input(input@, e),
        input@.len() == 0 ==> (r matches Ok(g) && g.definitions@.len() == 0),
        forall|g: Grammar, mode: Mode|
            printable_grammar(g) && input@ == #[trigger] grammar_text(g, mode) ==> (r matches Ok(p)
                && crate::laws::grammar_like(g, p)),
{
    let chars = str_chars(input);
    parse_grammar_chars(&chars)
}

} // verus!

