//! The texts that the canonical JSON is made of can be read back from the
//! front: a decimal number up to the first non-digit, a string literal up to
//! its closing quote. So equal JSON texts have equal fields.
use vstd::prelude::*;
use crate::crypto::{json_escape_char, json_escaped, json_quoted, hex_digit};
use crate::text::{decimal, digit_char};

verus! {

/// A decimal digit character.
pub open spec fn is_digit_char(c: char) -> bool {
    '0' <= c && c <= '9'
}

/// The value of a decimal digit character.
pub open spec fn digit_value(c: char) -> nat {
    if c == '0' {
        0
    } else if c == '1' {
        1
    } else if c == '2' {
        2
    } else if c == '3' {
        3
    } else if c == '4' {
        4
    } else if c == '5' {
        5
    } else if c == '6' {
        6
    } else if c == '7' {
        7
    } else if c == '8' {
        8
    } else {
        9
    }
}

proof fn lemma_digit_char(d: nat)
    requires
        d < 10,
    ensures
        is_digit_char(digit_char(d)),
        digit_value(digit_char(d)) == d,
{
    if d == 0 {
        assert(digit_char(0) == '0');
    } else if d == 1 {
        assert(digit_char(1) == '1');
    } else if d == 2 {
        assert(digit_char(2) == '2');
    } else if d == 3 {
        assert(digit_char(3) == '3');
    } else if d == 4 {
        assert(digit_char(4) == '4');
    } else if d == 5 {
        assert(digit_char(5) == '5');
    } else if d == 6 {
        assert(digit_char(6) == '6');
    } else if d == 7 {
        assert(digit_char(7) == '7');
    } else if d == 8 {
        assert(digit_char(8) == '8');
    } else {
        assert(digit_char(9) == '9');
    }
}

proof fn lemma_decimal_digits(n: nat)
    ensures
        decimal(n).len() > 0,
        forall|i: int| 0 <= i < decimal(n).len() ==> is_digit_char(#[trigger] decimal(n)[i]),
    decreases n,
{
    if n < 10 {
        lemma_digit_char(n);
    } else {
        lemma_decimal_digits(n / 10);
        lemma_digit_char(n % 10);
        let d = decimal(n / 10);
        assert forall|i: int| 0 <= i < decimal(n).len() implies is_digit_char(#[trigger] decimal(n)[i]) by {
            if i < d.len() {
                assert(decimal(n)[i] == d[i]);
            }
        }
    }
}

/// Different numbers have different decimal texts.
pub proof fn lemma_decimal_injective(n: nat, m: nat)
    requires
        decimal(n) == decimal(m),
    ensures
        n == m,
    decreases n,
{
    lemma_decimal_digits(n / 10);
    lemma_decimal_digits(m / 10);
    lemma_digit_char(n % 10);
    lemma_digit_char(m % 10);
    if n < 10 && m < 10 {
        assert(decimal(n)[0] == digit_char(n));
    } else if n < 10 {
        assert(decimal(m).len() >= 2);
    } else if m < 10 {
        assert(decimal(n).len() >= 2);
    } else {
        let dn = decimal(n);
        assert(dn.last() == digit_char(n % 10));
        assert(decimal(m).last() == digit_char(m % 10));
        assert(dn.drop_last() =~= decimal(n / 10));
        assert(decimal(m).drop_last() =~= decimal(m / 10));
        lemma_decimal_injective(n / 10, m / 10);
    }
}

/// A decimal number followed by a non-digit is read back: the number and
/// what follows it.
pub proof fn lemma_decimal_prefix(n: nat, m: nat, r1: Seq<char>, r2: Seq<char>)
    requires
        r1.len() > 0,
        r2.len() > 0,
        !is_digit_char(r1[0]),
        !is_digit_char(r2[0]),
        decimal(n) + r1 == decimal(m) + r2,
    ensures
        n == m,
        r1 == r2,
{
    lemma_decimal_digits(n);
    lemma_decimal_digits(m);
    let a = decimal(n);
    let b = decimal(m);
    let x = a + r1;
    if a.len() < b.len() {
        assert(x[a.len() as int] == r1[0]);
        assert(x[a.len() as int] == (b + r2)[a.len() as int]);
        assert(is_digit_char(b[a.len() as int]));
    } else if b.len() < a.len() {
        assert((b + r2)[b.len() as int] == r2[0]);
        assert(x[b.len() as int] == (b + r2)[b.len() as int]);
        assert(is_digit_char(a[b.len() as int]));
    } else {
        assert(x.take(a.len() as int) =~= a);
        assert((b + r2).take(b.len() as int) =~= b);
        assert(x.skip(a.len() as int) =~= r1);
        assert((b + r2).skip(b.len() as int) =~= r2);
        lemma_decimal_injective(n, m);
    }
}

/// A character that `serde_json` writes behind a backslash.
pub open spec fn is_escaped_char(c: char) -> bool {
    c == '"' || c == '\\' || (c as u32) < 0x20
}

proof fn lemma_escape_char_shape(c: char)
    ensures
        json_escape_char(c).len() > 0,
        json_escape_char(c)[0] != '"',
        is_escaped_char(c) ==> json_escape_char(c).len() >= 2 && json_escape_char(c)[0] == '\\',
        !is_escaped_char(c) ==> json_escape_char(c) == seq![c] && c != '\\',
{
}

proof fn lemma_char_from_code(a: char, b: char)
    requires
        (a as u32) == (b as u32),
    ensures
        a == b,
{
    vstd::utf8::char_u32_cast(a, a as u32);
    vstd::utf8::char_u32_cast(b, b as u32);
}

proof fn lemma_hex_digit_injective(x: u8, y: u8)
    requires
        x < 16,
        y < 16,
        hex_digit(x) == hex_digit(y),
    ensures
        x == y,
{
    let cx = hex_digit(x);
    let cy = hex_digit(y);
    if x < 10 && y < 10 {
        assert(cx as u32 == 48 + x);
        assert(cy as u32 == 48 + y);
    } else if x >= 10 && y >= 10 {
        assert(cx as u32 == 97 + x - 10);
        assert(cy as u32 == 97 + y - 10);
    } else if x < 10 {
        assert(cx as u32 == 48 + x);
        assert(cy as u32 == 97 + y - 10);
    } else {
        assert(cx as u32 == 97 + x - 10);
        assert(cy as u32 == 48 + y);
    }
}

/// The escape of a character is read back from the front: two texts that
/// begin with escapes and are equal begin with the same character's escape.
proof fn lemma_escape_unit(a: char, b: char, r1: Seq<char>, r2: Seq<char>)
    requires
        json_escape_char(a) + r1 == json_escape_char(b) + r2,
    ensures
        a == b,
{
    lemma_escape_char_shape(a);
    lemma_escape_char_shape(b);
    let ea = json_escape_char(a);
    let eb = json_escape_char(b);
    let x = ea + r1;
    let y = eb + r2;
    assert(x[0] == ea[0] && y[0] == eb[0]);
    if !is_escaped_char(a) || !is_escaped_char(b) {
        assert(ea[0] == eb[0]);
    } else {
        assert(x[1] == ea[1] && y[1] == eb[1]);
        let ua = a as u32;
        let ub = b as u32;
        if ea[1] == 'u' || eb[1] == 'u' {
            assert(ea[1] == eb[1]);
            assert(ea.len() == 6 && eb.len() == 6);
            assert(x[4] == ea[4] && y[4] == eb[4]);
            assert(x[5] == ea[5] && y[5] == eb[5]);
            lemma_hex_digit_injective((ua / 16) as u8, (ub / 16) as u8);
            lemma_hex_digit_injective((ua % 16) as u8, (ub % 16) as u8);
            lemma_char_from_code(a, b);
        } else {
            assert(ea[1] == eb[1]);
            if ua == ub {
                lemma_char_from_code(a, b);
            }
        }
    }
}

/// Escaping a character in front escapes it before the rest.
proof fn lemma_escaped_front(c: char, s: Seq<char>)
    ensures
        json_escaped(seq![c] + s) == json_escape_char(c) + json_escaped(s),
    decreases s.len(),
{
    let t = seq![c] + s;
    if s.len() == 0 {
        assert(t =~= seq![c]);
        assert(t.drop_last() =~= Seq::<char>::empty());
        assert(t.last() == c);
        assert(json_escaped(t.drop_last()) == Seq::<char>::empty());
        assert(json_escaped(t) == json_escaped(t.drop_last()) + json_escape_char(c));
        assert(json_escaped(t) =~= json_escape_char(c));
    } else {
        lemma_escaped_front(c, s.drop_last());
        assert(t.drop_last() =~= seq![c] + s.drop_last());
        assert(t.last() == s.last());
        assert(json_escaped(t) =~= json_escape_char(c) + json_escaped(s));
    }
}

/// Escaped text followed by a quote is read back up to that quote.
proof fn lemma_escaped_then_quote(s: Seq<char>, t: Seq<char>, r1: Seq<char>, r2: Seq<char>)
    requires
        json_escaped(s) + (seq!['"'] + r1) == json_escaped(t) + (seq!['"'] + r2),
    ensures
        s == t,
        r1 == r2,
    decreases s.len(),
{
    let x = json_escaped(s) + (seq!['"'] + r1);
    if s.len() > 0 {
        lemma_escaped_front(s[0], s.drop_first());
        assert(seq![s[0]] + s.drop_first() =~= s);
        lemma_escape_char_shape(s[0]);
    }
    if t.len() > 0 {
        lemma_escaped_front(t[0], t.drop_first());
        assert(seq![t[0]] + t.drop_first() =~= t);
        lemma_escape_char_shape(t[0]);
    }
    if s.len() == 0 && t.len() == 0 {
        assert(x =~= seq!['"'] + r1);
        assert((seq!['"'] + r1).skip(1) =~= r1);
        assert((seq!['"'] + r2).skip(1) =~= r2);
    } else if s.len() == 0 {
        assert(x[0] == '"');
        assert(x[0] == json_escape_char(t[0])[0]);
    } else if t.len() == 0 {
        let y = json_escaped(t) + (seq!['"'] + r2);
        assert(y[0] == '"');
        assert(x[0] == json_escape_char(s[0])[0]);
    } else {
        let es = json_escape_char(s[0]);
        let et = json_escape_char(t[0]);
        let rs = json_escaped(s.drop_first()) + (seq!['"'] + r1);
        let rt = json_escaped(t.drop_first()) + (seq!['"'] + r2);
        assert(x =~= es + rs);
        assert(es + rs == et + rt);
        lemma_escape_unit(s[0], t[0], rs, rt);
        assert((es + rs).skip(es.len() as int) =~= rs);
        assert((et + rt).skip(et.len() as int) =~= rt);
        lemma_escaped_then_quote(s.drop_first(), t.drop_first(), r1, r2);
        assert(s =~= seq![s[0]] + s.drop_first());
        assert(t =~= seq![t[0]] + t.drop_first());
    }
}

/// A JSON string literal is read back from the front: the text and what
/// follows it.
pub proof fn lemma_quoted_prefix(s: Seq<char>, t: Seq<char>, r1: Seq<char>, r2: Seq<char>)
    requires
        json_quoted(s) + r1 == json_quoted(t) + r2,
    ensures
        s == t,
        r1 == r2,
{
    let x = json_quoted(s) + r1;
    let y = json_quoted(t) + r2;
    assert(x.skip(1) =~= json_escaped(s) + (seq!['"'] + r1));
    assert(y.skip(1) =~= json_escaped(t) + (seq!['"'] + r2));
    lemma_escaped_then_quote(s, t, r1, r2);
}

} // verus!
