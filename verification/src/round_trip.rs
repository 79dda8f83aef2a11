//! The serialization round-trip: parsing the serialized text of a
//! well-formed, float-free value yields exactly that value back, so
//! serializing what the parser produced re-parses to a structurally equal
//! value. A float's text round-trips through the outside formatter, whose
//! behaviour the library does not state, so floats stay outside this
//! proof.

use vstd::prelude::*;

use crate::parse::{
    digits_end, digits_val, has_lit, is_digit, is_ws, lemma_skip_ws, obj_fold, obj_insert, skip_ws,
    sp_arr_items, sp_element, sp_number, sp_number_end, sp_obj_items, sp_parse, sp_string,
    sp_string_body, sp_value,
};
use crate::ser::{
    digit_char, esc_char_text, esc_text, int_text, nat_text, ser_field, ser_fields, ser_items,
    ser_val,
};
use crate::value::JsonVal;

verus! {

broadcast use vstd::seq::group_seq_axioms;

/// A value the round-trip law speaks of: every integer fits 64 signed
/// bits, every object's keys are unique, and no float occurs.
pub open spec fn faithful(v: JsonVal) -> bool
    decreases v, 1int,
{
    match v {
        JsonVal::Null => true,
        JsonVal::Bool(_) => true,
        JsonVal::Int(n) => i64::MIN <= n <= i64::MAX,
        JsonVal::Float(_) => false,
        JsonVal::Str(_) => true,
        JsonVal::Arr(items) => faithful_items(items),
        JsonVal::Obj(fields) => JsonVal::keys_unique(fields) && faithful_fields(fields),
    }
}

/// Every element is faithful.
pub open spec fn faithful_items(items: Seq<JsonVal>) -> bool
    decreases items, 0int,
{
    if items.len() <= 0 {
        true
    } else {
        faithful_items(items.drop_last()) && faithful(items.last())
    }
}

/// Every field's value is faithful.
pub open spec fn faithful_fields(fields: Seq<(Seq<char>, JsonVal)>) -> bool
    decreases fields, 0int,
{
    if fields.len() <= 0 {
        true
    } else {
        faithful_fields(fields.drop_last()) && faithful(fields.last().1)
    }
}

/// `faithful_items` holds exactly when every element is faithful.
pub broadcast proof fn lemma_faithful_items(items: Seq<JsonVal>)
    ensures
        #[trigger] faithful_items(items) <==> (forall|i: int|
            0 <= i < items.len() ==> faithful(#[trigger] items[i])),
    decreases items.len(),
{
    if items.len() > 0 {
        lemma_faithful_items(items.drop_last());
        assert forall|i: int| 0 <= i < items.len() - 1 implies items.drop_last()[i]
            == items[i] by {}
        if forall|i: int| 0 <= i < items.len() ==> faithful(#[trigger] items[i]) {
            assert(faithful(items.last()));
        }
    }
}

/// `faithful_fields` holds exactly when every field's value is faithful.
pub broadcast proof fn lemma_faithful_fields(fields: Seq<(Seq<char>, JsonVal)>)
    ensures
        #[trigger] faithful_fields(fields) <==> (forall|i: int|
            0 <= i < fields.len() ==> faithful(#[trigger] fields[i].1)),
    decreases fields.len(),
{
    if fields.len() > 0 {
        lemma_faithful_fields(fields.drop_last());
        assert forall|i: int| 0 <= i < fields.len() - 1 implies fields.drop_last()[i]
            == fields[i] by {}
        if forall|i: int| 0 <= i < fields.len() ==> faithful(#[trigger] fields[i].1) {
            assert(faithful(fields.last().1));
        }
    }
}

/// The text `t` stands in `s` at position `i`.
pub open spec fn holds_at(s: Seq<char>, i: int, t: Seq<char>) -> bool {
    0 <= i && i + t.len() <= s.len() && s.subrange(i, i + t.len()) == t
}

/// Characterwise reading of `holds_at`.
pub broadcast proof fn lemma_holds_at(s: Seq<char>, i: int, t: Seq<char>)
    requires
        #[trigger] holds_at(s, i, t),
    ensures
        forall|k: int| 0 <= k < t.len() ==> s[i + k] == t[k],
{
    assert forall|k: int| 0 <= k < t.len() implies s[i + k] == t[k] by {
        assert(s.subrange(i, i + t.len())[k] == s[i + k]);
    }
}

/// Reading a single-character text.
pub proof fn lemma_holds_at_one(s: Seq<char>, i: int, c: char)
    requires
        holds_at(s, i, seq![c]),
    ensures
        s[i] == c,
{
    assert(s.subrange(i, i + 1)[0] == s[i]);
    assert(s.subrange(i, i + 1) == seq![c]);
    assert(seq![c][0] == c);
}

/// A text standing at `i` splits into its two halves.
pub proof fn lemma_holds_at_concat(s: Seq<char>, i: int, a: Seq<char>, b: Seq<char>)
    requires
        holds_at(s, i, a + b),
    ensures
        holds_at(s, i, a),
        holds_at(s, i + a.len(), b),
{
    assert(s.subrange(i, i + a.len()) =~= a) by {
        assert forall|k: int| 0 <= k < a.len() implies s.subrange(i, i + a.len())[k] == a[k] by {
            assert(s.subrange(i, i + (a + b).len())[k] == (a + b)[k]);
        }
    }
    assert(s.subrange(i + a.len(), i + a.len() + b.len()) =~= b) by {
        assert forall|k: int| 0 <= k < b.len() implies s.subrange(
            i + a.len(),
            i + a.len() + b.len(),
        )[k] == b[k] by {
            assert(s.subrange(i, i + (a + b).len())[a.len() + k] == (a + b)[a.len() + k]);
        }
    }
}

/// A character that ends a token: it extends neither a number nor a
/// literal and is no whitespace, so the parser stops exactly at it. The
/// characters that close containers and separate elements all qualify.
pub open spec fn is_boundary(c: char) -> bool {
    !is_ws(c) && !is_digit(c) && c != '.' && c != 'e' && c != 'E'
}

/// The position after the serialized text of `v` placed at `i`, either at
/// the end of the input or before a boundary character.
pub open spec fn bounded_after(s: Seq<char>, i: int, t: Seq<char>) -> bool {
    i + t.len() == s.len() || is_boundary(s[i + t.len()])
}

/// The digits of a nonnegative integer are digits and read back as the
/// integer.
pub proof fn lemma_nat_text(n: int)
    requires
        n >= 0,
    ensures
        nat_text(n).len() > 0,
        forall|k: int| 0 <= k < nat_text(n).len() ==> is_digit(#[trigger] nat_text(n)[k]),
        digits_val(nat_text(n)) == n,
    decreases n,
{
    if n <= 9 {
        assert(nat_text(n) == seq![digit_char(n)]);
        assert(is_digit(digit_char(n)));
        assert(digits_val(nat_text(n)) == digits_val(seq![digit_char(n)].drop_last()) * 10 + (
        digit_char(n) as u32 - '0' as u32));
        assert(seq![digit_char(n)].drop_last() =~= Seq::<char>::empty());
        assert(digit_char(n) as u32 - '0' as u32 == n);
    } else {
        lemma_nat_text(n / 10);
        let t = nat_text(n / 10).push(digit_char(n % 10));
        assert(nat_text(n) == t);
        assert(is_digit(digit_char(n % 10)));
        assert(t.drop_last() =~= nat_text(n / 10));
        assert(t.last() == digit_char(n % 10));
        assert(digits_val(t) == digits_val(nat_text(n / 10)) * 10 + (digit_char(n % 10) as u32
            - '0' as u32));
        assert(digit_char(n % 10) as u32 - '0' as u32 == n % 10);
        assert((n / 10) * 10 + n % 10 == n) by (nonlinear_arith)
            requires
                n > 9,
        ;
    }
}

/// A run of digits standing at `start` and ending at a boundary is scanned
/// to exactly its end.
pub proof fn lemma_digits_span(s: Seq<char>, start: int, t: Seq<char>)
    requires
        holds_at(s, start, t),
        t.len() > 0,
        forall|k: int| 0 <= k < t.len() ==> is_digit(#[trigger] t[k]),
        start + t.len() == s.len() || !is_digit(s[start + t.len()]),
    ensures
        digits_end(s, start) == start + t.len(),
        digits_val(s.subrange(start, start + t.len())) == digits_val(t),
{
    lemma_holds_at(s, start, t);
    assert forall|k: int| start <= k < start + t.len() implies is_digit(#[trigger] s[k]) by {
        assert(s[start + (k - start)] == t[k - start]);
    }
    lemma_digits_end_exact(s, start, start + t.len());
    assert(s.subrange(start, start + t.len()) == t);
}

/// `digits_end` lands exactly where the digits stop.
pub proof fn lemma_digits_end_exact(s: Seq<char>, i: int, j: int)
    requires
        0 <= i <= j <= s.len(),
        forall|k: int| i <= k < j ==> is_digit(#[trigger] s[k]),
        j == s.len() || !is_digit(s[j]),
    ensures
        digits_end(s, i) == j,
    decreases j - i,
{
    if i < j {
        lemma_digits_end_exact(s, i + 1, j);
    }
}

/// The serialized text of an integer parses back to exactly that integer,
/// consuming exactly itself.
pub proof fn lemma_parse_int(s: Seq<char>, i: int, n: int)
    requires
        i64::MIN <= n <= i64::MAX,
        holds_at(s, i, int_text(n)),
        bounded_after(s, i, int_text(n)),
    ensures
        sp_number(s, i) == Some((JsonVal::Int(n), i + int_text(n).len())),
{
    let t = int_text(n);
    let end = i + t.len();
    lemma_holds_at(s, i, t);
    if n < 0 {
        lemma_nat_text(-n);
        assert(t == seq!['-'] + nat_text(-n));
        lemma_holds_at_concat(s, i, seq!['-'], nat_text(-n));
        lemma_holds_at(s, i, seq!['-']);
        assert(s[i + 0] == seq!['-'][0]);
        assert(seq!['-'][0] == '-');
        assert(s[i] == s[i + 0]);
        assert(s[i] == '-');
        lemma_digits_span(s, i + 1, nat_text(-n));
        assert(digits_end(s, i + 1) == end);
        assert(sp_number_end(s, i) == Some((true, end))) by {
            assert(end == s.len() || !(s[end] == '.'));
            assert(end == s.len() || !(s[end] == 'e' || s[end] == 'E'));
            lemma_digits_end_exact(s, end, end);
        }
        assert(digits_val(s.subrange(i + 1, end)) == -n);
        assert(sp_number(s, i) == Some((JsonVal::Int(n), end)));
    } else {
        lemma_nat_text(n);
        assert(t == nat_text(n));
        assert(s[i + 0] == t[0]);
        assert(is_digit(s[i]));
        assert(s[i] != '-');
        lemma_digits_span(s, i, nat_text(n));
        assert(digits_end(s, i) == end);
        assert(sp_number_end(s, i) == Some((true, end))) by {
            assert(end == s.len() || !(s[end] == '.'));
            assert(end == s.len() || !(s[end] == 'e' || s[end] == 'E'));
            lemma_digits_end_exact(s, end, end);
        }
        assert(digits_val(s.subrange(i, end)) == n);
        assert(sp_number(s, i) == Some((JsonVal::Int(n), end)));
    }
}

/// A hexadecimal digit character reads back as its value.
pub proof fn lemma_hex_digit_char(d: int)
    requires
        0 <= d < 16,
    ensures
        crate::parse::is_hex(crate::ser::hex_digit_char(d)),
        crate::parse::hex_val(crate::ser::hex_digit_char(d)) == d,
{
}

/// The escaped text of a string body followed by a closing quote decodes
/// back to exactly the string, consuming through the quote.
pub proof fn lemma_parse_esc(s: Seq<char>, i: int, cs: Seq<char>)
    requires
        holds_at(s, i, esc_text(cs) + seq!['"']),
    ensures
        sp_string_body(s, i) == Some((cs, i + esc_text(cs).len() + 1)),
    decreases cs.len(),
{
    lemma_holds_at(s, i, esc_text(cs) + seq!['"']);
    if cs.len() == 0 {
        assert(esc_text(cs) =~= Seq::<char>::empty());
        assert(s[i + 0] == (esc_text(cs) + seq!['"'])[0]);
        assert(s[i] == '"');
        assert(sp_string_body(s, i) == Some((Seq::<char>::empty(), i + 1)));
        assert(cs =~= Seq::<char>::empty());
    } else {
        let c = cs[0];
        let ec = esc_char_text(c);
        let rest = esc_text(cs.drop_first());
        assert(esc_text(cs) == ec + rest);
        assert(esc_text(cs) + seq!['"'] =~= ec + (rest + seq!['"']));
        lemma_holds_at_concat(s, i, ec, rest + seq!['"']);
        lemma_holds_at(s, i, ec);
        lemma_parse_esc(s, i + ec.len(), cs.drop_first());
        assert(seq![c] + cs.drop_first() =~= cs);
        if c == '"' {
            assert(s[i + 0] == ec[0] && s[i + 1] == ec[1]);
            assert(s[i] == '\\' && s[i + 1] == '"');
            assert(crate::parse::esc_char(s[i + 1]) == Some('"'));
        } else if c == '\\' {
            assert(s[i + 0] == ec[0] && s[i + 1] == ec[1]);
            assert(s[i] == '\\' && s[i + 1] == '\\');
            assert(crate::parse::esc_char(s[i + 1]) == Some('\\'));
        } else if (c as u32) < 0x20 {
            let hi = (c as u32 / 16) as int;
            let lo = (c as u32 % 16) as int;
            assert(s[i + 0] == ec[0] && s[i + 1] == ec[1] && s[i + 2] == ec[2] && s[i + 3] == ec[3]
                && s[i + 4] == ec[4] && s[i + 5] == ec[5]);
            assert(s[i] == '\\' && s[i + 1] == 'u');
            assert(s[i + 2] == '0' && s[i + 3] == '0');
            assert(s[i + 4] == crate::ser::hex_digit_char(hi));
            assert(s[i + 5] == crate::ser::hex_digit_char(lo));
            lemma_hex_digit_char(hi);
            lemma_hex_digit_char(lo);
            assert(crate::parse::hex_val('0') == 0);
            assert(crate::parse::hex4_ok(s, i + 2));
            assert(crate::parse::hex4_val(s, i + 2) == hi * 16 + lo);
            assert(hi * 16 + lo == c as u32) by (nonlinear_arith)
                requires
                    hi == (c as u32 / 16) as int,
                    lo == (c as u32 % 16) as int,
            ;
            assert(crate::parse::valid_scalar(crate::parse::hex4_val(s, i + 2)));
            vstd::utf8::char_u32_cast(c, c as u32);
            assert(((crate::parse::hex4_val(s, i + 2) as u32) as char) == c);
        } else {
            assert(ec == seq![c]);
            assert(s[i + 0] == ec[0]);
            assert(s[i] == c);
            assert(s[i] != '"' && s[i] != '\\');
        }
    }
}

/// The serialized text of a string literal parses back to exactly the
/// string, consuming exactly itself.
pub proof fn lemma_parse_str(s: Seq<char>, i: int, cs: Seq<char>)
    requires
        holds_at(s, i, ser_val(JsonVal::Str(cs))),
    ensures
        sp_string(s, i) == Some((cs, i + ser_val(JsonVal::Str(cs)).len())),
{
    let t = ser_val(JsonVal::Str(cs));
    assert(t == seq!['"'] + esc_text(cs) + seq!['"']);
    assert(t =~= seq!['"'] + (esc_text(cs) + seq!['"']));
    lemma_holds_at_concat(s, i, seq!['"'], esc_text(cs) + seq!['"']);
    lemma_holds_at(s, i, seq!['"']);
    assert(s[i + 0] == seq!['"'][0]);
    assert(s[i] == '"');
    lemma_parse_esc(s, i + 1, cs);
}

/// The serialized text of a faithful value is nonempty, and its first
/// character both picks the right branch of the parser's dispatch and is
/// no whitespace.
pub proof fn lemma_ser_first(v: JsonVal)
    requires
        faithful(v),
    ensures
        ser_val(v).len() > 0,
        !is_ws(ser_val(v)[0]),
        ser_val(v)[0] != ']' && ser_val(v)[0] != '}' && ser_val(v)[0] != ',',
        v is Null ==> ser_val(v)[0] == 'n',
        v matches JsonVal::Bool(b) ==> ser_val(v)[0] == (if b {
            't'
        } else {
            'f'
        }),
        v is Int ==> (ser_val(v)[0] == '-' || is_digit(ser_val(v)[0])),
        v is Str ==> ser_val(v)[0] == '"',
        v is Arr ==> ser_val(v)[0] == '[',
        v is Obj ==> ser_val(v)[0] == '{',
{
    match v {
        JsonVal::Int(n) => {
            if n < 0 {
                lemma_nat_text(-n);
                assert(ser_val(v)[0] == (seq!['-'] + nat_text(-n))[0]);
            } else {
                lemma_nat_text(n);
                assert(ser_val(v) == nat_text(n));
                assert(is_digit(nat_text(n)[0]));
            }
        },
        JsonVal::Str(cs) => {
            assert(ser_val(v)[0] == (seq!['"'] + esc_text(cs) + seq!['"'])[0]);
        },
        JsonVal::Arr(items) => {
            assert(ser_val(v)[0] == (seq!['['] + ser_items(items) + seq![']'])[0]);
        },
        JsonVal::Obj(fields) => {
            assert(ser_val(v)[0] == (seq!['{'] + ser_fields(fields) + seq!['}'])[0]);
        },
        _ => {},
    }
}

/// Folding fields whose keys are unique and absent from the accumulator
/// appends them in order.
pub proof fn lemma_obj_fold_unique(
    acc: Seq<(Seq<char>, JsonVal)>,
    pairs: Seq<(Seq<char>, JsonVal)>,
)
    requires
        JsonVal::keys_unique(acc + pairs),
    ensures
        obj_fold(acc, pairs) == acc + pairs,
    decreases pairs.len(),
{
    if pairs.len() == 0 {
        assert(acc + pairs =~= acc);
    } else {
        let p = pairs[0];
        assert((acc + pairs)[acc.len() as int] == p);
        assert forall|m: int| 0 <= m < acc.len() implies acc[m].0 != p.0 by {
            assert((acc + pairs)[m] == acc[m]);
        }
        crate::convert::lemma_obj_insert_absent_pair(acc, p.0, p.1);
        assert(obj_fold(acc, pairs) == obj_fold(acc.push(p), pairs.drop_first()));
        assert(acc.push(p) + pairs.drop_first() =~= acc + pairs);
        lemma_obj_fold_unique(acc.push(p), pairs.drop_first());
    }
}

/// The serialized text of a faithful value parses back to exactly that
/// value, consuming exactly itself.
pub proof fn lemma_parse_ser_val(s: Seq<char>, i: int, v: JsonVal)
    requires
        faithful(v),
        holds_at(s, i, ser_val(v)),
        bounded_after(s, i, ser_val(v)),
    ensures
        sp_value(s, i) == Some((v, i + ser_val(v).len())),
    decreases v, 1int,
{
    broadcast use lemma_skip_ws;

    let t = ser_val(v);
    lemma_ser_first(v);
    lemma_holds_at(s, i, t);
    assert(s[i + 0] == t[0]);
    assert(s[i] == t[0]);
    match v {
        JsonVal::Null => {
            assert(s.subrange(i, i + 4) =~= seq!['n', 'u', 'l', 'l']);
            assert(has_lit(s, i, seq!['n', 'u', 'l', 'l']));
        },
        JsonVal::Bool(b) => {
            if b {
                assert(s.subrange(i, i + 4) =~= seq!['t', 'r', 'u', 'e']);
                assert(has_lit(s, i, seq!['t', 'r', 'u', 'e']));
            } else {
                assert(s.subrange(i, i + 5) =~= seq!['f', 'a', 'l', 's', 'e']);
                assert(has_lit(s, i, seq!['f', 'a', 'l', 's', 'e']));
            }
        },
        JsonVal::Int(n) => {
            lemma_parse_int(s, i, n);
            assert(s[i] != '"' && s[i] != '[' && s[i] != '{' && s[i] != 't' && s[i] != 'f' && s[i]
                != 'n');
        },
        JsonVal::Float(_) => {
            assert(false);
        },
        JsonVal::Str(cs) => {
            lemma_parse_str(s, i, cs);
        },
        JsonVal::Arr(items) => {
            assert(t =~= seq!['['] + (ser_items(items) + seq![']']));
            lemma_holds_at_concat(s, i, seq!['['], ser_items(items) + seq![']']);
            lemma_holds_at_concat(s, i + 1, ser_items(items), seq![']']);
            let close = i + 1 + ser_items(items).len();
            lemma_holds_at_one(s, close, ']');
            assert(s[close] == ']');
            if items.len() == 0 {
                assert(ser_items(items).len() == 0);
                assert(skip_ws(s, i + 1) == i + 1);
                assert(sp_value(s, i) == Some((JsonVal::Arr(Seq::empty()), i + 2)));
                assert(items =~= Seq::<JsonVal>::empty());
                assert(v == JsonVal::Arr(Seq::<JsonVal>::empty()));
            } else {
                lemma_faithful_items(items);
                lemma_parse_ser_items(s, i + 1, items);
                lemma_ser_first(items[0]);
                lemma_holds_at(s, i + 1, ser_items(items));
                assert(ser_items(items)[0] == ser_val(items[0])[0]) by {
                    if items.len() == 1 {
                    } else {
                        assert(ser_items(items) == ser_val(items[0]) + seq![','] + ser_items(
                            items.drop_first(),
                        ));
                    }
                }
                assert(s[i + 1 + 0] == ser_items(items)[0]);
                assert(!is_ws(s[i + 1]));
                assert(skip_ws(s, i + 1) == i + 1);
                assert(s[i + 1] != ']');
                assert(sp_value(s, i) == Some((v, i + t.len())));
            }
        },
        JsonVal::Obj(fields) => {
            assert(t =~= seq!['{'] + (ser_fields(fields) + seq!['}']));
            lemma_holds_at_concat(s, i, seq!['{'], ser_fields(fields) + seq!['}']);
            lemma_holds_at_concat(s, i + 1, ser_fields(fields), seq!['}']);
            let close = i + 1 + ser_fields(fields).len();
            lemma_holds_at_one(s, close, '}');
            assert(s[close] == '}');
            if fields.len() == 0 {
                assert(ser_fields(fields).len() == 0);
                assert(skip_ws(s, i + 1) == i + 1);
                assert(sp_value(s, i) == Some((JsonVal::Obj(Seq::empty()), i + 2)));
                assert(fields =~= Seq::<(Seq<char>, JsonVal)>::empty());
                assert(v == JsonVal::Obj(Seq::<(Seq<char>, JsonVal)>::empty()));
            } else {
                lemma_faithful_fields(fields);
                lemma_parse_ser_fields(s, i + 1, fields);
                lemma_holds_at(s, i + 1, ser_fields(fields));
                assert(ser_fields(fields)[0] == ser_field(fields[0])[0]) by {
                    if fields.len() > 1 {
                        assert(ser_fields(fields) == ser_field(fields[0]) + seq![','] + ser_fields(
                            fields.drop_first(),
                        ));
                    }
                }
                assert(ser_field(fields[0])[0] == '"');
                assert(s[i + 1 + 0] == ser_fields(fields)[0]);
                assert(!is_ws(s[i + 1]));
                assert(skip_ws(s, i + 1) == i + 1);
                assert(s[i + 1] != '}');
                assert(Seq::<(Seq<char>, JsonVal)>::empty() + fields =~= fields);
                lemma_obj_fold_unique(Seq::empty(), fields);
                assert(sp_value(s, i) == Some((v, i + t.len())));
            }
        },
    }
}

/// The serialized text of a faithful value, as an element, parses back to
/// exactly that value: no whitespace surrounds it, so nothing more is
/// consumed.
pub proof fn lemma_parse_ser_element(s: Seq<char>, i: int, v: JsonVal)
    requires
        faithful(v),
        holds_at(s, i, ser_val(v)),
        bounded_after(s, i, ser_val(v)),
    ensures
        sp_element(s, i) == Some((v, i + ser_val(v).len())),
    decreases v, 2int,
{
    let t = ser_val(v);
    lemma_ser_first(v);
    lemma_holds_at(s, i, t);
    assert(s[i + 0] == t[0]);
    assert(!is_ws(s[i]));
    assert(skip_ws(s, i) == i);
    lemma_parse_ser_val(s, i, v);
    let end = i + t.len();
    assert(skip_ws(s, end) == end) by {
        if end < s.len() {
            assert(!is_ws(s[end]));
        }
    }
}

/// A nonempty run of serialized elements followed by `]` parses back to
/// exactly those elements, consuming through the bracket.
pub proof fn lemma_parse_ser_items(s: Seq<char>, i: int, items: Seq<JsonVal>)
    requires
        items.len() > 0,
        faithful_items(items),
        holds_at(s, i, ser_items(items)),
        i + ser_items(items).len() < s.len(),
        s[i + ser_items(items).len()] == ']',
    ensures
        sp_arr_items(s, i) == Some((items, i + ser_items(items).len() + 1)),
    decreases items, 3int,
{
    lemma_faithful_items(items);
    let e = items[0];
    let et = ser_val(e);
    if items.len() == 1 {
        assert(ser_items(items) == et);
        assert(is_boundary(']'));
        lemma_parse_ser_element(s, i, e);
        assert(seq![e] =~= items);
    } else {
        let rest = items.drop_first();
        assert(ser_items(items) == et + seq![','] + ser_items(rest));
        assert(ser_items(items) =~= et + (seq![','] + ser_items(rest)));
        lemma_holds_at_concat(s, i, et, seq![','] + ser_items(rest));
        lemma_holds_at_concat(s, i + et.len(), seq![','], ser_items(rest));
        lemma_holds_at_one(s, i + et.len(), ',');
        assert(s[i + et.len()] == ',');
        assert(is_boundary(','));
        lemma_parse_ser_element(s, i, e);
        lemma_faithful_items(rest);
        assert(i + et.len() + 1 + ser_items(rest).len() == i + ser_items(items).len());
        lemma_parse_ser_items(s, i + et.len() + 1, rest);
        assert(seq![e] + rest =~= items);
    }
}

/// A nonempty run of serialized fields followed by `}` parses back to
/// exactly those fields in order, consuming through the brace.
pub proof fn lemma_parse_ser_fields(s: Seq<char>, i: int, fields: Seq<(Seq<char>, JsonVal)>)
    requires
        fields.len() > 0,
        faithful_fields(fields),
        holds_at(s, i, ser_fields(fields)),
        i + ser_fields(fields).len() < s.len(),
        s[i + ser_fields(fields).len()] == '}',
    ensures
        sp_obj_items(s, i) == Some((fields, i + ser_fields(fields).len() + 1)),
    decreases fields, 3int,
{
    broadcast use lemma_skip_ws;

    lemma_faithful_fields(fields);
    let f = fields[0];
    let ft = ser_field(f);
    let sep: char = if fields.len() == 1 {
        '}'
    } else {
        ','
    };
    // the field's own text stands at i, then the separator
    if fields.len() == 1 {
        assert(ser_fields(fields) == ft);
    } else {
        assert(ser_fields(fields) == ft + seq![','] + ser_fields(fields.drop_first()));
        assert(ser_fields(fields) =~= ft + (seq![','] + ser_fields(fields.drop_first())));
        lemma_holds_at_concat(s, i, ft, seq![','] + ser_fields(fields.drop_first()));
        lemma_holds_at_concat(s, i + ft.len(), seq![','], ser_fields(fields.drop_first()));
        lemma_holds_at_one(s, i + ft.len(), ',');
    }
    assert(holds_at(s, i, ft));
    assert(s[i + ft.len()] == sep);
    // split the field text: quoted key, colon, value
    let key_text = seq!['"'] + (esc_text(f.0) + seq!['"']);
    assert(ft =~= key_text + (seq![':'] + ser_val(f.1)));
    lemma_holds_at_concat(s, i, key_text, seq![':'] + ser_val(f.1));
    lemma_holds_at_concat(s, i + key_text.len(), seq![':'], ser_val(f.1));
    let colon = i + key_text.len();
    lemma_holds_at_one(s, colon, ':');
    assert(s[colon] == ':');
    // the key parses as a string literal
    lemma_holds_at_concat(s, i, seq!['"'], esc_text(f.0) + seq!['"']);
    lemma_holds_at_one(s, i, '"');
    assert(s[i] == '"');
    assert(skip_ws(s, i) == i);
    lemma_parse_esc(s, i + 1, f.0);
    assert(sp_string(s, i) == Some((f.0, colon)));
    assert(skip_ws(s, colon) == colon);
    // the value element follows the colon, ended by the separator
    let vstart = colon + 1;
    assert(holds_at(s, vstart, ser_val(f.1)));
    assert(vstart + ser_val(f.1).len() == i + ft.len());
    assert(is_boundary(sep));
    lemma_parse_ser_element(s, vstart, f.1);
    let n = i + ft.len();
    if fields.len() == 1 {
        assert(sp_obj_items(s, i) == Some((seq![(f.0, f.1)], n + 1)));
        assert(seq![(f.0, f.1)] =~= fields);
        assert((f.0, f.1) == f);
    } else {
        let rest = fields.drop_first();
        lemma_faithful_fields(rest);
        assert(i + ft.len() + 1 + ser_fields(rest).len() == i + ser_fields(fields).len());
        lemma_parse_ser_fields(s, n + 1, rest);
        assert(seq![(f.0, f.1)] + rest =~= fields);
    }
}

/// Law: the serialized text of any faithful value — integers within 64
/// signed bits, unique object keys, no floats — parses back to exactly
/// that value.
pub proof fn lemma_serialize_round_trip(v: JsonVal)
    requires
        faithful(v),
    ensures
        sp_parse(ser_val(v)) == Some(v),
{
    let s = ser_val(v);
    assert(s.subrange(0, s.len() as int) =~= s);
    assert(holds_at(s, 0, s));
    lemma_parse_ser_element(s, 0, v);
}

/// Law: serializing what the parser produced and parsing it again yields a
/// structurally equal value, for every parse result without floats.
pub proof fn lemma_parse_serialize_parse(s: Seq<char>, v: JsonVal)
    requires
        sp_parse(s) == Some(v),
        faithful(v),
    ensures
        sp_parse(ser_val(v)) == Some(v),
{
    lemma_serialize_round_trip(v);
}

/// Some field of `fs` is named `k`.
pub open spec fn has_key(fs: Seq<(Seq<char>, JsonVal)>, k: Seq<char>) -> bool {
    exists|i: int| 0 <= i < fs.len() && #[trigger] fs[i].0 == k
}

/// Inserting preserves key uniqueness, and the keys afterwards are the
/// old ones plus the inserted one.
pub proof fn lemma_obj_insert_unique(fs: Seq<(Seq<char>, JsonVal)>, k: Seq<char>, v: JsonVal)
    requires
        JsonVal::keys_unique(fs),
    ensures
        JsonVal::keys_unique(obj_insert(fs, k, v)),
        forall|k2: Seq<char>|
            #[trigger] has_key(obj_insert(fs, k, v), k2) <==> (k2 == k || has_key(fs, k2)),
    decreases fs.len(),
{
    let r = obj_insert(fs, k, v);
    if fs.len() == 0 {
        assert(r == seq![(k, v)]);
        assert(r[0].0 == k);
        assert forall|k2: Seq<char>| #[trigger] has_key(r, k2) implies (k2 == k || has_key(
            fs,
            k2,
        )) by {
            let i = choose|i: int| 0 <= i < r.len() && #[trigger] r[i].0 == k2;
            assert(r[i] == (k, v));
        }
    } else if fs[0].0 == k {
        assert(r == seq![(k, v)].add(fs.drop_first()));
        assert(r[0].0 == k);
        assert forall|m: int| 1 <= m < r.len() implies r[m] == fs[m] by {}
        assert forall|i: int, j: int| 0 <= i < j < r.len() implies r[i].0 != r[j].0 by {
            if i == 0 {
                assert(fs[0].0 != fs[j].0);
            }
        }
        assert forall|k2: Seq<char>| #[trigger] has_key(r, k2) implies (k2 == k || has_key(
            fs,
            k2,
        )) by {
            let i = choose|i: int| 0 <= i < r.len() && #[trigger] r[i].0 == k2;
            if i > 0 {
                assert(fs[i].0 == k2);
            }
        }
        assert forall|k2: Seq<char>| (k2 == k || has_key(fs, k2)) implies #[trigger] has_key(
            r,
            k2,
        ) by {
            if k2 == k {
                assert(r[0].0 == k2);
            } else {
                let i = choose|i: int| 0 <= i < fs.len() && #[trigger] fs[i].0 == k2;
                assert(i > 0);
                assert(r[i].0 == k2);
            }
        }
    } else {
        let d = fs.drop_first();
        assert forall|i: int, j: int| 0 <= i < j < d.len() implies d[i].0 != d[j].0 by {
            assert(fs[i + 1].0 != fs[j + 1].0);
        }
        lemma_obj_insert_unique(d, k, v);
        let inner = obj_insert(d, k, v);
        assert(r == seq![fs[0]].add(inner));
        assert(r[0] == fs[0]);
        assert forall|m: int| 1 <= m < r.len() implies r[m] == inner[m - 1] by {}
        assert(!has_key(d, fs[0].0)) by {
            if has_key(d, fs[0].0) {
                let i = choose|i: int| 0 <= i < d.len() && #[trigger] d[i].0 == fs[0].0;
                assert(fs[i + 1].0 == fs[0].0);
            }
        }
        assert forall|i: int, j: int| 0 <= i < j < r.len() implies r[i].0 != r[j].0 by {
            if i == 0 {
                assert(r[j].0 == inner[j - 1].0);
                if r[j].0 == fs[0].0 {
                    assert(has_key(inner, fs[0].0));
                    assert(fs[0].0 != k);
                    assert(has_key(d, fs[0].0));
                }
            }
        }
        assert forall|k2: Seq<char>| #[trigger] has_key(r, k2) implies (k2 == k || has_key(
            fs,
            k2,
        )) by {
            let i = choose|i: int| 0 <= i < r.len() && #[trigger] r[i].0 == k2;
            if i == 0 {
                assert(fs[0].0 == k2);
            } else {
                assert(has_key(inner, k2)) by {
                    assert(inner[i - 1].0 == k2);
                }
                if k2 != k {
                    let m = choose|m: int| 0 <= m < d.len() && #[trigger] d[m].0 == k2;
                    assert(fs[m + 1].0 == k2);
                }
            }
        }
        assert forall|k2: Seq<char>| (k2 == k || has_key(fs, k2)) implies #[trigger] has_key(
            r,
            k2,
        ) by {
            if k2 == k {
                assert(has_key(inner, k2));
                let m = choose|m: int| 0 <= m < inner.len() && #[trigger] inner[m].0 == k2;
                assert(r[m + 1].0 == k2);
            } else {
                let i = choose|i: int| 0 <= i < fs.len() && #[trigger] fs[i].0 == k2;
                if i == 0 {
                    assert(r[0].0 == k2);
                } else {
                    assert(d[i - 1].0 == k2);
                    assert(has_key(inner, k2));
                    let m = choose|m: int| 0 <= m < inner.len() && #[trigger] inner[m].0 == k2;
                    assert(r[m + 1].0 == k2);
                }
            }
        }
    }
}

/// Law: an object built by folding parsed fields holds each key at most
/// once, whatever fields the text carried — the model invariant of every
/// object the parser yields.
pub proof fn lemma_obj_fold_keys_unique(
    acc: Seq<(Seq<char>, JsonVal)>,
    pairs: Seq<(Seq<char>, JsonVal)>,
)
    requires
        JsonVal::keys_unique(acc),
    ensures
        JsonVal::keys_unique(obj_fold(acc, pairs)),
    decreases pairs.len(),
{
    if pairs.len() > 0 {
        lemma_obj_insert_unique(acc, pairs[0].0, pairs[0].1);
        lemma_obj_fold_keys_unique(obj_insert(acc, pairs[0].0, pairs[0].1), pairs.drop_first());
    }
}


} // verus!
