//! The serializer: renders a `Value` as minimal, compact JSON text. The
//! functional specification `ser_val` defines the exact text; the
//! executable serializer is proved to produce it. Serialization never
//! fails.

use vstd::prelude::*;
use vstd::string::{StrSliceExecFns, StringExecFns};

use crate::num::{float_text_from_bits, float_text_of};
use crate::strutil::push_char;
use crate::value::{JsonVal, Value, arr_view, obj_view, val_view};

verus! {

broadcast use vstd::std_specs::vec::group_vec_axioms, vstd::seq::group_seq_axioms;

/// The decimal digit character for a value below ten.
pub open spec fn digit_char(d: int) -> char {
    ((48 + d) as u8) as char
}

/// The text of a nonnegative integer, most significant digit first.
pub open spec fn nat_text(n: int) -> Seq<char>
    decreases n,
{
    if n <= 9 {
        seq![digit_char(n)]
    } else {
        nat_text(n / 10).push(digit_char(n % 10))
    }
}

/// The text of an integer: its exact decimal digits, `-`-signed when
/// negative.
pub open spec fn int_text(n: int) -> Seq<char> {
    if n < 0 {
        seq!['-'] + nat_text(-n)
    } else {
        nat_text(n)
    }
}

/// The lower-case hexadecimal digit character for a value below sixteen.
pub open spec fn hex_digit_char(d: int) -> char {
    if d < 10 {
        digit_char(d)
    } else {
        ((87 + d) as u8) as char
    }
}

/// The text that one character of a string contributes: quote and
/// backslash are escaped, control characters become `\u00XX`, everything
/// else passes through verbatim.
pub open spec fn esc_char_text(c: char) -> Seq<char> {
    if c == '"' {
        seq!['\\', '"']
    } else if c == '\\' {
        seq!['\\', '\\']
    } else if (c as u32) < 0x20 {
        seq![
            '\\',
            'u',
            '0',
            '0',
            hex_digit_char((c as u32 / 16) as int),
            hex_digit_char((c as u32 % 16) as int),
        ]
    } else {
        seq![c]
    }
}

/// The escaped text of a whole string.
pub open spec fn esc_text(cs: Seq<char>) -> Seq<char>
    decreases cs.len(),
{
    if cs.len() == 0 {
        Seq::empty()
    } else {
        esc_char_text(cs[0]) + esc_text(cs.drop_first())
    }
}

/// The text holds a fraction dot or an exponent mark.
pub open spec fn has_float_mark(t: Seq<char>) -> bool {
    exists|k: int| 0 <= k < t.len() && (t[k] == '.' || t[k] == 'e' || t[k] == 'E')
}

/// The text of a float: what the formatter renders the bits as, with `.0`
/// appended when neither a dot nor an exponent marks it as a float, so
/// that re-parsing yields a float again.
pub open spec fn float_json_text(bits: u64) -> Seq<char> {
    let t = float_text_of(bits);
    if has_float_mark(t) {
        t
    } else {
        t + seq!['.', '0']
    }
}

/// The compact JSON text of a value.
pub open spec fn ser_val(v: JsonVal) -> Seq<char>
    decreases v, 0int,
{
    match v {
        JsonVal::Null => seq!['n', 'u', 'l', 'l'],
        JsonVal::Bool(b) => if b {
            seq!['t', 'r', 'u', 'e']
        } else {
            seq!['f', 'a', 'l', 's', 'e']
        },
        JsonVal::Int(n) => int_text(n),
        JsonVal::Float(bits) => float_json_text(bits),
        JsonVal::Str(cs) => seq!['"'] + esc_text(cs) + seq!['"'],
        JsonVal::Arr(items) => seq!['['] + ser_items(items) + seq![']'],
        JsonVal::Obj(fields) => seq!['{'] + ser_fields(fields) + seq!['}'],
    }
}

/// The comma-separated texts of an array's elements.
pub open spec fn ser_items(items: Seq<JsonVal>) -> Seq<char>
    decreases items, 1int,
{
    if items.len() == 0 {
        Seq::empty()
    } else if items.len() == 1 {
        ser_val(items[0])
    } else {
        ser_val(items[0]) + seq![','] + ser_items(items.drop_first())
    }
}

/// The comma-separated texts of an object's fields, each a quoted escaped
/// key, a colon, and the value.
pub open spec fn ser_fields(fields: Seq<(Seq<char>, JsonVal)>) -> Seq<char>
    decreases fields, 1int,
{
    if fields.len() == 0 {
        Seq::empty()
    } else if fields.len() == 1 {
        ser_field(fields[0])
    } else {
        ser_field(fields[0]) + seq![','] + ser_fields(fields.drop_first())
    }
}

/// The text of one object field.
pub open spec fn ser_field(field: (Seq<char>, JsonVal)) -> Seq<char>
    decreases field, 0int,
{
    seq!['"'] + esc_text(field.0) + seq!['"', ':'] + ser_val(field.1)
}

/// Appending one element extends the comma-separated item text.
proof fn lemma_ser_items_push(items: Seq<JsonVal>, x: JsonVal)
    ensures
        ser_items(items.push(x)) == if items.len() == 0 {
            ser_val(x)
        } else {
            ser_items(items) + seq![','] + ser_val(x)
        },
    decreases items.len(),
{
    if items.len() == 0 {
        assert(items.push(x)[0] == x);
    } else {
        assert(items.push(x).drop_first() =~= items.drop_first().push(x));
        lemma_ser_items_push(items.drop_first(), x);
        if items.len() == 1 {
            assert(items.push(x)[0] == items[0]);
        } else {
            assert(items.push(x)[0] == items[0]);
            assert(ser_items(items) == ser_val(items[0]) + seq![','] + ser_items(
                items.drop_first(),
            ));
        }
    }
}

/// Appending one field extends the comma-separated field text.
proof fn lemma_ser_fields_push(fields: Seq<(Seq<char>, JsonVal)>, x: (Seq<char>, JsonVal))
    ensures
        ser_fields(fields.push(x)) == if fields.len() == 0 {
            ser_field(x)
        } else {
            ser_fields(fields) + seq![','] + ser_field(x)
        },
    decreases fields.len(),
{
    if fields.len() == 0 {
        assert(fields.push(x)[0] == x);
    } else {
        assert(fields.push(x).drop_first() =~= fields.drop_first().push(x));
        lemma_ser_fields_push(fields.drop_first(), x);
        assert(fields.push(x)[0] == fields[0]);
        if fields.len() > 1 {
            assert(ser_fields(fields) == ser_field(fields[0]) + seq![','] + ser_fields(
                fields.drop_first(),
            ));
        }
    }
}

/// Appending one character extends the escaped text.
proof fn lemma_esc_text_push(cs: Seq<char>, c: char)
    ensures
        esc_text(cs.push(c)) == esc_text(cs) + esc_char_text(c),
    decreases cs.len(),
{
    if cs.len() == 0 {
        let p = cs.push(c);
        assert(p[0] == c);
        assert(p.drop_first() =~= Seq::<char>::empty());
        assert(esc_text(p) == esc_char_text(c) + esc_text(p.drop_first()));
        assert(esc_text(p.drop_first()) == Seq::<char>::empty());
        assert(esc_char_text(c) + Seq::<char>::empty() =~= esc_char_text(c));
        assert(Seq::<char>::empty() + esc_char_text(c) =~= esc_char_text(c));
    } else {
        assert(cs.push(c)[0] == cs[0]);
        assert(cs.push(c).drop_first() =~= cs.drop_first().push(c));
        lemma_esc_text_push(cs.drop_first(), c);
        assert((esc_char_text(cs[0]) + esc_text(cs.drop_first())) + esc_char_text(c)
            =~= esc_char_text(cs[0]) + (esc_text(cs.drop_first()) + esc_char_text(c)));
    }
}

/// Writes the decimal digits of a nonnegative value.
fn ser_nat(m: u64, out: &mut String)
    ensures
        final(out)@ == old(out)@ + nat_text(m as int),
    decreases m,
{
    if m <= 9 {
        let c: char = ((48 + m) as u8) as char;
        push_char(out, c);
        assert(final(out)@ =~= old(out)@ + nat_text(m as int));
    } else {
        ser_nat(m / 10, out);
        let c: char = ((48 + m % 10) as u8) as char;
        push_char(out, c);
        assert(final(out)@ =~= old(out)@ + nat_text(m as int));
    }
}

/// Writes the exact decimal digits of an integer, `-`-signed when
/// negative.
fn ser_int(n: i64, out: &mut String)
    ensures
        final(out)@ == old(out)@ + int_text(n as int),
{
    if n >= 0 {
        ser_nat(n as u64, out);
    } else {
        push_char(out, '-');
        let mag: u64 = (-(n as i128)) as u64;
        assert(mag == -(n as int));
        ser_nat(mag, out);
        assert(final(out)@ =~= old(out)@ + (seq!['-'] + nat_text(-(n as int))));
    }
}

/// Appends the escaped text of every character of `cs`.
fn escape_into(cs: &str, out: &mut String)
    ensures
        final(out)@ == old(out)@ + esc_text(cs@),
{
    let len = cs.unicode_len();
    let mut k: usize = 0;
    proof {
        assert(cs@.subrange(0, 0) =~= Seq::<char>::empty());
        assert(old(out)@ + Seq::<char>::empty() =~= old(out)@);
    }
    while k < len
        invariant
            len == cs@.len(),
            k <= len,
            out@ == old(out)@ + esc_text(cs@.subrange(0, k as int)),
        decreases len - k,
    {
        let c = cs.get_char(k);
        proof {
            assert(cs@.subrange(0, k + 1 as int) =~= cs@.subrange(0, k as int).push(c));
            lemma_esc_text_push(cs@.subrange(0, k as int), c);
        }
        if c == '"' {
            push_char(out, '\\');
            push_char(out, '"');
            assert(out@ =~= old(out)@ + esc_text(cs@.subrange(0, k + 1 as int)));
        } else if c == '\\' {
            push_char(out, '\\');
            push_char(out, '\\');
            assert(out@ =~= old(out)@ + esc_text(cs@.subrange(0, k + 1 as int)));
        } else if (c as u32) < 0x20 {
            let hi = c as u32 / 16;
            let lo = c as u32 % 16;
            let hc: char = if hi < 10 {
                ((48 + hi) as u8) as char
            } else {
                ((87 + hi) as u8) as char
            };
            let lc: char = if lo < 10 {
                ((48 + lo) as u8) as char
            } else {
                ((87 + lo) as u8) as char
            };
            push_char(out, '\\');
            push_char(out, 'u');
            push_char(out, '0');
            push_char(out, '0');
            push_char(out, hc);
            push_char(out, lc);
            assert(out@ =~= old(out)@ + esc_text(cs@.subrange(0, k + 1 as int)));
        } else {
            push_char(out, c);
            assert(out@ =~= old(out)@ + esc_text(cs@.subrange(0, k + 1 as int)));
        }
        k += 1;
    }
    proof {
        assert(cs@.subrange(0, len as int) =~= cs@);
    }
}

/// Appends the compact JSON text of `v`, as `ser_val` says.
fn ser_value(v: &Value, out: &mut String)
    ensures
        final(out)@ == old(out)@ + ser_val(val_view(*v)),
    decreases *v,
{
    match v {
        Value::Null => {
            proof {
                reveal_strlit("null");
                assert(("null")@ =~= seq!['n', 'u', 'l', 'l']);
            }
            out.append("null");
        },
        Value::Boolean(b) => {
            if *b {
                proof {
                    reveal_strlit("true");
                    assert(("true")@ =~= seq!['t', 'r', 'u', 'e']);
                }
                out.append("true");
            } else {
                proof {
                    reveal_strlit("false");
                    assert(("false")@ =~= seq!['f', 'a', 'l', 's', 'e']);
                }
                out.append("false");
            }
        },
        Value::Integer(i) => {
            ser_int(*i, out);
        },
        Value::Float(bits) => {
            let t = float_text_from_bits(*bits);
            let marked = find_float_mark(t.as_str());
            out.append(t.as_str());
            if !marked {
                push_char(out, '.');
                push_char(out, '0');
                assert(out@ =~= old(out)@ + (float_text_of(*bits) + seq!['.', '0']));
            }
        },
        Value::Str(s) => {
            push_char(out, '"');
            escape_into(s.as_str(), out);
            push_char(out, '"');
            assert(out@ =~= old(out)@ + (seq!['"'] + esc_text(s@) + seq!['"']));
        },
        Value::Array(a) => {
            let ghost items = arr_view(a@);
            proof {
                crate::value::lemma_arr_view(a@);
            }
            push_char(out, '[');
            let n = a.len();
            let mut idx: usize = 0;
            proof {
                assert(items.take(0) =~= Seq::<JsonVal>::empty());
            }
            while idx < n
                invariant
                    *v == Value::Array(*a),
                    n == a@.len(),
                    idx <= n,
                    items == arr_view(a@),
                    items.len() == n,
                    forall|m: int| 0 <= m < n ==> items[m] == val_view(a@[m]),
                    out@ == old(out)@ + seq!['['] + ser_items(items.take(idx as int)),
                decreases n - idx,
            {
                proof {
                    assert(items.take(idx + 1 as int) =~= items.take(idx as int).push(
                        items[idx as int],
                    ));
                    lemma_ser_items_push(items.take(idx as int), items[idx as int]);
                }
                if idx > 0 {
                    push_char(out, ',');
                }
                proof {
                    assert(*v == Value::Array(*a));
                    assert(decreases_to!(*v => v->Array_0));
                    assert(decreases_to!(*a => a@));
                    assert(decreases_to!(a@ => a@[idx as int]));
                }
                ser_value(&a[idx], out);
                proof {
                    assert(out@ =~= old(out)@ + seq!['['] + ser_items(
                        items.take(idx + 1 as int),
                    ));
                }
                idx += 1;
            }
            proof {
                assert(items.take(n as int) =~= items);
            }
            push_char(out, ']');
            assert(out@ =~= old(out)@ + (seq!['['] + ser_items(items) + seq![']']));
        },
        Value::Object(fields) => {
            let ghost fviews = obj_view(fields@);
            proof {
                crate::value::lemma_obj_view(fields@);
            }
            push_char(out, '{');
            let n = fields.len();
            let mut idx: usize = 0;
            proof {
                assert(fviews.take(0) =~= Seq::<(Seq<char>, JsonVal)>::empty());
            }
            while idx < n
                invariant
                    *v == Value::Object(*fields),
                    n == fields@.len(),
                    idx <= n,
                    fviews == obj_view(fields@),
                    fviews.len() == n,
                    forall|m: int|
                        0 <= m < n ==> fviews[m] == (fields@[m].0@, val_view(fields@[m].1)),
                    out@ == old(out)@ + seq!['{'] + ser_fields(fviews.take(idx as int)),
                decreases n - idx,
            {
                proof {
                    assert(fviews.take(idx + 1 as int) =~= fviews.take(idx as int).push(
                        fviews[idx as int],
                    ));
                    lemma_ser_fields_push(fviews.take(idx as int), fviews[idx as int]);
                }
                if idx > 0 {
                    push_char(out, ',');
                }
                push_char(out, '"');
                escape_into(fields[idx].0.as_str(), out);
                push_char(out, '"');
                push_char(out, ':');
                proof {
                    assert(*v == Value::Object(*fields));
                    assert(decreases_to!(*v => v->Object_0));
                    assert(decreases_to!(*fields => fields@));
                    assert(decreases_to!(fields@ => fields@[idx as int]));
                    assert(decreases_to!(fields@[idx as int] => fields@[idx as int].1));
                }
                ser_value(&fields[idx].1, out);
                proof {
                    assert(ser_field(fviews[idx as int]) =~= seq!['"'] + esc_text(
                        fields@[idx as int].0@,
                    ) + seq!['"', ':'] + ser_val(val_view(fields@[idx as int].1)));
                    assert(out@ =~= old(out)@ + seq!['{'] + ser_fields(
                        fviews.take(idx + 1 as int),
                    ));
                }
                idx += 1;
            }
            proof {
                assert(fviews.take(n as int) =~= fviews);
            }
            push_char(out, '}');
            assert(out@ =~= old(out)@ + (seq!['{'] + ser_fields(fviews) + seq!['}']));
        },
    }
}

impl Value {
    /// Renders the value as compact JSON text, exactly as `ser_val` says.
    /// Every value serializes; there is no failure path.
    pub fn serialize(&self) -> (r: String)
        ensures
            r@ == ser_val(self@),
    {
        let mut out = String::new();
        ser_value(self, &mut out);
        proof {
            assert(Seq::<char>::empty() + ser_val(val_view(*self)) =~= ser_val(val_view(*self)));
        }
        out
    }
}

/// Whether the rendered float text already carries a dot or an exponent
/// mark.
fn find_float_mark(t: &str) -> (r: bool)
    ensures
        r == has_float_mark(t@),
{
    let len = t.unicode_len();
    let mut k: usize = 0;
    while k < len
        invariant
            len == t@.len(),
            k <= len,
            forall|m: int| 0 <= m < k ==> !(t@[m] == '.' || t@[m] == 'e' || t@[m] == 'E'),
        decreases len - k,
    {
        let c = t.get_char(k);
        if c == '.' || c == 'e' || c == 'E' {
            return true;
        }
        k += 1;
    }
    false
}

} // verus!
