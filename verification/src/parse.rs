//! The JSON grammar parser. Each parse function consumes a prefix of the
//! input text and yields the parsed fragment together with the position of
//! the unconsumed suffix, or nothing when the text does not match the
//! grammar at that position.
//!
//! The functional specification below defines, over a sequence of
//! characters and a position, exactly which prefix each production
//! consumes and which value it denotes. The executable parser is proved to
//! return exactly what the specification says, so success, failure, and
//! consumption length are all pinned down.

use vstd::prelude::*;
use vstd::string::StrSliceExecFns;

use crate::num::{float_bits_from_text, float_bits_of};
use crate::strutil::push_char;
use crate::value::{JsonVal, Value, arr_view, obj_view, val_view};

verus! {

broadcast use vstd::std_specs::vec::group_vec_axioms, vstd::seq::group_seq_axioms;

/// JSON whitespace: space, tab, newline, carriage return.
pub open spec fn is_ws(c: char) -> bool {
    c == ' ' || c == '\t' || c == '\n' || c == '\r'
}

/// A decimal digit.
pub open spec fn is_digit(c: char) -> bool {
    '0' <= c && c <= '9'
}

/// A hexadecimal digit.
pub open spec fn is_hex(c: char) -> bool {
    is_digit(c) || ('a' <= c && c <= 'f') || ('A' <= c && c <= 'F')
}

/// The value of a hexadecimal digit.
pub open spec fn hex_val(c: char) -> int {
    if is_digit(c) {
        c as u32 - '0' as u32
    } else if 'a' <= c && c <= 'f' {
        c as u32 - 'a' as u32 + 10
    } else {
        c as u32 - 'A' as u32 + 10
    }
}

/// The first position at or after `i` that does not hold whitespace.
pub open spec fn skip_ws(s: Seq<char>, i: int) -> int
    decreases s.len() - i,
{
    if 0 <= i && i < s.len() && is_ws(s[i]) {
        skip_ws(s, i + 1)
    } else {
        i
    }
}

/// `skip_ws` stays within bounds and stops at the first non-whitespace
/// character.
pub broadcast proof fn lemma_skip_ws(s: Seq<char>, i: int)
    requires
        0 <= i <= s.len(),
    ensures
        i <= #[trigger] skip_ws(s, i) <= s.len(),
        skip_ws(s, i) < s.len() ==> !is_ws(s[skip_ws(s, i)]),
    decreases s.len() - i,
{
    if i < s.len() && is_ws(s[i]) {
        lemma_skip_ws(s, i + 1);
    }
}

/// The text holds `lit` starting at `i`.
pub open spec fn has_lit(s: Seq<char>, i: int, lit: Seq<char>) -> bool {
    0 <= i && i + lit.len() <= s.len() && s.subrange(i, i + lit.len()) == lit
}

/// The character that a single-character escape denotes, if the escape is
/// one the grammar supports.
pub open spec fn esc_char(c: char) -> Option<char> {
    if c == '"' {
        Some('"')
    } else if c == '\\' {
        Some('\\')
    } else if c == '/' {
        Some('/')
    } else if c == 'b' {
        Some('\u{8}')
    } else if c == 'f' {
        Some('\u{c}')
    } else if c == 'n' {
        Some('\n')
    } else if c == 'r' {
        Some('\r')
    } else if c == 't' {
        Some('\t')
    } else {
        None
    }
}

/// Four hexadecimal digits stand at `i`.
pub open spec fn hex4_ok(s: Seq<char>, i: int) -> bool {
    0 <= i && i + 4 <= s.len() && is_hex(s[i]) && is_hex(s[i + 1]) && is_hex(s[i + 2])
        && is_hex(s[i + 3])
}

/// The value of the four hexadecimal digits at `i`.
pub open spec fn hex4_val(s: Seq<char>, i: int) -> int {
    hex_val(s[i]) * 0x1000 + hex_val(s[i + 1]) * 0x100 + hex_val(s[i + 2]) * 0x10 + hex_val(
        s[i + 3],
    )
}

/// A Unicode scalar value: a code point that is not a surrogate.
pub open spec fn valid_scalar(n: int) -> bool {
    (0 <= n && n < 0xD800) || (0xE000 <= n && n <= 0x10FFFF)
}

/// The body of a string literal from `i` (just after the opening quote) to
/// its closing quote: the decoded characters and the position after the
/// closing quote. Fails when the quote is missing, an escape names an
/// unsupported character, or a `\u` escape lacks four hexadecimal digits
/// or names a surrogate.
pub open spec fn sp_string_body(s: Seq<char>, i: int) -> Option<(Seq<char>, int)>
    decreases s.len() - i,
{
    if !(0 <= i && i < s.len()) {
        None
    } else if s[i] == '"' {
        Some((Seq::empty(), i + 1))
    } else if s[i] == '\\' {
        if i + 1 >= s.len() {
            None
        } else if s[i + 1] == 'u' {
            if hex4_ok(s, i + 2) && valid_scalar(hex4_val(s, i + 2)) {
                match sp_string_body(s, i + 6) {
                    Some((cs, j)) => Some(
                        (seq![(hex4_val(s, i + 2) as u32) as char].add(cs), j),
                    ),
                    None => None,
                }
            } else {
                None
            }
        } else {
            match esc_char(s[i + 1]) {
                Some(c) => match sp_string_body(s, i + 2) {
                    Some((cs, j)) => Some((seq![c].add(cs), j)),
                    None => None,
                },
                None => None,
            }
        }
    } else {
        match sp_string_body(s, i + 1) {
            Some((cs, j)) => Some((seq![s[i]].add(cs), j)),
            None => None,
        }
    }
}

/// A string literal at `i`: an opening quote, a body, a closing quote.
pub open spec fn sp_string(s: Seq<char>, i: int) -> Option<(Seq<char>, int)> {
    if 0 <= i && i < s.len() && s[i] == '"' {
        sp_string_body(s, i + 1)
    } else {
        None
    }
}

/// The first position at or after `i` that does not hold a digit.
pub open spec fn digits_end(s: Seq<char>, i: int) -> int
    decreases s.len() - i,
{
    if 0 <= i && i < s.len() && is_digit(s[i]) {
        digits_end(s, i + 1)
    } else {
        i
    }
}

/// `digits_end` stays within bounds, and everything it passed over is a
/// digit.
pub broadcast proof fn lemma_digits_end(s: Seq<char>, i: int)
    requires
        0 <= i <= s.len(),
    ensures
        i <= #[trigger] digits_end(s, i) <= s.len(),
        forall|k: int| i <= k < digits_end(s, i) ==> is_digit(s[k]),
        digits_end(s, i) < s.len() ==> !is_digit(s[digits_end(s, i)]),
    decreases s.len() - i,
{
    if i < s.len() && is_digit(s[i]) {
        lemma_digits_end(s, i + 1);
    }
}

/// The value of a sequence of decimal digits.
pub open spec fn digits_val(ds: Seq<char>) -> int
    decreases ds.len(),
{
    if ds.len() == 0 {
        0
    } else {
        digits_val(ds.drop_last()) * 10 + (ds.last() as u32 - '0' as u32)
    }
}

/// The shape of a number literal at `i`: whether it is an integer (no
/// fraction, no exponent) and the position after it, or nothing when the
/// shape is malformed (no digit in the integer part, a dot without a
/// following digit, an exponent mark without a digit).
pub open spec fn sp_number_end(s: Seq<char>, i: int) -> Option<(bool, int)> {
    let start = if 0 <= i && i < s.len() && s[i] == '-' {
        i + 1
    } else {
        i
    };
    let int_end = digits_end(s, start);
    if int_end == start {
        None
    } else {
        let has_frac = int_end < s.len() && s[int_end] == '.';
        let frac_end = if has_frac {
            digits_end(s, int_end + 1)
        } else {
            int_end
        };
        if has_frac && frac_end == int_end + 1 {
            None
        } else {
            let has_exp = frac_end < s.len() && (s[frac_end] == 'e' || s[frac_end] == 'E');
            let exp_start = if has_exp {
                if frac_end + 1 < s.len() && (s[frac_end + 1] == '+' || s[frac_end + 1] == '-') {
                    frac_end + 2
                } else {
                    frac_end + 1
                }
            } else {
                frac_end
            };
            let exp_end = digits_end(s, exp_start);
            if has_exp && exp_end == exp_start {
                None
            } else {
                Some((!has_frac && !has_exp, exp_end))
            }
        }
    }
}

/// A number literal at `i`. Without a fraction and an exponent it denotes
/// an integer, which must fit in 64 signed bits; with either it denotes a
/// float, carried as the bit pattern that its text denotes.
pub open spec fn sp_number(s: Seq<char>, i: int) -> Option<(JsonVal, int)> {
    match sp_number_end(s, i) {
        None => None,
        Some((is_int, end)) => {
            if is_int {
                let neg = s[i] == '-';
                let mag = digits_val(
                    s.subrange(
                        if neg {
                            i + 1
                        } else {
                            i
                        },
                        end,
                    ),
                );
                let v = if neg {
                    -mag
                } else {
                    mag
                };
                if i64::MIN <= v && v <= i64::MAX {
                    Some((JsonVal::Int(v), end))
                } else {
                    None
                }
            } else {
                Some((JsonVal::Float(float_bits_of(s.subrange(i, end))), end))
            }
        },
    }
}

/// Inserting a field into an object model: a duplicate key overwrites the
/// first occurrence in place, keeping its position; a new key is appended.
pub open spec fn obj_insert(
    fields: Seq<(Seq<char>, JsonVal)>,
    k: Seq<char>,
    v: JsonVal,
) -> Seq<(Seq<char>, JsonVal)>
    decreases fields.len(),
{
    if fields.len() == 0 {
        seq![(k, v)]
    } else if fields[0].0 == k {
        seq![(k, v)].add(fields.drop_first())
    } else {
        seq![fields[0]].add(obj_insert(fields.drop_first(), k, v))
    }
}

/// Folding a run of parsed fields into an object model, first to last.
pub open spec fn obj_fold(
    acc: Seq<(Seq<char>, JsonVal)>,
    pairs: Seq<(Seq<char>, JsonVal)>,
) -> Seq<(Seq<char>, JsonVal)>
    decreases pairs.len(),
{
    if pairs.len() == 0 {
        acc
    } else {
        obj_fold(obj_insert(acc, pairs[0].0, pairs[0].1), pairs.drop_first())
    }
}

/// A value at `i`: the variant is picked by the first character.
pub open spec fn sp_value(s: Seq<char>, i: int) -> Option<(JsonVal, int)>
    decreases s.len() - i, 1int,
{
    if !(0 <= i && i < s.len()) {
        None
    } else if s[i] == '"' {
        match sp_string(s, i) {
            Some((cs, j)) => Some((JsonVal::Str(cs), j)),
            None => None,
        }
    } else if s[i] == '[' {
        sp_array(s, i)
    } else if s[i] == '{' {
        sp_object(s, i)
    } else if s[i] == 't' {
        if has_lit(s, i, seq!['t', 'r', 'u', 'e']) {
            Some((JsonVal::Bool(true), i + 4))
        } else {
            None
        }
    } else if s[i] == 'f' {
        if has_lit(s, i, seq!['f', 'a', 'l', 's', 'e']) {
            Some((JsonVal::Bool(false), i + 5))
        } else {
            None
        }
    } else if s[i] == 'n' {
        if has_lit(s, i, seq!['n', 'u', 'l', 'l']) {
            Some((JsonVal::Null, i + 4))
        } else {
            None
        }
    } else if s[i] == '-' || is_digit(s[i]) {
        sp_number(s, i)
    } else {
        None
    }
}

/// An array at `i`: `[`, elements separated by `,`, then `]`. A trailing
/// comma fails.
pub open spec fn sp_array(s: Seq<char>, i: int) -> Option<(JsonVal, int)>
    decreases s.len() - i, 0int,
{
    if !(0 <= i && i < s.len() && s[i] == '[') {
        None
    } else {
        let j = skip_ws(s, i + 1);
        if j < s.len() && s[j] == ']' {
            Some((JsonVal::Arr(Seq::empty()), j + 1))
        } else {
            match sp_arr_items(s, i + 1) {
                Some((items, k)) => Some((JsonVal::Arr(items), k)),
                None => None,
            }
        }
    }
}

/// One or more array elements from `i`, each followed by `,` or by the
/// closing `]`.
pub open spec fn sp_arr_items(s: Seq<char>, i: int) -> Option<(Seq<JsonVal>, int)>
    decreases s.len() - i, 3int,
{
    match sp_element(s, i) {
        None => None,
        Some((v, j)) => {
            if !(i < j && j < s.len()) {
                None
            } else if s[j] == ',' {
                match sp_arr_items(s, j + 1) {
                    Some((vs, k)) => Some((seq![v].add(vs), k)),
                    None => None,
                }
            } else if s[j] == ']' {
                Some((seq![v], j + 1))
            } else {
                None
            }
        },
    }
}

/// An object at `i`: `{`, fields separated by `,`, then `}`. A key that is
/// no string literal, a missing value, or a trailing comma fails.
pub open spec fn sp_object(s: Seq<char>, i: int) -> Option<(JsonVal, int)>
    decreases s.len() - i, 0int,
{
    if !(0 <= i && i < s.len() && s[i] == '{') {
        None
    } else {
        let j = skip_ws(s, i + 1);
        if j < s.len() && s[j] == '}' {
            Some((JsonVal::Obj(Seq::empty()), j + 1))
        } else {
            match sp_obj_items(s, i + 1) {
                Some((pairs, k)) => Some((JsonVal::Obj(obj_fold(Seq::empty(), pairs)), k)),
                None => None,
            }
        }
    }
}

/// One or more `key : element` fields from `i`, each followed by `,` or by
/// the closing `}`. The fields are returned in textual order, duplicates
/// and all; `sp_object` folds them.
pub open spec fn sp_obj_items(s: Seq<char>, i: int) -> Option<(Seq<(Seq<char>, JsonVal)>, int)>
    decreases s.len() - i, 3int,
{
    let j = skip_ws(s, i);
    if !(i <= j && j <= s.len()) {
        None
    } else {
        match sp_string(s, j) {
            None => None,
            Some((key, k)) => {
                let m = skip_ws(s, k);
                if !(j < k && k <= m && m < s.len()) {
                    None
                } else if s[m] == ':' {
                    match sp_element(s, m + 1) {
                        None => None,
                        Some((v, n)) => {
                            if !(m + 1 <= n && n < s.len()) {
                                None
                            } else if s[n] == ',' {
                                match sp_obj_items(s, n + 1) {
                                    Some((pairs, e)) => Some((seq![(key, v)].add(pairs), e)),
                                    None => None,
                                }
                            } else if s[n] == '}' {
                                Some((seq![(key, v)], n + 1))
                            } else {
                                None
                            }
                        },
                    }
                } else {
                    None
                }
            },
        }
    }
}

/// An element at `i`: a value with whitespace skipped on both sides.
pub open spec fn sp_element(s: Seq<char>, i: int) -> Option<(JsonVal, int)>
    decreases s.len() - i, 2int,
{
    let j = skip_ws(s, i);
    if !(i <= j && j <= s.len()) {
        None
    } else {
        match sp_value(s, j) {
            Some((v, k)) => Some((v, skip_ws(s, k))),
            None => None,
        }
    }
}

/// Whether the character at `k` (known in bounds) is whitespace.
fn p_is_ws(s: &str, k: usize) -> (r: bool)
    requires
        k < s@.len(),
    ensures
        r == is_ws(s@[k as int]),
{
    let c = s.get_char(k);
    c == ' ' || c == '\t' || c == '\n' || c == '\r'
}

/// Whether the character at `k` (known in bounds) is a decimal digit.
fn p_is_digit(s: &str, k: usize) -> (r: bool)
    requires
        k < s@.len(),
    ensures
        r == is_digit(s@[k as int]),
{
    let c = s.get_char(k);
    '0' <= c && c <= '9'
}

/// The first position at or after `i` without whitespace.
fn p_skip_ws(s: &str, len: usize, i: usize) -> (r: usize)
    requires
        len == s@.len(),
        i <= len,
    ensures
        r == skip_ws(s@, i as int),
        i <= r <= len,
{
    let mut cur = i;
    while cur < len && p_is_ws_at(s, len, cur)
        invariant
            len == s@.len(),
            i <= cur <= len,
            skip_ws(s@, i as int) == skip_ws(s@, cur as int),
        decreases len - cur,
    {
        cur += 1;
    }
    cur
}

/// `p_is_ws` behind a bounds test, for use in a loop condition.
fn p_is_ws_at(s: &str, len: usize, k: usize) -> (r: bool)
    requires
        len == s@.len(),
        k < len,
    ensures
        r == is_ws(s@[k as int]),
{
    p_is_ws(s, k)
}

/// The first position at or after `i` without a digit.
fn p_digits_end(s: &str, len: usize, i: usize) -> (r: usize)
    requires
        len == s@.len(),
        i <= len,
    ensures
        r == digits_end(s@, i as int),
        i <= r <= len,
{
    let mut cur = i;
    while cur < len && p_is_digit_at(s, len, cur)
        invariant
            len == s@.len(),
            i <= cur <= len,
            digits_end(s@, i as int) == digits_end(s@, cur as int),
        decreases len - cur,
    {
        cur += 1;
    }
    cur
}

/// `p_is_digit` behind a bounds test, for use in a loop condition.
fn p_is_digit_at(s: &str, len: usize, k: usize) -> (r: bool)
    requires
        len == s@.len(),
        k < len,
    ensures
        r == is_digit(s@[k as int]),
{
    p_is_digit(s, k)
}

/// The value of a hexadecimal digit character.
fn p_hex_val(s: &str, k: usize) -> (r: Option<u32>)
    requires
        k < s@.len(),
    ensures
        r is Some <==> is_hex(s@[k as int]),
        r matches Some(v) ==> v == hex_val(s@[k as int]) && v < 16,
{
    let c = s.get_char(k);
    if '0' <= c && c <= '9' {
        Some(c as u32 - '0' as u32)
    } else if 'a' <= c && c <= 'f' {
        Some(c as u32 - 'a' as u32 + 10)
    } else if 'A' <= c && c <= 'F' {
        Some(c as u32 - 'A' as u32 + 10)
    } else {
        None
    }
}

/// A string literal at `i`: the decoded characters and the position after
/// the closing quote, exactly as `sp_string` says.
fn p_string(s: &str, len: usize, i: usize) -> (r: Option<(String, usize)>)
    requires
        len == s@.len(),
        i <= len,
    ensures
        match (r, sp_string(s@, i as int)) {
            (Some((cs, j)), Some((scs, sj))) => cs@ == scs && j == sj && i < j <= len,
            (None, None) => true,
            _ => false,
        },
{
    if i >= len || s.get_char(i) != '"' {
        return None;
    }
    let mut acc = String::new();
    let mut cur = i + 1;
    loop
        invariant
            len == s@.len(),
            i < cur <= len,
            i < len && s@[i as int] == '"',
            sp_string(s@, i as int) == (match sp_string_body(s@, cur as int) {
                Some((cs, j)) => Some((acc@ + cs, j)),
                None => None::<(Seq<char>, int)>,
            }),
        decreases len - cur,
    {
        if cur >= len {
            return None;
        }
        let c = s.get_char(cur);
        if c == '"' {
            proof {
                assert(sp_string_body(s@, cur as int) == Some(
                    (Seq::<char>::empty(), cur + 1 as int),
                ));
                assert(acc@ + Seq::<char>::empty() =~= acc@);
            }
            return Some((acc, cur + 1));
        } else if c == '\\' {
            if cur + 1 >= len {
                return None;
            }
            let e = s.get_char(cur + 1);
            if e == 'u' {
                if len - cur < 6 {
                    return None;
                }
                let h0 = p_hex_val(s, cur + 2);
                let h1 = p_hex_val(s, cur + 3);
                let h2 = p_hex_val(s, cur + 4);
                let h3 = p_hex_val(s, cur + 5);
                match (h0, h1, h2, h3) {
                    (Some(v0), Some(v1), Some(v2), Some(v3)) => {
                        let code: u32 = v0 * 0x1000 + v1 * 0x100 + v2 * 0x10 + v3;
                        assert(code == hex4_val(s@, cur + 2 as int));
                        match char::from_u32(code) {
                            Some(c2) => {
                                proof {
                                    vstd::utf8::char_u32_cast(c2, code);
                                    step_body(s@, acc@, cur as int, seq![c2], cur + 6 as int);
                                }
                                push_char(&mut acc, c2);
                                cur += 6;
                            },
                            None => {
                                return None;
                            },
                        }
                    },
                    _ => {
                        return None;
                    },
                }
            } else {
                let dec: char = if e == '"' {
                    '"'
                } else if e == '\\' {
                    '\\'
                } else if e == '/' {
                    '/'
                } else if e == 'b' {
                    '\u{8}'
                } else if e == 'f' {
                    '\u{c}'
                } else if e == 'n' {
                    '\n'
                } else if e == 'r' {
                    '\r'
                } else if e == 't' {
                    '\t'
                } else {
                    return None;
                };
                proof {
                    step_body(s@, acc@, cur as int, seq![dec], cur + 2 as int);
                }
                push_char(&mut acc, dec);
                cur += 2;
            }
        } else {
            proof {
                step_body(s@, acc@, cur as int, seq![c], cur + 1 as int);
            }
            push_char(&mut acc, c);
            cur += 1;
        }
    }
}

/// One decoding step of the string body: when the body at `cur` is the
/// characters `mid` followed by the body at `next`, the accumulated prefix
/// moves across `mid`.
proof fn step_body(s: Seq<char>, acc: Seq<char>, cur: int, mid: Seq<char>, next: int)
    requires
        sp_string_body(s, cur) == (match sp_string_body(s, next) {
            Some((cs, j)) => Some((mid + cs, j)),
            None => None::<(Seq<char>, int)>,
        }),
    ensures
        (match sp_string_body(s, cur) {
            Some((cs, j)) => Some((acc + cs, j)),
            None => None::<(Seq<char>, int)>,
        }) == (match sp_string_body(s, next) {
            Some((cs, j)) => Some(((acc + mid) + cs, j)),
            None => None::<(Seq<char>, int)>,
        }),
{
    match sp_string_body(s, next) {
        Some((cs, j)) => {
            assert(acc + (mid + cs) =~= (acc + mid) + cs);
        },
        None => {},
    }
}

/// One digit extends the value of a run of digits.
pub(crate) proof fn lemma_digits_val_step(s: Seq<char>, start: int, k: int)
    requires
        0 <= start <= k < s.len(),
    ensures
        digits_val(s.subrange(start, k + 1)) == digits_val(s.subrange(start, k)) * 10 + (
        s[k] as u32 - '0' as u32),
{
    assert(s.subrange(start, k + 1).drop_last() =~= s.subrange(start, k));
    assert(s.subrange(start, k + 1).last() == s[k]);
}

/// A number literal at `i`, exactly as `sp_number` says.
fn p_number(s: &str, len: usize, i: usize) -> (r: Option<(Value, usize)>)
    requires
        len == s@.len(),
        i < len,
    ensures
        match (r, sp_number(s@, i as int)) {
            (Some((v, j)), Some((sv, sj))) => v@ == sv && j == sj && i < j <= len,
            (None, None) => true,
            _ => false,
        },
{
    broadcast use lemma_digits_end;

    let neg = s.get_char(i) == '-';
    let start = if neg {
        i + 1
    } else {
        i
    };
    let int_end = p_digits_end(s, len, start);
    if int_end == start {
        return None;
    }
    let has_frac = int_end < len && s.get_char(int_end) == '.';
    let frac_end = if has_frac {
        p_digits_end(s, len, int_end + 1)
    } else {
        int_end
    };
    if has_frac && frac_end == int_end + 1 {
        return None;
    }
    let has_exp = frac_end < len && (s.get_char(frac_end) == 'e' || s.get_char(frac_end) == 'E');
    let exp_start = if has_exp {
        if frac_end + 1 < len && (s.get_char(frac_end + 1) == '+' || s.get_char(frac_end + 1)
            == '-') {
            frac_end + 2
        } else {
            frac_end + 1
        }
    } else {
        frac_end
    };
    let exp_end = p_digits_end(s, len, exp_start);
    if has_exp && exp_end == exp_start {
        return None;
    }
    assert(sp_number_end(s@, i as int) == Some((!has_frac && !has_exp, exp_end as int)));
    if !has_frac && !has_exp {
        // An integer literal: accumulate the digits, tracking whether the
        // magnitude has left the 64-bit signed range.
        let mut acc: u64 = 0;
        let mut over: bool = false;
        let mut k = start;
        while k < int_end
            invariant
                len == s@.len(),
                i <= start <= k <= int_end <= len,
                forall|m: int| start <= m < int_end ==> is_digit(s@[m]),
                !over ==> acc == digits_val(s@.subrange(start as int, k as int)) && acc
                    <= 0x8000_0000_0000_0000u64,
                over ==> digits_val(s@.subrange(start as int, k as int))
                    > 0x8000_0000_0000_0000u64,
            decreases int_end - k,
        {
            let c = s.get_char(k);
            assert(is_digit(s@[k as int]));
            let d: u64 = (c as u32 - '0' as u32) as u64;
            proof {
                lemma_digits_val_step(s@, start as int, k as int);
            }
            let ghost old_val = digits_val(s@.subrange(start as int, k as int));
            let ghost new_val = digits_val(s@.subrange(start as int, k + 1 as int));
            if over {
                proof {
                    assert(new_val == old_val * 10 + d);
                    assert(old_val > 0x8000_0000_0000_0000u64);
                    assert(old_val * 10 > 0x8000_0000_0000_0000u64 * 10) by (nonlinear_arith)
                        requires
                            old_val > 0x8000_0000_0000_0000u64,
                    ;
                }
                k += 1;
            } else if acc > (0x8000_0000_0000_0000u64 - d) / 10 {
                proof {
                    let b: int = 0x8000_0000_0000_0000;
                    assert(new_val == old_val * 10 + d);
                    assert(acc * 10 + d > b) by (nonlinear_arith)
                        requires
                            acc > (b - d) / 10,
                            0 <= d <= 9,
                            b == 0x8000_0000_0000_0000,
                            acc >= 0,
                    ;
                }
                over = true;
                k += 1;
            } else {
                proof {
                    let b: int = 0x8000_0000_0000_0000;
                    assert(acc * 10 + d <= b) by (nonlinear_arith)
                        requires
                            acc <= (b - d) / 10,
                            0 <= d <= 9,
                            b == 0x8000_0000_0000_0000,
                            acc >= 0,
                    ;
                }
                acc = acc * 10 + d;
                k += 1;
            }
        }
        let ghost mag = digits_val(s@.subrange(start as int, int_end as int));
        if neg {
            if over {
                assert(-mag < i64::MIN);
                return None;
            } else if acc == 0x8000_0000_0000_0000u64 {
                return Some((Value::Integer(i64::MIN), int_end));
            } else {
                return Some((Value::Integer(-(acc as i64)), int_end));
            }
        } else {
            if over || acc > 0x7FFF_FFFF_FFFF_FFFFu64 {
                assert(mag > i64::MAX);
                return None;
            } else {
                return Some((Value::Integer(acc as i64), int_end));
            }
        }
    } else {
        let text = s.substring_char(i, exp_end);
        let bits = float_bits_from_text(text);
        Some((Value::Float(bits), exp_end))
    }
}

/// Whether the four given characters stand at `i`.
fn p_lit4(s: &str, len: usize, i: usize, c0: char, c1: char, c2: char, c3: char) -> (r: bool)
    requires
        len == s@.len(),
        i <= len,
    ensures
        r == has_lit(s@, i as int, seq![c0, c1, c2, c3]),
{
    if len - i < 4 {
        return false;
    }
    let r = s.get_char(i) == c0 && s.get_char(i + 1) == c1 && s.get_char(i + 2) == c2
        && s.get_char(i + 3) == c3;
    proof {
        if r {
            assert(s@.subrange(i as int, i + 4 as int) =~= seq![c0, c1, c2, c3]);
        } else {
            assert(s@.subrange(i as int, i + 4 as int) != seq![c0, c1, c2, c3]) by {
                if s@.subrange(i as int, i + 4 as int) == seq![c0, c1, c2, c3] {
                    assert(s@.subrange(i as int, i + 4 as int)[0] == s@[i as int]);
                    assert(s@.subrange(i as int, i + 4 as int)[1] == s@[i + 1]);
                    assert(s@.subrange(i as int, i + 4 as int)[2] == s@[i + 2]);
                    assert(s@.subrange(i as int, i + 4 as int)[3] == s@[i + 3]);
                }
            }
        }
    }
    r
}

/// Whether the five given characters stand at `i`.
fn p_lit5(s: &str, len: usize, i: usize, c0: char, c1: char, c2: char, c3: char, c4: char) -> (r:
    bool)
    requires
        len == s@.len(),
        i <= len,
    ensures
        r == has_lit(s@, i as int, seq![c0, c1, c2, c3, c4]),
{
    if len - i < 5 {
        return false;
    }
    let r = s.get_char(i) == c0 && s.get_char(i + 1) == c1 && s.get_char(i + 2) == c2
        && s.get_char(i + 3) == c3 && s.get_char(i + 4) == c4;
    proof {
        if r {
            assert(s@.subrange(i as int, i + 5 as int) =~= seq![c0, c1, c2, c3, c4]);
        } else {
            assert(s@.subrange(i as int, i + 5 as int) != seq![c0, c1, c2, c3, c4]) by {
                if s@.subrange(i as int, i + 5 as int) == seq![c0, c1, c2, c3, c4] {
                    assert(s@.subrange(i as int, i + 5 as int)[0] == s@[i as int]);
                    assert(s@.subrange(i as int, i + 5 as int)[1] == s@[i + 1]);
                    assert(s@.subrange(i as int, i + 5 as int)[2] == s@[i + 2]);
                    assert(s@.subrange(i as int, i + 5 as int)[3] == s@[i + 3]);
                    assert(s@.subrange(i as int, i + 5 as int)[4] == s@[i + 4]);
                }
            }
        }
    }
    r
}

/// `obj_insert` on a seq with the key at `idx`, no earlier occurrence:
/// the entry at `idx` is overwritten in place.
proof fn lemma_obj_insert_found(fs: Seq<(Seq<char>, JsonVal)>, k: Seq<char>, v: JsonVal, idx: int)
    requires
        0 <= idx < fs.len(),
        fs[idx].0 == k,
        forall|m: int| 0 <= m < idx ==> fs[m].0 != k,
    ensures
        obj_insert(fs, k, v) == fs.update(idx, (k, v)),
    decreases idx,
{
    if idx == 0 {
        assert(seq![(k, v)].add(fs.drop_first()) =~= fs.update(0, (k, v)));
    } else {
        lemma_obj_insert_found(fs.drop_first(), k, v, idx - 1);
        assert(seq![fs[0]].add(fs.drop_first().update(idx - 1, (k, v))) =~= fs.update(
            idx,
            (k, v),
        ));
    }
}

/// `obj_insert` on a seq without the key: the field is appended.
proof fn lemma_obj_insert_absent(fs: Seq<(Seq<char>, JsonVal)>, k: Seq<char>, v: JsonVal)
    requires
        forall|m: int| 0 <= m < fs.len() ==> fs[m].0 != k,
    ensures
        obj_insert(fs, k, v) == fs.push((k, v)),
    decreases fs.len(),
{
    if fs.len() == 0 {
        assert(seq![(k, v)] =~= fs.push((k, v)));
    } else {
        lemma_obj_insert_absent(fs.drop_first(), k, v);
        assert(seq![fs[0]].add(fs.drop_first().push((k, v))) =~= fs.push((k, v)));
    }
}

/// Inserts a parsed field into the object being built, as `obj_insert`
/// says: a duplicate key overwrites the first occurrence in place, a new
/// key is appended.
fn p_obj_insert(fields: &mut Vec<(String, Value)>, key: String, val: Value)
    ensures
        obj_view(final(fields)@) == obj_insert(obj_view(old(fields)@), key@, val@),
{
    let ghost kview: Seq<char> = key@;
    let ghost vview: JsonVal = val@;
    let mut idx: usize = 0;
    let n = fields.len();
    while idx < n
        invariant
            n == fields@.len(),
            fields@ == old(fields)@,
            kview == key@,
            vview == val@,
            idx <= n,
            forall|m: int| 0 <= m < idx ==> fields@[m].0@ != key@,
        decreases n - idx,
    {
        if crate::strutil::str_eq(fields[idx].0.as_str(), key.as_str()) {
            let ghost old_fields = fields@;
            fields.remove(idx);
            fields.insert(idx, (key, val));
            proof {
                crate::value::lemma_obj_view(old_fields);
                crate::value::lemma_obj_view(fields@);
                assert(fields@ =~= old_fields.update(idx as int, (
                    fields@[idx as int].0,
                    fields@[idx as int].1,
                )));
                assert(fields@[idx as int].0@ == kview);
                assert(val_view(fields@[idx as int].1) == vview);
                lemma_obj_insert_found(obj_view(old_fields), kview, vview, idx as int);
                assert(obj_view(fields@) =~= obj_view(old_fields).update(idx as int, (
                    kview,
                    vview,
                )));
            }
            return ;
        }
        idx += 1;
    }
    let ghost old_fields = fields@;
    fields.push((key, val));
    proof {
        crate::value::lemma_obj_view(old_fields);
        crate::value::lemma_obj_view(fields@);
        lemma_obj_insert_absent(obj_view(old_fields), kview, vview);
        assert(fields@ =~= old_fields.push((fields@[n as int].0, fields@[n as int].1)));
        assert(obj_view(fields@) =~= obj_view(old_fields).push((kview, vview)));
    }
}

/// A value at `i`, exactly as `sp_value` says.
fn p_value(s: &str, len: usize, i: usize) -> (r: Option<(Value, usize)>)
    requires
        len == s@.len(),
        i <= len,
    ensures
        match (r, sp_value(s@, i as int)) {
            (Some((v, j)), Some((sv, sj))) => v@ == sv && j == sj && i < j <= len,
            (None, None) => true,
            _ => false,
        },
    decreases len - i, 1int,
{
    broadcast use crate::value::lemma_arr_view;

    if i >= len {
        return None;
    }
    let c = s.get_char(i);
    if c == '"' {
        match p_string(s, len, i) {
            Some((cs, j)) => Some((Value::Str(cs), j)),
            None => None,
        }
    } else if c == '[' {
        let j = p_skip_ws(s, len, i + 1);
        if j < len && s.get_char(j) == ']' {
            let empty_vec: Vec<Value> = Vec::new();
            assert(arr_view(empty_vec@) =~= Seq::<JsonVal>::empty());
            return Some((Value::Array(empty_vec), j + 1));
        }
        let mut elems: Vec<Value> = Vec::new();
        let mut cur = i + 1;
        proof {
            if let Some((vs, k)) = sp_arr_items(s@, cur as int) {
                assert(arr_view(elems@) + vs =~= vs);
            }
        }
        loop
            invariant
                len == s@.len(),
                i < cur <= len,
                s@[i as int] == '[',
                sp_value(s@, i as int) == sp_array(s@, i as int),
                sp_array(s@, i as int) == (match sp_arr_items(s@, cur as int) {
                    Some((vs, k)) => Some((JsonVal::Arr(arr_view(elems@) + vs), k)),
                    None => None::<(JsonVal, int)>,
                }),
            decreases len - cur,
        {
            match p_element(s, len, cur) {
                None => {
                    return None;
                },
                Some((v, j)) => {
                    if j >= len {
                        return None;
                    }
                    let sep = s.get_char(j);
                    if sep == ',' {
                        proof {
                            assert(elems@.push(v).drop_last() =~= elems@);
                            assert(elems@.push(v).last() == v);
                            assert(arr_view(elems@.push(v)) =~= arr_view(elems@).push(v@));
                            if let Some((vs, k)) = sp_arr_items(s@, j + 1 as int) {
                                assert(arr_view(elems@) + (seq![v@] + vs) =~= arr_view(
                                    elems@.push(v),
                                ) + vs);
                            }
                        }
                        elems.push(v);
                        cur = j + 1;
                    } else if sep == ']' {
                        proof {
                            assert(elems@.push(v).drop_last() =~= elems@);
                            assert(elems@.push(v).last() == v);
                            assert(arr_view(elems@.push(v)) =~= arr_view(elems@).push(v@));
                            assert(arr_view(elems@) + seq![v@] =~= arr_view(elems@.push(v)));
                        }
                        elems.push(v);
                        return Some((Value::Array(elems), j + 1));
                    } else {
                        return None;
                    }
                },
            }
        }
    } else if c == '{' {
        let j = p_skip_ws(s, len, i + 1);
        if j < len && s.get_char(j) == '}' {
            let empty_fields: Vec<(String, Value)> = Vec::new();
            assert(obj_view(empty_fields@) =~= Seq::<(Seq<char>, JsonVal)>::empty());
            return Some((Value::Object(empty_fields), j + 1));
        }
        let mut fields: Vec<(String, Value)> = Vec::new();
        let mut cur = i + 1;
        assert(obj_view(fields@) == Seq::<(Seq<char>, JsonVal)>::empty());
        loop
            invariant
                len == s@.len(),
                i < cur <= len,
                s@[i as int] == '{',
                sp_value(s@, i as int) == sp_object(s@, i as int),
                sp_object(s@, i as int) == (match sp_obj_items(s@, cur as int) {
                    Some((pairs, k)) => Some(
                        (JsonVal::Obj(obj_fold(obj_view(fields@), pairs)), k),
                    ),
                    None => None::<(JsonVal, int)>,
                }),
            decreases len - cur,
        {
            let j = p_skip_ws(s, len, cur);
            let (key, k) = match p_string(s, len, j) {
                None => {
                    return None;
                },
                Some(kk) => kk,
            };
            let m = p_skip_ws(s, len, k);
            if m >= len {
                return None;
            }
            if s.get_char(m) != ':' {
                return None;
            }
            match p_element(s, len, m + 1) {
                None => {
                    return None;
                },
                Some((v, n)) => {
                    if n >= len {
                        return None;
                    }
                    let sep = s.get_char(n);
                    if sep == ',' {
                        proof {
                            if let Some((pairs, e)) = sp_obj_items(s@, n + 1 as int) {
                                let whole = seq![(key@, v@)].add(pairs);
                                assert(whole.drop_first() =~= pairs);
                                assert(whole[0] == (key@, v@));
                            }
                        }
                        p_obj_insert(&mut fields, key, v);
                        cur = n + 1;
                    } else if sep == '}' {
                        let ghost kv: Seq<char> = key@;
                        let ghost vv: JsonVal = v@;
                        let ghost old_f = fields@;
                        proof {
                            let whole = seq![(kv, vv)];
                            assert(whole.drop_first() =~= Seq::<(Seq<char>, JsonVal)>::empty());
                            assert(whole[0] == (kv, vv));
                        }
                        p_obj_insert(&mut fields, key, v);
                        proof {
                            let whole = seq![(kv, vv)];
                            assert(obj_fold(obj_view(old_f), whole) == obj_fold(
                                obj_insert(obj_view(old_f), kv, vv),
                                whole.drop_first(),
                            ));
                            assert(obj_fold(obj_view(old_f), whole) == obj_view(fields@));
                            assert(sp_object(s@, i as int) == Some(
                                (JsonVal::Obj(obj_view(fields@)), n + 1 as int),
                            ));
                        }
                        return Some((Value::Object(fields), n + 1));
                    } else {
                        return None;
                    }
                },
            }
        }
    } else if c == 't' {
        if p_lit4(s, len, i, 't', 'r', 'u', 'e') {
            Some((Value::Boolean(true), i + 4))
        } else {
            None
        }
    } else if c == 'f' {
        if p_lit5(s, len, i, 'f', 'a', 'l', 's', 'e') {
            Some((Value::Boolean(false), i + 5))
        } else {
            None
        }
    } else if c == 'n' {
        if p_lit4(s, len, i, 'n', 'u', 'l', 'l') {
            Some((Value::Null, i + 4))
        } else {
            None
        }
    } else if c == '-' || ('0' <= c && c <= '9') {
        p_number(s, len, i)
    } else {
        None
    }
}

/// An element at `i`, exactly as `sp_element` says.
fn p_element(s: &str, len: usize, i: usize) -> (r: Option<(Value, usize)>)
    requires
        len == s@.len(),
        i <= len,
    ensures
        match (r, sp_element(s@, i as int)) {
            (Some((v, j)), Some((sv, sj))) => v@ == sv && j == sj && i < j <= len,
            (None, None) => true,
            _ => false,
        },
    decreases len - i, 2int,
{
    let j = p_skip_ws(s, len, i);
    match p_value(s, len, j) {
        Some((v, k)) => {
            let e = p_skip_ws(s, len, k);
            Some((v, e))
        },
        None => None,
    }
}

/// A whole JSON text: one element with nothing after it.
pub open spec fn sp_parse(s: Seq<char>) -> Option<JsonVal> {
    match sp_element(s, 0) {
        Some((v, j)) => if j == s.len() {
            Some(v)
        } else {
            None
        },
        None => None,
    }
}

/// A `true` or `false` literal at `i`.
pub open spec fn sp_bool(s: Seq<char>, i: int) -> Option<(bool, int)> {
    if has_lit(s, i, seq!['t', 'r', 'u', 'e']) {
        Some((true, i + 4))
    } else if has_lit(s, i, seq!['f', 'a', 'l', 's', 'e']) {
        Some((false, i + 5))
    } else {
        None
    }
}

/// A `null` literal at `i`.
pub open spec fn sp_null(s: Seq<char>, i: int) -> Option<int> {
    if has_lit(s, i, seq!['n', 'u', 'l', 'l']) {
        Some(i + 4)
    } else {
        None
    }
}

/// Parses a string literal at the head of the input: the decoded text and
/// the unconsumed suffix, exactly as `sp_string` says.
pub fn parse_string(s: &str) -> (r: Option<(String, &str)>)
    ensures
        match (r, sp_string(s@, 0)) {
            (Some((cs, rest)), Some((scs, j))) => cs@ == scs && rest@ == s@.subrange(
                j,
                s@.len() as int,
            ),
            (None, None) => true,
            _ => false,
        },
{
    let len = s.unicode_len();
    match p_string(s, len, 0) {
        Some((cs, j)) => Some((cs, s.substring_char(j, len))),
        None => None,
    }
}

/// Parses a `true` or `false` literal at the head of the input, exactly as
/// `sp_bool` says.
pub fn parse_bool(s: &str) -> (r: Option<(bool, &str)>)
    ensures
        match (r, sp_bool(s@, 0)) {
            (Some((b, rest)), Some((sb, j))) => b == sb && rest@ == s@.subrange(
                j,
                s@.len() as int,
            ),
            (None, None) => true,
            _ => false,
        },
{
    let len = s.unicode_len();
    if p_lit4(s, len, 0, 't', 'r', 'u', 'e') {
        Some((true, s.substring_char(4, len)))
    } else if p_lit5(s, len, 0, 'f', 'a', 'l', 's', 'e') {
        Some((false, s.substring_char(5, len)))
    } else {
        None
    }
}

/// Parses a `null` literal at the head of the input, exactly as `sp_null`
/// says.
pub fn parse_null(s: &str) -> (r: Option<((), &str)>)
    ensures
        match (r, sp_null(s@, 0)) {
            (Some((_, rest)), Some(j)) => rest@ == s@.subrange(j, s@.len() as int),
            (None, None) => true,
            _ => false,
        },
{
    let len = s.unicode_len();
    if p_lit4(s, len, 0, 'n', 'u', 'l', 'l') {
        Some(((), s.substring_char(4, len)))
    } else {
        None
    }
}

/// Parses a number literal at the head of the input, exactly as
/// `sp_number` says: an `Integer` without fraction and exponent, a `Float`
/// with either.
pub fn parse_int_or_float(s: &str) -> (r: Option<(Value, &str)>)
    ensures
        match (r, sp_number(s@, 0)) {
            (Some((v, rest)), Some((sv, j))) => v@ == sv && rest@ == s@.subrange(
                j,
                s@.len() as int,
            ),
            (None, None) => true,
            _ => false,
        },
{
    let len = s.unicode_len();
    if len == 0 {
        return None;
    }
    match p_number(s, len, 0) {
        Some((v, j)) => Some((v, s.substring_char(j, len))),
        None => None,
    }
}

/// Parses one whitespace-wrapped value at the head of the input, exactly
/// as `sp_element` says.
pub fn parse_element(s: &str) -> (r: Option<(Value, &str)>)
    ensures
        match (r, sp_element(s@, 0)) {
            (Some((v, rest)), Some((sv, j))) => v@ == sv && rest@ == s@.subrange(
                j,
                s@.len() as int,
            ),
            (None, None) => true,
            _ => false,
        },
{
    let len = s.unicode_len();
    match p_element(s, len, 0) {
        Some((v, j)) => Some((v, s.substring_char(j, len))),
        None => None,
    }
}

/// Parses an object at the head of the input, exactly as `sp_object`
/// says. The result is always an `Object` value.
pub fn parse_object(s: &str) -> (r: Option<(Value, &str)>)
    ensures
        match (r, sp_object(s@, 0)) {
            (Some((v, rest)), Some((sv, j))) => v@ == sv && rest@ == s@.subrange(
                j,
                s@.len() as int,
            ),
            (None, None) => true,
            _ => false,
        },
{
    let len = s.unicode_len();
    if len == 0 || s.get_char(0) != '{' {
        return None;
    }
    match p_value(s, len, 0) {
        Some((v, j)) => Some((v, s.substring_char(j, len))),
        None => None,
    }
}

impl Value {
    /// Parses a whole JSON text: one element with nothing left over,
    /// exactly as `sp_parse` says.
    pub fn parse(s: &str) -> (r: Option<Value>)
        ensures
            match (r, sp_parse(s@)) {
                (Some(v), Some(sv)) => v@ == sv,
                (None, None) => true,
                _ => false,
            },
    {
        let len = s.unicode_len();
        match p_element(s, len, 0) {
            Some((v, j)) => if j == len {
                Some(v)
            } else {
                None
            },
            None => None,
        }
    }
}

} // verus!
