//! The conversion protocol: a bidirectional mapping between `Value` and
//! typed program data. Decoding demands an exact kind match — an integer
//! target rejects a float source even when its fraction is zero — and, for
//! aggregates, an exact shape match. Encoding never fails.

use vstd::prelude::*;

use crate::parse::obj_insert;
use crate::value::{JsonVal, Value, arr_view, obj_view, val_view, obj_get};

verus! {

broadcast use vstd::std_specs::vec::group_vec_axioms, vstd::seq::group_seq_axioms;

/// The encode direction: typed data to `Value`.
pub trait ToJSON: Sized {
    /// The JSON model that this value encodes to.
    spec fn enc(&self) -> JsonVal;

    /// Encodes the value. Encoding never fails: the result is always the
    /// value whose model `enc` names.
    fn to_json(self) -> (r: Option<Value>)
        ensures
            r matches Some(w) && w@ == self.enc(),
    ;
}

/// The decode direction: `Value` to typed data. Success is owed exactly on
/// the models `accepts` names, and the decoded value re-encodes to the
/// canonical form of the input, so decoding an encoded value gives the
/// original back, up to the encoding.
pub trait FromJSON: ToJSON {
    /// The set of JSON models this type decodes from.
    spec fn accepts(v: JsonVal) -> bool;

    /// The canonical encoding of an accepted model: what re-encoding the
    /// decoded value yields. On an encoded value it is the identity, as
    /// `enc_canon` states.
    spec fn canon(v: JsonVal) -> JsonVal;

    /// Decodes a value: succeeds if and only if the model is accepted, and
    /// the result re-encodes to the canonical form of the input.
    fn from_json(v: Value) -> (r: Option<Self>)
        ensures
            r is Some <==> Self::accepts(v@),
            r matches Some(y) ==> y.enc() == Self::canon(v@),
    ;

    /// Law: every encoded value is accepted back and is its own canonical
    /// form — decode after encode yields a value with the original's
    /// encoding.
    proof fn enc_canon(x: &Self)
        ensures
            Self::accepts(x.enc()),
            Self::canon(x.enc()) == x.enc(),
    ;
}

impl ToJSON for i64 {
    open spec fn enc(&self) -> JsonVal {
        JsonVal::Int(*self as int)
    }

    fn to_json(self) -> (r: Option<Value>) {
        Some(Value::Integer(self))
    }
}

impl FromJSON for i64 {
    open spec fn accepts(v: JsonVal) -> bool {
        v is Int
    }

    open spec fn canon(v: JsonVal) -> JsonVal {
        v
    }

    fn from_json(v: Value) -> (r: Option<Self>) {
        match v {
            Value::Integer(i) => Some(i),
            _ => None,
        }
    }

    proof fn enc_canon(x: &Self) {
    }
}

impl ToJSON for i32 {
    open spec fn enc(&self) -> JsonVal {
        JsonVal::Int(*self as int)
    }

    fn to_json(self) -> (r: Option<Value>) {
        Some(Value::Integer(self as i64))
    }
}

impl FromJSON for i32 {
    open spec fn accepts(v: JsonVal) -> bool {
        v matches JsonVal::Int(n) && i32::MIN <= n <= i32::MAX
    }

    open spec fn canon(v: JsonVal) -> JsonVal {
        v
    }

    fn from_json(v: Value) -> (r: Option<Self>) {
        match v {
            Value::Integer(i) => if -0x8000_0000i64 <= i && i <= 0x7FFF_FFFFi64 {
                Some(i as i32)
            } else {
                None
            },
            _ => None,
        }
    }

    proof fn enc_canon(x: &Self) {
    }
}

impl ToJSON for bool {
    open spec fn enc(&self) -> JsonVal {
        JsonVal::Bool(*self)
    }

    fn to_json(self) -> (r: Option<Value>) {
        Some(Value::Boolean(self))
    }
}

impl FromJSON for bool {
    open spec fn accepts(v: JsonVal) -> bool {
        v is Bool
    }

    open spec fn canon(v: JsonVal) -> JsonVal {
        v
    }

    fn from_json(v: Value) -> (r: Option<Self>) {
        match v {
            Value::Boolean(b) => Some(b),
            _ => None,
        }
    }

    proof fn enc_canon(x: &Self) {
    }
}

impl ToJSON for String {
    open spec fn enc(&self) -> JsonVal {
        JsonVal::Str(self@)
    }

    fn to_json(self) -> (r: Option<Value>) {
        Some(Value::Str(self))
    }
}

impl FromJSON for String {
    open spec fn accepts(v: JsonVal) -> bool {
        v is Str
    }

    open spec fn canon(v: JsonVal) -> JsonVal {
        v
    }

    fn from_json(v: Value) -> (r: Option<Self>) {
        match v {
            Value::Str(s) => Some(s),
            _ => None,
        }
    }

    proof fn enc_canon(x: &Self) {
    }
}

/// A binary64 float carried as its bit pattern: the float scalar of the
/// conversion protocol. A float target accepts an integer source as well,
/// widened to the nearest float; an integer target never accepts a float.
#[derive(Debug, Clone, Copy, PartialEq, Eq)]
pub struct Float64(pub u64);

impl ToJSON for Float64 {
    open spec fn enc(&self) -> JsonVal {
        JsonVal::Float(self.0)
    }

    fn to_json(self) -> (r: Option<Value>) {
        Some(Value::Float(self.0))
    }
}

impl FromJSON for Float64 {
    open spec fn accepts(v: JsonVal) -> bool {
        v is Float || v is Int
    }

    open spec fn canon(v: JsonVal) -> JsonVal {
        match v {
            JsonVal::Int(n) => JsonVal::Float(crate::num::float_bits_of_int(n)),
            _ => v,
        }
    }

    fn from_json(v: Value) -> (r: Option<Self>) {
        match v {
            Value::Float(bits) => Some(Float64(bits)),
            Value::Integer(i) => Some(Float64(crate::num::float_bits_from_i64(i))),
            _ => None,
        }
    }

    proof fn enc_canon(x: &Self) {
    }
}

/// The encodings of a sequence of values, elementwise.
pub open spec fn encs<T: ToJSON>(s: Seq<T>) -> Seq<JsonVal> {
    Seq::new(s.len(), |i: int| s[i].enc())
}

impl<T: ToJSON> ToJSON for Vec<T> {
    open spec fn enc(&self) -> JsonVal {
        JsonVal::Arr(encs(self@))
    }

    fn to_json(self) -> (r: Option<Value>) {
        let ghost orig = self@;
        let mut rest = self;
        let mut out: Vec<Value> = Vec::new();
        proof {
            crate::value::lemma_arr_view(out@);
            assert(orig.skip(0) =~= orig);
            assert(arr_view(out@) =~= encs(orig.take(0)));
        }
        while rest.len() > 0
            invariant
                out@.len() + rest@.len() == orig.len(),
                rest@ == orig.skip(out@.len() as int),
                arr_view(out@) == encs(orig.take(out@.len() as int)),
            decreases rest@.len(),
        {
            let ghost k = out@.len() as int;
            let x = rest.remove(0);
            proof {
                assert(orig.skip(k).remove(0) =~= orig.skip(k + 1));
                assert(rest@ =~= orig.skip(k + 1));
                assert(x == orig.skip(k)[0]);
                assert(x == orig[k]);
            }
            match x.to_json() {
                Some(w) => {
                    proof {
                        crate::value::lemma_arr_view(out@.push(w));
                        crate::value::lemma_arr_view(out@);
                        assert(w@ == orig[k].enc());
                        assert(arr_view(out@.push(w)).len() == k + 1);
                        assert(encs(orig.take(k + 1)).len() == k + 1);
                        assert forall|m: int| 0 <= m < k + 1 implies arr_view(out@.push(w))[m]
                            == encs(orig.take(k + 1))[m] by {
                            if m < k {
                                assert(out@.push(w)[m] == out@[m]);
                                assert(arr_view(out@)[m] == encs(orig.take(k))[m]);
                            } else {
                                assert(out@.push(w)[m] == w);
                            }
                        }
                        assert(arr_view(out@.push(w)) =~= encs(orig.take(k + 1)));
                    }
                    out.push(w);
                },
                None => {
                    proof {
                        assert(false);
                    }
                    return None;
                },
            }
        }
        proof {
            assert(orig.take(orig.len() as int) =~= orig);
        }
        Some(Value::Array(out))
    }
}

impl<T: FromJSON> FromJSON for Vec<T> {
    open spec fn accepts(v: JsonVal) -> bool {
        match v {
            JsonVal::Arr(items) => forall|i: int|
                0 <= i < items.len() ==> T::accepts(#[trigger] items[i]),
            _ => false,
        }
    }

    open spec fn canon(v: JsonVal) -> JsonVal {
        match v {
            JsonVal::Arr(items) => JsonVal::Arr(Seq::new(items.len(), |i: int| T::canon(items[i]))),
            _ => v,
        }
    }

    fn from_json(v: Value) -> (r: Option<Self>) {
        match v {
            Value::Array(a) => {
                let ghost items = arr_view(a@);
                proof {
                    crate::value::lemma_arr_view(a@);
                    assert(items.skip(0) =~= items);
                }
                let mut rest = a;
                let mut out: Vec<T> = Vec::new();
                while rest.len() > 0
                    invariant
                        v@ == JsonVal::Arr(items),
                        out@.len() + rest@.len() == items.len(),
                        arr_view(rest@) == items.skip(out@.len() as int),
                        forall|m: int|
                            0 <= m < out@.len() ==> T::accepts(#[trigger] items[m]) && out@[m].enc()
                                == T::canon(items[m]),
                    decreases rest@.len(),
                {
                    let ghost k = out@.len() as int;
                    let ghost rest_old = rest@;
                    let x = rest.remove(0);
                    proof {
                        crate::value::lemma_arr_view(rest_old);
                        crate::value::lemma_arr_view(rest@);
                        assert(x@ == arr_view(rest_old)[0]);
                        assert(arr_view(rest_old) == items.skip(k));
                        assert(x@ == items[k]);
                        assert(rest@ =~= rest_old.remove(0));
                        assert forall|m: int| 0 <= m < rest@.len() implies arr_view(rest@)[m]
                            == items.skip(k + 1)[m] by {
                            assert(rest@[m] == rest_old[m + 1]);
                            assert(arr_view(rest_old)[m + 1] == val_view(rest_old[m + 1]));
                        }
                        assert(arr_view(rest@) =~= items.skip(k + 1));
                    }
                    match T::from_json(x) {
                        Some(y) => {
                            out.push(y);
                        },
                        None => {
                            assert(!T::accepts(items[k]));
                            assert(v@->Arr_0 == items);
                            assert(!<Vec<T> as FromJSON>::accepts(v@));
                            return None;
                        },
                    }
                }
                proof {
                    assert(encs(out@) =~= Seq::new(items.len(), |i: int| T::canon(items[i])));
                }
                Some(out)
            },
            _ => None,
        }
    }

    proof fn enc_canon(x: &Self) {
        assert forall|i: int| 0 <= i < x@.len() implies T::accepts(#[trigger] encs(x@)[i]) by {
            T::enc_canon(&x@[i]);
        }
        assert(Self::canon(Self::enc(x)) == Self::enc(x)) by {
            assert forall|i: int| 0 <= i < x@.len() implies T::canon(#[trigger] encs(x@)[i])
                == encs(x@)[i] by {
                T::enc_canon(&x@[i]);
            }
            assert(Seq::new(encs(x@).len(), |i: int| T::canon(encs(x@)[i])) =~= encs(x@));
        }
    }
}

/// Law: decode after encode is the identity, up to the encoding. What
/// `to_json` yields (a value modelling `x.enc()`) is accepted back by
/// `from_json`, and what `from_json` then yields (a value whose encoding
/// is the canonical form of the input) encodes exactly as the original
/// did.
pub proof fn lemma_decode_encode_identity<T: FromJSON>(x: &T, y: &T)
    requires
        y.enc() == T::canon(x.enc()),
    ensures
        T::accepts(x.enc()),
        y.enc() == x.enc(),
{
    T::enc_canon(x);
}

/// `obj_insert` on a run without the key appends the field.
pub(crate) proof fn lemma_obj_insert_absent_pair(
    fs: Seq<(Seq<char>, JsonVal)>,
    k: Seq<char>,
    v: JsonVal,
)
    requires
        forall|m: int| 0 <= m < fs.len() ==> fs[m].0 != k,
    ensures
        obj_insert(fs, k, v) == fs.push((k, v)),
    decreases fs.len(),
{
    if fs.len() == 0 {
        assert(seq![(k, v)] =~= fs.push((k, v)));
    } else {
        lemma_obj_insert_absent_pair(fs.drop_first(), k, v);
        assert(seq![fs[0]].add(fs.drop_first().push((k, v))) =~= fs.push((k, v)));
    }
}

/// `obj_get` yields the value at the first occurrence of a key.
pub(crate) proof fn lemma_obj_get_found(fs: Seq<(Seq<char>, JsonVal)>, k: Seq<char>, idx: int)
    requires
        0 <= idx < fs.len(),
        fs[idx].0 == k,
        forall|m: int| 0 <= m < idx ==> fs[m].0 != k,
    ensures
        obj_get(fs, k) == Some(fs[idx].1),
    decreases idx,
{
    if idx > 0 {
        assert(fs.drop_first()[idx - 1] == fs[idx]);
        lemma_obj_get_found(fs.drop_first(), k, idx - 1);
    }
}

/// `obj_get` yields nothing when the key is absent.
pub(crate) proof fn lemma_obj_get_absent(fs: Seq<(Seq<char>, JsonVal)>, k: Seq<char>)
    requires
        forall|m: int| 0 <= m < fs.len() ==> fs[m].0 != k,
    ensures
        obj_get(fs, k) is None,
    decreases fs.len(),
{
    if fs.len() > 0 {
        lemma_obj_get_absent(fs.drop_first(), k);
    }
}

/// Removing a field with another key leaves `obj_get` unchanged.
proof fn lemma_obj_get_remove(fs: Seq<(Seq<char>, JsonVal)>, k: Seq<char>, i: int)
    requires
        0 <= i < fs.len(),
        fs[i].0 != k,
    ensures
        obj_get(fs.remove(i), k) == obj_get(fs, k),
    decreases i,
{
    if i == 0 {
        assert(fs.remove(0) =~= fs.drop_first());
    } else {
        assert(fs.remove(i)[0] == fs[0]);
        if fs[0].0 != k {
            assert(fs.remove(i).drop_first() =~= fs.drop_first().remove(i - 1));
            assert(fs.drop_first()[i - 1] == fs[i]);
            lemma_obj_get_remove(fs.drop_first(), k, i - 1);
        } else {
            assert(fs.remove(i).len() > 0);
        }
    }
}

/// Removes the first field named `name` from the object being decoded and
/// hands its value out; lookups of every other key are unchanged.
fn take_field(fields: &mut Vec<(String, Value)>, name: &str) -> (r: Option<Value>)
    ensures
        match r {
            Some(w) => obj_get(obj_view(old(fields)@), name@) == Some(w@) && final(fields)@.len()
                == old(fields)@.len() - 1 && (forall|k: Seq<char>|
                k != name@ ==> #[trigger] obj_get(obj_view(final(fields)@), k) == obj_get(
                    obj_view(old(fields)@),
                    k,
                )),
            None => obj_get(obj_view(old(fields)@), name@) is None && final(fields)@ == old(
                fields,
            )@,
        },
{
    let n = fields.len();
    let mut idx: usize = 0;
    while idx < n
        invariant
            n == fields@.len(),
            fields@ == old(fields)@,
            idx <= n,
            forall|m: int| 0 <= m < idx ==> fields@[m].0@ != name@,
        decreases n - idx,
    {
        if crate::strutil::str_eq(fields[idx].0.as_str(), name) {
            let ghost old_fields = fields@;
            let ghost fsv = obj_view(old_fields);
            let pair = fields.remove(idx);
            proof {
                crate::value::lemma_obj_view(old_fields);
                crate::value::lemma_obj_view(fields@);
                assert(fsv[idx as int].0 == name@);
                assert forall|m: int| 0 <= m < idx implies fsv[m].0 != name@ by {}
                lemma_obj_get_found(fsv, name@, idx as int);
                assert(fsv[idx as int].1 == pair.1@);
                assert(obj_view(fields@) =~= fsv.remove(idx as int));
                assert forall|k: Seq<char>| k != name@ implies #[trigger] obj_get(
                    obj_view(fields@),
                    k,
                ) == obj_get(fsv, k) by {
                    lemma_obj_get_remove(fsv, k, idx as int);
                }
            }
            return Some(pair.1);
        }
        idx += 1;
    }
    proof {
        crate::value::lemma_obj_view(fields@);
        lemma_obj_get_absent(obj_view(fields@), name@);
    }
    None
}

/// A named-field aggregate with a constrained generic field, showing the
/// protocol over structs: decoding demands an `Object` whose key set is
/// exactly `x`, `y`, `z`, each field decoded by its own type; encoding
/// writes the fields in declaration order.
#[derive(Debug, Clone, PartialEq, Eq)]
pub struct JSONable<T: Clone> where T: Copy {
    pub x: T,
    pub y: String,
    pub z: Vec<i32>,
}

/// The same aggregate shape with its bounds written inline, showing that
/// the protocol does not care how the bounds are declared.
#[derive(Debug, Clone, PartialEq, Eq)]
pub struct NoWhere<T: Clone + Copy> {
    pub x: T,
    pub y: String,
    pub z: Vec<i32>,
}

impl<T: ToJSON + Copy + Clone> ToJSON for JSONable<T> {
    open spec fn enc(&self) -> JsonVal {
        JsonVal::Obj(
            seq![
                (seq!['x'], self.x.enc()),
                (seq!['y'], JsonVal::Str(self.y@)),
                (seq!['z'], self.z.enc()),
            ],
        )
    }

    fn to_json(self) -> (r: Option<Value>) {
        let ghost me = self;
        let mut fields: Vec<(String, Value)> = Vec::new();
        let xv = match self.x.to_json() {
            Some(w) => w,
            None => {
                proof {
                    assert(false);
                }
                return None;
            },
        };
        fields.push((String::from_str("x"), xv));
        fields.push((String::from_str("y"), Value::Str(self.y)));
        let zv = match self.z.to_json() {
            Some(w) => w,
            None => {
                proof {
                    assert(false);
                }
                return None;
            },
        };
        fields.push((String::from_str("z"), zv));
        proof {
            reveal_strlit("x");
            reveal_strlit("y");
            reveal_strlit("z");
            crate::value::lemma_obj_view(fields@);
            assert(("x")@ =~= seq!['x']);
            assert(("y")@ =~= seq!['y']);
            assert(("z")@ =~= seq!['z']);
            assert(obj_view(fields@) =~= seq![
                (seq!['x'], me.x.enc()),
                (seq!['y'], JsonVal::Str(me.y@)),
                (seq!['z'], me.z.enc()),
            ]);
        }
        Some(Value::Object(fields))
    }
}

impl<T: FromJSON + Copy + Clone> FromJSON for JSONable<T> {
    open spec fn accepts(v: JsonVal) -> bool {
        match v {
            JsonVal::Obj(fs) => fs.len() == 3 && (match obj_get(fs, seq!['x']) {
                Some(vx) => T::accepts(vx),
                None => false,
            }) && (match obj_get(fs, seq!['y']) {
                Some(vy) => vy is Str,
                None => false,
            }) && (match obj_get(fs, seq!['z']) {
                Some(vz) => <Vec<i32> as FromJSON>::accepts(vz),
                None => false,
            }),
            _ => false,
        }
    }

    open spec fn canon(v: JsonVal) -> JsonVal {
        match v {
            JsonVal::Obj(fs) => {
                let vx = match obj_get(fs, seq!['x']) {
                    Some(w) => w,
                    None => JsonVal::Null,
                };
                let vy = match obj_get(fs, seq!['y']) {
                    Some(w) => w,
                    None => JsonVal::Null,
                };
                let vz = match obj_get(fs, seq!['z']) {
                    Some(w) => w,
                    None => JsonVal::Null,
                };
                JsonVal::Obj(
                    seq![
                        (seq!['x'], T::canon(vx)),
                        (seq!['y'], vy),
                        (seq!['z'], <Vec<i32> as FromJSON>::canon(vz)),
                    ],
                )
            },
            _ => v,
        }
    }

    fn from_json(v: Value) -> (r: Option<Self>) {
        proof {
            reveal_strlit("x");
            reveal_strlit("y");
            reveal_strlit("z");
            assert(("x")@ =~= seq!['x']);
            assert(("y")@ =~= seq!['y']);
            assert(("z")@ =~= seq!['z']);
            assert(seq!['x'] != seq!['y'] && seq!['x'] != seq!['z'] && seq!['y'] != seq!['z'])
                by {
                assert(seq!['x'][0] == 'x' && seq!['y'][0] == 'y' && seq!['z'][0] == 'z');
            }
        }
        let mut fields = match v {
            Value::Object(f) => f,
            _ => {
                return None;
            },
        };
        let ghost fsv = obj_view(fields@);
        proof {
            crate::value::lemma_obj_view(fields@);
            assert(v@->Obj_0 == fsv);
        }
        if fields.len() != 3 {
            return None;
        }
        let vx = match take_field(&mut fields, "x") {
            Some(w) => w,
            None => {
                return None;
            },
        };
        let vy = match take_field(&mut fields, "y") {
            Some(w) => w,
            None => {
                return None;
            },
        };
        let vz = match take_field(&mut fields, "z") {
            Some(w) => w,
            None => {
                return None;
            },
        };
        proof {
            assert(obj_get(fsv, seq!['x']) == Some(vx@));
            assert(obj_get(fsv, seq!['y']) == Some(vy@));
            assert(obj_get(fsv, seq!['z']) == Some(vz@));
        }
        let x = match T::from_json(vx) {
            Some(x) => x,
            None => {
                return None;
            },
        };
        let y = match vy {
            Value::Str(s) => s,
            _ => {
                return None;
            },
        };
        let z = match <Vec<i32> as FromJSON>::from_json(vz) {
            Some(z) => z,
            None => {
                return None;
            },
        };
        let result = JSONable { x, y, z };
        proof {
            assert(result.enc() =~~= Self::canon(v@));
        }
        Some(result)
    }

    proof fn enc_canon(x: &Self) {
        let e = seq![
            (seq!['x'], x.x.enc()),
            (seq!['y'], JsonVal::Str(x.y@)),
            (seq!['z'], x.z.enc()),
        ];
        assert(seq!['x'] != seq!['y'] && seq!['x'] != seq!['z'] && seq!['y'] != seq!['z']) by {
            assert(seq!['x'][0] == 'x' && seq!['y'][0] == 'y' && seq!['z'][0] == 'z');
        }
        let d1 = e.drop_first();
        let d2 = d1.drop_first();
        assert(d1 =~= seq![(seq!['y'], JsonVal::Str(x.y@)), (seq!['z'], x.z.enc())]);
        assert(d2 =~= seq![(seq!['z'], x.z.enc())]);
        assert(obj_get(e, seq!['x']) == Some(x.x.enc()));
        assert(obj_get(e, seq!['y']) == obj_get(d1, seq!['y']));
        assert(obj_get(d1, seq!['y']) == Some(JsonVal::Str(x.y@)));
        assert(obj_get(e, seq!['z']) == obj_get(d1, seq!['z']));
        assert(obj_get(d1, seq!['z']) == obj_get(d2, seq!['z']));
        assert(obj_get(d2, seq!['z']) == Some(x.z.enc()));
        T::enc_canon(&x.x);
        <Vec<i32> as FromJSON>::enc_canon(&x.z);
        assert(Self::canon(Self::enc(x)) =~~= Self::enc(x));
    }
}

impl<T: ToJSON + Copy + Clone> ToJSON for NoWhere<T> {
    open spec fn enc(&self) -> JsonVal {
        JsonVal::Obj(
            seq![
                (seq!['x'], self.x.enc()),
                (seq!['y'], JsonVal::Str(self.y@)),
                (seq!['z'], self.z.enc()),
            ],
        )
    }

    fn to_json(self) -> (r: Option<Value>) {
        let ghost me = self;
        let mut fields: Vec<(String, Value)> = Vec::new();
        let xv = match self.x.to_json() {
            Some(w) => w,
            None => {
                proof {
                    assert(false);
                }
                return None;
            },
        };
        fields.push((String::from_str("x"), xv));
        fields.push((String::from_str("y"), Value::Str(self.y)));
        let zv = match self.z.to_json() {
            Some(w) => w,
            None => {
                proof {
                    assert(false);
                }
                return None;
            },
        };
        fields.push((String::from_str("z"), zv));
        proof {
            reveal_strlit("x");
            reveal_strlit("y");
            reveal_strlit("z");
            crate::value::lemma_obj_view(fields@);
            assert(("x")@ =~= seq!['x']);
            assert(("y")@ =~= seq!['y']);
            assert(("z")@ =~= seq!['z']);
            assert(obj_view(fields@) =~= seq![
                (seq!['x'], me.x.enc()),
                (seq!['y'], JsonVal::Str(me.y@)),
                (seq!['z'], me.z.enc()),
            ]);
        }
        Some(Value::Object(fields))
    }
}

impl<T: FromJSON + Copy + Clone> FromJSON for NoWhere<T> {
    open spec fn accepts(v: JsonVal) -> bool {
        match v {
            JsonVal::Obj(fs) => fs.len() == 3 && (match obj_get(fs, seq!['x']) {
                Some(vx) => T::accepts(vx),
                None => false,
            }) && (match obj_get(fs, seq!['y']) {
                Some(vy) => vy is Str,
                None => false,
            }) && (match obj_get(fs, seq!['z']) {
                Some(vz) => <Vec<i32> as FromJSON>::accepts(vz),
                None => false,
            }),
            _ => false,
        }
    }

    open spec fn canon(v: JsonVal) -> JsonVal {
        match v {
            JsonVal::Obj(fs) => {
                let vx = match obj_get(fs, seq!['x']) {
                    Some(w) => w,
                    None => JsonVal::Null,
                };
                let vy = match obj_get(fs, seq!['y']) {
                    Some(w) => w,
                    None => JsonVal::Null,
                };
                let vz = match obj_get(fs, seq!['z']) {
                    Some(w) => w,
                    None => JsonVal::Null,
                };
                JsonVal::Obj(
                    seq![
                        (seq!['x'], T::canon(vx)),
                        (seq!['y'], vy),
                        (seq!['z'], <Vec<i32> as FromJSON>::canon(vz)),
                    ],
                )
            },
            _ => v,
        }
    }

    fn from_json(v: Value) -> (r: Option<Self>) {
        proof {
            reveal_strlit("x");
            reveal_strlit("y");
            reveal_strlit("z");
            assert(("x")@ =~= seq!['x']);
            assert(("y")@ =~= seq!['y']);
            assert(("z")@ =~= seq!['z']);
            assert(seq!['x'] != seq!['y'] && seq!['x'] != seq!['z'] && seq!['y'] != seq!['z'])
                by {
                assert(seq!['x'][0] == 'x' && seq!['y'][0] == 'y' && seq!['z'][0] == 'z');
            }
        }
        let mut fields = match v {
            Value::Object(f) => f,
            _ => {
                return None;
            },
        };
        let ghost fsv = obj_view(fields@);
        proof {
            crate::value::lemma_obj_view(fields@);
            assert(v@->Obj_0 == fsv);
        }
        if fields.len() != 3 {
            return None;
        }
        let vx = match take_field(&mut fields, "x") {
            Some(w) => w,
            None => {
                return None;
            },
        };
        let vy = match take_field(&mut fields, "y") {
            Some(w) => w,
            None => {
                return None;
            },
        };
        let vz = match take_field(&mut fields, "z") {
            Some(w) => w,
            None => {
                return None;
            },
        };
        proof {
            assert(obj_get(fsv, seq!['x']) == Some(vx@));
            assert(obj_get(fsv, seq!['y']) == Some(vy@));
            assert(obj_get(fsv, seq!['z']) == Some(vz@));
        }
        let x = match T::from_json(vx) {
            Some(x) => x,
            None => {
                return None;
            },
        };
        let y = match vy {
            Value::Str(s) => s,
            _ => {
                return None;
            },
        };
        let z = match <Vec<i32> as FromJSON>::from_json(vz) {
            Some(z) => z,
            None => {
                return None;
            },
        };
        let result = NoWhere { x, y, z };
        proof {
            assert(result.enc() =~~= Self::canon(v@));
        }
        Some(result)
    }

    proof fn enc_canon(x: &Self) {
        let e = seq![
            (seq!['x'], x.x.enc()),
            (seq!['y'], JsonVal::Str(x.y@)),
            (seq!['z'], x.z.enc()),
        ];
        assert(seq!['x'] != seq!['y'] && seq!['x'] != seq!['z'] && seq!['y'] != seq!['z']) by {
            assert(seq!['x'][0] == 'x' && seq!['y'][0] == 'y' && seq!['z'][0] == 'z');
        }
        let d1 = e.drop_first();
        let d2 = d1.drop_first();
        assert(d1 =~= seq![(seq!['y'], JsonVal::Str(x.y@)), (seq!['z'], x.z.enc())]);
        assert(d2 =~= seq![(seq!['z'], x.z.enc())]);
        assert(obj_get(e, seq!['x']) == Some(x.x.enc()));
        assert(obj_get(e, seq!['y']) == obj_get(d1, seq!['y']));
        assert(obj_get(d1, seq!['y']) == Some(JsonVal::Str(x.y@)));
        assert(obj_get(e, seq!['z']) == obj_get(d1, seq!['z']));
        assert(obj_get(d1, seq!['z']) == obj_get(d2, seq!['z']));
        assert(obj_get(d2, seq!['z']) == Some(x.z.enc()));
        T::enc_canon(&x.x);
        <Vec<i32> as FromJSON>::enc_canon(&x.z);
        assert(Self::canon(Self::enc(x)) =~~= Self::enc(x));
    }
}

/// A positional aggregate, recursive through its own element vector,
/// showing the protocol over tuple shapes: decoding demands an `Array` of
/// exactly its arity, each position decoded by its component's type;
/// encoding writes the components in declaration order.
#[derive(Debug, PartialEq, Eq)]
pub struct TupleStruct(pub i32, pub String, pub Vec<TupleStruct>);

/// The encoding of the positional aggregate: its components in order.
pub open spec fn tuple_enc(t: TupleStruct) -> JsonVal
    decreases t, 1int,
{
    JsonVal::Arr(
        seq![
            JsonVal::Int(t.0 as int),
            JsonVal::Str(t.1@),
            JsonVal::Arr(tuple_encs(t.2@)),
        ],
    )
}

/// The encodings of a run of positional aggregates, elementwise.
pub open spec fn tuple_encs(s: Seq<TupleStruct>) -> Seq<JsonVal>
    decreases s, 0int,
{
    if s.len() <= 0 {
        Seq::empty()
    } else {
        tuple_encs(s.drop_last()).push(tuple_enc(s.last()))
    }
}

/// `tuple_encs` maps the elements one for one.
pub broadcast proof fn lemma_tuple_encs(s: Seq<TupleStruct>)
    ensures
        #[trigger] tuple_encs(s).len() == s.len(),
        forall|i: int| 0 <= i < s.len() ==> tuple_encs(s)[i] == tuple_enc(s[i]),
    decreases s.len(),
{
    if s.len() > 0 {
        lemma_tuple_encs(s.drop_last());
    }
}

/// The models the positional aggregate decodes from: arrays of arity
/// three whose components have the right kinds, recursively.
pub open spec fn tuple_accepts(v: JsonVal) -> bool
    decreases v, 1int,
{
    match v {
        JsonVal::Arr(items) => items.len() == 3 && (items[0] matches JsonVal::Int(n)
            && i32::MIN <= n <= i32::MAX) && items[1] is Str && (match items[2] {
            JsonVal::Arr(els) => tuple_accepts_all(els),
            _ => false,
        }),
        _ => false,
    }
}

/// Every model in the run is accepted.
pub open spec fn tuple_accepts_all(s: Seq<JsonVal>) -> bool
    decreases s, 0int,
{
    if s.len() <= 0 {
        true
    } else {
        tuple_accepts_all(s.drop_last()) && tuple_accepts(s.last())
    }
}

/// `tuple_accepts_all` holds exactly when every element is accepted.
pub broadcast proof fn lemma_tuple_accepts_all(s: Seq<JsonVal>)
    ensures
        #[trigger] tuple_accepts_all(s) <==> (forall|i: int|
            0 <= i < s.len() ==> tuple_accepts(#[trigger] s[i])),
    decreases s.len(),
{
    if s.len() > 0 {
        lemma_tuple_accepts_all(s.drop_last());
        assert forall|i: int| 0 <= i < s.len() - 1 implies s.drop_last()[i] == s[i] by {}
        if forall|i: int| 0 <= i < s.len() ==> tuple_accepts(#[trigger] s[i]) {
            assert(tuple_accepts(s.last()));
        }
    }
}

/// Every encoding of the positional aggregate is accepted back.
pub proof fn lemma_tuple_enc_accepts(t: TupleStruct)
    ensures
        tuple_accepts(tuple_enc(t)),
    decreases t, 1int,
{
    lemma_tuple_encs_accepts(t.2@);
    let e = tuple_enc(t);
    assert(e->Arr_0[2]->Arr_0 == tuple_encs(t.2@));
}

/// Every run of encodings is accepted back, elementwise.
pub proof fn lemma_tuple_encs_accepts(s: Seq<TupleStruct>)
    ensures
        tuple_accepts_all(tuple_encs(s)),
    decreases s, 0int,
{
    if s.len() > 0 {
        lemma_tuple_encs_accepts(s.drop_last());
        lemma_tuple_enc_accepts(s.last());
        assert(tuple_encs(s).drop_last() =~= tuple_encs(s.drop_last()));
        assert(tuple_encs(s).last() == tuple_enc(s.last()));
    }
}

/// Decodes a positional aggregate from an array of its arity, exactly as
/// `tuple_accepts` and `tuple_enc` say.
fn decode_tuple(v: Value) -> (r: Option<TupleStruct>)
    ensures
        r is Some <==> tuple_accepts(v@),
        r matches Some(t) ==> tuple_enc(t) == v@,
    decreases v@,
{
    broadcast use crate::value::lemma_arr_view;

    let mut a = match v {
        Value::Array(a) => a,
        _ => {
            return None;
        },
    };
    let ghost items = arr_view(a@);
    proof {
        assert(v@->Arr_0 == items);
    }
    if a.len() != 3 {
        return None;
    }
    let ghost a0 = a@;
    let e0 = a.remove(0);
    let e1 = a.remove(0);
    let e2 = a.remove(0);
    proof {
        assert(e0@ == items[0] && e1@ == items[1] && e2@ == items[2]);
    }
    let n0 = match e0 {
        Value::Integer(i) => i,
        _ => {
            return None;
        },
    };
    if n0 < -0x8000_0000i64 || n0 > 0x7FFF_FFFFi64 {
        return None;
    }
    let s1 = match e1 {
        Value::Str(s) => s,
        _ => {
            return None;
        },
    };
    let mut els_vec = match e2 {
        Value::Array(els) => els,
        _ => {
            return None;
        },
    };
    let ghost els = arr_view(els_vec@);
    let ghost els_orig = els_vec@;
    proof {
        assert(items[2]->Arr_0 == els);
        assert(els.skip(0) =~= els);
    }
    let mut kids: Vec<TupleStruct> = Vec::new();
    while els_vec.len() > 0
        invariant
            v@ == JsonVal::Arr(items),
            items.len() == 3,
            items[2] == JsonVal::Arr(els),
            kids@.len() + els_vec@.len() == els.len(),
            arr_view(els_vec@) == els.skip(kids@.len() as int),
            forall|m: int|
                0 <= m < kids@.len() ==> tuple_accepts(#[trigger] els[m]) && tuple_enc(kids@[m])
                    == els[m],
        decreases els_vec@.len(),
    {
        let ghost k = kids@.len() as int;
        let ghost rest_old = els_vec@;
        let el = els_vec.remove(0);
        proof {
            crate::value::lemma_arr_view(rest_old);
            crate::value::lemma_arr_view(els_vec@);
            assert(el@ == arr_view(rest_old)[0]);
            assert(el@ == els[k]);
            assert forall|m: int| 0 <= m < els_vec@.len() implies arr_view(els_vec@)[m] == els.skip(
                k + 1,
            )[m] by {
                assert(els_vec@[m] == rest_old[m + 1]);
                assert(arr_view(rest_old)[m + 1] == val_view(rest_old[m + 1]));
            }
            assert(arr_view(els_vec@) =~= els.skip(k + 1));
            assert(decreases_to!(v@ => v@->Arr_0));
            assert(decreases_to!(items => items[2]));
            assert(decreases_to!(items[2] => items[2]->Arr_0));
            assert(decreases_to!(els => els[k]));
        }
        match decode_tuple(el) {
            Some(t) => {
                kids.push(t);
            },
            None => {
                assert(!tuple_accepts(els[k]));
                proof {
                    lemma_tuple_accepts_all(els);
                }
                return None;
            },
        }
    }
    let result = TupleStruct(n0 as i32, s1, kids);
    proof {
        lemma_tuple_accepts_all(els);
        lemma_tuple_encs(kids@);
        assert(tuple_encs(kids@) =~= els);
        assert(tuple_enc(result)->Arr_0 =~= items);
        assert(tuple_enc(result) == v@);
    }
    Some(result)
}

/// Encodes a positional aggregate, exactly as `tuple_enc` says.
fn encode_tuple(t: TupleStruct) -> (r: Value)
    ensures
        r@ == tuple_enc(t),
    decreases t,
{
    broadcast use crate::value::lemma_arr_view, lemma_tuple_encs;

    let TupleStruct(n, s, kids) = t;
    let ghost kids_orig = kids@;
    let mut rest = kids;
    let mut kv: Vec<Value> = Vec::new();
    proof {
        assert(kids_orig.skip(0) =~= kids_orig);
        assert(arr_view(kv@) =~= tuple_encs(kids_orig.take(0)));
    }
    while rest.len() > 0
        invariant
            t.2@ == kids_orig,
            kv@.len() + rest@.len() == kids_orig.len(),
            rest@ == kids_orig.skip(kv@.len() as int),
            arr_view(kv@) == tuple_encs(kids_orig.take(kv@.len() as int)),
        decreases rest@.len(),
    {
        let ghost k = kv@.len() as int;
        let kid = rest.remove(0);
        proof {
            assert(kids_orig.skip(k).remove(0) =~= kids_orig.skip(k + 1));
            assert(kid == kids_orig[k]);
            assert(decreases_to!(t => t.2));
            assert(decreases_to!(t.2 => t.2@));
            assert(decreases_to!(kids_orig => kids_orig[k]));
        }
        let w = encode_tuple(kid);
        proof {
            crate::value::lemma_arr_view(kv@);
            crate::value::lemma_arr_view(kv@.push(w));
            lemma_tuple_encs(kids_orig.take(k));
            lemma_tuple_encs(kids_orig.take(k + 1));
            assert(kids_orig.take(k + 1) =~= kids_orig.take(k).push(kid));
            assert(arr_view(kv@.push(w)).len() == k + 1);
            assert(tuple_encs(kids_orig.take(k + 1)).len() == k + 1);
            assert forall|m: int| 0 <= m < k + 1 implies arr_view(kv@.push(w))[m] == tuple_encs(
                kids_orig.take(k + 1),
            )[m] by {
                assert(tuple_encs(kids_orig.take(k + 1))[m] == tuple_enc(kids_orig.take(k + 1)[m]));
                if m < k {
                    assert(kv@.push(w)[m] == kv@[m]);
                    assert(arr_view(kv@)[m] == tuple_encs(kids_orig.take(k))[m]);
                    assert(tuple_encs(kids_orig.take(k))[m] == tuple_enc(kids_orig.take(k)[m]));
                } else {
                    assert(kv@.push(w)[m] == w);
                }
            }
            assert(arr_view(kv@.push(w)) =~= tuple_encs(kids_orig.take(k + 1)));
        }
        kv.push(w);
    }
    proof {
        assert(kids_orig.take(kids_orig.len() as int) =~= kids_orig);
    }
    let mut items: Vec<Value> = Vec::new();
    items.push(Value::Integer(n as i64));
    items.push(Value::Str(s));
    items.push(Value::Array(kv));
    let r = Value::Array(items);
    proof {
        assert(arr_view(items@) =~= seq![
            JsonVal::Int(t.0 as int),
            JsonVal::Str(t.1@),
            JsonVal::Arr(tuple_encs(t.2@)),
        ]);
    }
    r
}

/// Clones a positional aggregate; the copy encodes identically.
fn clone_tuple(t: &TupleStruct) -> (r: TupleStruct)
    ensures
        tuple_enc(r) == tuple_enc(*t),
    decreases *t,
{
    broadcast use lemma_tuple_encs;

    let mut kids: Vec<TupleStruct> = Vec::new();
    let n = t.2.len();
    let mut idx: usize = 0;
    while idx < n
        invariant
            n == t.2@.len(),
            idx <= n,
            kids@.len() == idx,
            forall|m: int| 0 <= m < idx ==> tuple_enc(#[trigger] kids@[m]) == tuple_enc(t.2@[m]),
        decreases n - idx,
    {
        proof {
            assert(decreases_to!(*t => t.2));
            assert(decreases_to!(t.2 => t.2@));
            assert(decreases_to!(t.2@ => t.2@[idx as int]));
        }
        let kid = clone_tuple(&t.2[idx]);
        kids.push(kid);
        idx += 1;
    }
    proof {
        assert(tuple_encs(kids@) =~= tuple_encs(t.2@)) by {
            lemma_tuple_encs_eq(kids@, t.2@);
        }
    }
    TupleStruct(t.0, crate::strutil::clone_string(&t.1), kids)
}

/// Two runs whose elements encode alike encode alike as runs.
proof fn lemma_tuple_encs_eq(a: Seq<TupleStruct>, b: Seq<TupleStruct>)
    requires
        a.len() == b.len(),
        forall|m: int| 0 <= m < a.len() ==> tuple_enc(#[trigger] a[m]) == tuple_enc(b[m]),
    ensures
        tuple_encs(a) == tuple_encs(b),
    decreases a.len(),
{
    if a.len() > 0 {
        lemma_tuple_encs_eq(a.drop_last(), b.drop_last());
        assert(tuple_encs(a) == tuple_encs(a.drop_last()).push(tuple_enc(a.last())));
        assert(tuple_enc(a.last()) == tuple_enc(b.last()));
    }
}

impl Clone for TupleStruct {
    /// The copy encodes identically to the original.
    fn clone(&self) -> (r: Self)
        ensures
            tuple_enc(r) == tuple_enc(*self),
    {
        clone_tuple(self)
    }
}

impl ToJSON for TupleStruct {
    open spec fn enc(&self) -> JsonVal {
        tuple_enc(*self)
    }

    fn to_json(self) -> (r: Option<Value>) {
        Some(encode_tuple(self))
    }
}

impl FromJSON for TupleStruct {
    open spec fn accepts(v: JsonVal) -> bool {
        tuple_accepts(v)
    }

    open spec fn canon(v: JsonVal) -> JsonVal {
        v
    }

    fn from_json(v: Value) -> (r: Option<Self>) {
        decode_tuple(v)
    }

    proof fn enc_canon(x: &Self) {
        lemma_tuple_enc_accepts(*x);
    }
}

} // verus!
