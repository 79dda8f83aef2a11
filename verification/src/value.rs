//! The tagged union representing a parsed JSON datum, its mathematical
//! model, and its type-testing and narrowing accessors.

use vstd::prelude::*;

verus! {

broadcast use vstd::std_specs::vec::group_vec_axioms, vstd::seq::group_seq_axioms;

/// The mathematical model of a JSON datum. Integers and floats are distinct
/// kinds even when numerically equal; a float is carried as its IEEE-754
/// binary64 bit pattern. Object fields keep their insertion order.
pub enum JsonVal {
    Null,
    Bool(bool),
    Int(int),
    Float(u64),
    Str(Seq<char>),
    Arr(Seq<JsonVal>),
    Obj(Seq<(Seq<char>, JsonVal)>),
}

impl JsonVal {
    /// An object model holds each key at most once.
    pub open spec fn keys_unique(fields: Seq<(Seq<char>, JsonVal)>) -> bool {
        forall|i: int, j: int|
            0 <= i < j < fields.len() ==> fields[i].0 != fields[j].0
    }
}

/// The value of the first field named `k`, if any. Under `keys_unique`
/// there is at most one.
pub open spec fn obj_get(fields: Seq<(Seq<char>, JsonVal)>, k: Seq<char>) -> Option<JsonVal>
    decreases fields.len(),
{
    if fields.len() == 0 {
        None
    } else if fields[0].0 == k {
        Some(fields[0].1)
    } else {
        obj_get(fields.drop_first(), k)
    }
}

/// A parsed JSON datum. `Float` holds the IEEE-754 binary64 bit pattern of
/// the value, so that structural equality is exact bit equality and no
/// floating-point arithmetic takes place inside the library. `Object`
/// holds its fields as a vector of pairs in insertion order, with keys
/// unique.
#[derive(Debug, PartialEq)]
pub enum Value {
    Null,
    Boolean(bool),
    Integer(i64),
    Float(u64),
    Str(String),
    Array(Vec<Value>),
    Object(Vec<(String, Value)>),
}

/// The model of a `Value`.
pub open spec fn val_view(v: Value) -> JsonVal
    decreases v, 1int,
{
    match v {
        Value::Null => JsonVal::Null,
        Value::Boolean(b) => JsonVal::Bool(b),
        Value::Integer(i) => JsonVal::Int(i as int),
        Value::Float(bits) => JsonVal::Float(bits),
        Value::Str(s) => JsonVal::Str(s@),
        Value::Array(a) => JsonVal::Arr(arr_view(a@)),
        Value::Object(fields) => JsonVal::Obj(obj_view(fields@)),
    }
}

/// The model of an array's elements, elementwise.
pub open spec fn arr_view(s: Seq<Value>) -> Seq<JsonVal>
    decreases s, 0int,
{
    if s.len() <= 0 {
        Seq::empty()
    } else {
        arr_view(s.drop_last()).push(val_view(s.last()))
    }
}

/// The model of an object's fields, in order.
pub open spec fn obj_view(s: Seq<(String, Value)>) -> Seq<(Seq<char>, JsonVal)>
    decreases s, 0int,
{
    if s.len() <= 0 {
        Seq::empty()
    } else {
        obj_view(s.drop_last()).push((s.last().0@, val_view(s.last().1)))
    }
}

/// `arr_view` maps the elements one for one.
pub broadcast proof fn lemma_arr_view(s: Seq<Value>)
    ensures
        #[trigger] arr_view(s).len() == s.len(),
        forall|i: int| 0 <= i < s.len() ==> arr_view(s)[i] == val_view(s[i]),
    decreases s.len(),
{
    if s.len() > 0 {
        lemma_arr_view(s.drop_last());
    }
}

/// `obj_view` maps the fields one for one.
pub broadcast proof fn lemma_obj_view(s: Seq<(String, Value)>)
    ensures
        #[trigger] obj_view(s).len() == s.len(),
        forall|i: int|
            0 <= i < s.len() ==> obj_view(s)[i] == (s[i].0@, val_view(s[i].1)),
    decreases s.len(),
{
    if s.len() > 0 {
        lemma_obj_view(s.drop_last());
    }
}

impl View for Value {
    type V = JsonVal;

    open spec fn view(&self) -> JsonVal {
        val_view(*self)
    }
}

impl Value {
    /// True when the variant is `Null`.
    pub fn is_null(&self) -> (r: bool)
        ensures
            r == (self@ is Null),
    {
        matches!(self, Value::Null)
    }

    /// True when the variant is `Boolean`.
    pub fn is_boolean(&self) -> (r: bool)
        ensures
            r == (self@ is Bool),
    {
        matches!(self, Value::Boolean(_))
    }

    /// True when the variant is `Integer`.
    pub fn is_integer(&self) -> (r: bool)
        ensures
            r == (self@ is Int),
    {
        matches!(self, Value::Integer(_))
    }

    /// True when the variant is `Float`.
    pub fn is_float(&self) -> (r: bool)
        ensures
            r == (self@ is Float),
    {
        matches!(self, Value::Float(_))
    }

    /// True when the variant is `Str`.
    pub fn is_string(&self) -> (r: bool)
        ensures
            r == (self@ is Str),
    {
        matches!(self, Value::Str(_))
    }

    /// True when the variant is `Array`.
    pub fn is_array(&self) -> (r: bool)
        ensures
            r == (self@ is Arr),
    {
        matches!(self, Value::Array(_))
    }

    /// True when the variant is `Object`.
    pub fn is_object(&self) -> (r: bool)
        ensures
            r == (self@ is Obj),
    {
        matches!(self, Value::Object(_))
    }

    /// The payload of a `Null`, or nothing when the variant differs.
    pub fn as_null(&self) -> (r: Option<()>)
        ensures
            r is Some <==> self@ is Null,
    {
        match self {
            Value::Null => Some(()),
            _ => None,
        }
    }

    /// A view of the payload of a `Boolean`, or nothing when the variant
    /// differs.
    pub fn as_boolean(&self) -> (r: Option<&bool>)
        ensures
            match r {
                Some(b) => self@ == JsonVal::Bool(*b),
                None => !(self@ is Bool),
            },
    {
        match self {
            Value::Boolean(b) => Some(b),
            _ => None,
        }
    }

    /// A view of the payload of an `Integer`, or nothing when the variant
    /// differs.
    pub fn as_integer(&self) -> (r: Option<&i64>)
        ensures
            match r {
                Some(i) => self@ == JsonVal::Int(*i as int),
                None => !(self@ is Int),
            },
    {
        match self {
            Value::Integer(i) => Some(i),
            _ => None,
        }
    }

    /// A view of the bit pattern held by a `Float`, or nothing when the
    /// variant differs.
    pub fn as_float(&self) -> (r: Option<&u64>)
        ensures
            match r {
                Some(bits) => self@ == JsonVal::Float(*bits),
                None => !(self@ is Float),
            },
    {
        match self {
            Value::Float(bits) => Some(bits),
            _ => None,
        }
    }

    /// A view of the payload of a `Str`, or nothing when the variant
    /// differs.
    pub fn as_string(&self) -> (r: Option<&String>)
        ensures
            match r {
                Some(s) => self@ == JsonVal::Str(s@),
                None => !(self@ is Str),
            },
    {
        match self {
            Value::Str(s) => Some(s),
            _ => None,
        }
    }

    /// A view of the elements of an `Array`, or nothing when the variant
    /// differs.
    pub fn as_array(&self) -> (r: Option<&Vec<Value>>)
        ensures
            match r {
                Some(a) => self@ == JsonVal::Arr(arr_view(a@)),
                None => !(self@ is Arr),
            },
    {
        match self {
            Value::Array(a) => Some(a),
            _ => None,
        }
    }

    /// The element at `idx` of an `Array`, or nothing when the index is
    /// out of range or the variant differs.
    pub fn get_index(&self, idx: usize) -> (r: Option<&Value>)
        ensures
            match r {
                Some(v) => self@ matches JsonVal::Arr(items) && idx < items.len() && items[
                    idx as int
                ] == v@,
                None => !(self@ matches JsonVal::Arr(items) && idx < items.len()),
            },
    {
        match self {
            Value::Array(a) => {
                proof {
                    lemma_arr_view(a@);
                }
                if idx < a.len() {
                    Some(&a[idx])
                } else {
                    None
                }
            },
            _ => None,
        }
    }

    /// The value stored under `key` of an `Object`, or nothing when the
    /// key is absent or the variant differs.
    pub fn get(&self, key: &str) -> (r: Option<&Value>)
        ensures
            match r {
                Some(v) => self@ matches JsonVal::Obj(fs) && obj_get(fs, key@) == Some(v@),
                None => !(self@ matches JsonVal::Obj(fs) && obj_get(fs, key@) is Some),
            },
    {
        match self {
            Value::Object(fields) => {
                let ghost fsv = obj_view(fields@);
                proof {
                    lemma_obj_view(fields@);
                    assert(self@->Obj_0 == fsv);
                }
                let n = fields.len();
                let mut idx: usize = 0;
                while idx < n
                    invariant
                        self@ == JsonVal::Obj(fsv),
                        n == fields@.len(),
                        fsv == obj_view(fields@),
                        fsv.len() == n,
                        forall|m: int|
                            0 <= m < n ==> fsv[m] == (fields@[m].0@, val_view(fields@[m].1)),
                        idx <= n,
                        forall|m: int| 0 <= m < idx ==> fields@[m].0@ != key@,
                    decreases n - idx,
                {
                    if crate::strutil::str_eq(fields[idx].0.as_str(), key) {
                        proof {
                            crate::convert::lemma_obj_get_found(fsv, key@, idx as int);
                        }
                        return Some(&fields[idx].1);
                    }
                    idx += 1;
                }
                proof {
                    crate::convert::lemma_obj_get_absent(fsv, key@);
                }
                None
            },
            _ => None,
        }
    }

    /// A view of the fields of an `Object`, or nothing when the variant
    /// differs.
    pub fn as_object(&self) -> (r: Option<&Vec<(String, Value)>>)
        ensures
            match r {
                Some(fields) => self@ == JsonVal::Obj(obj_view(fields@)),
                None => !(self@ is Obj),
            },
    {
        match self {
            Value::Object(fields) => Some(fields),
            _ => None,
        }
    }
}

} // verus!
