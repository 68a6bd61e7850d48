//! The schema-less structured value model: the universal exchange type of
//! the generic codec, with its mathematical model.
//!
//! Floating-point fields carry their IEEE-754 bit patterns: the codec moves
//! them byte-exactly and never does float arithmetic.

use vstd::prelude::*;
use vstd::utf8::valid_utf8;

verus! {

broadcast use vstd::std_specs::vec::group_vec_axioms;

/// A structured value: what the generic codec produces and consumes.
/// `Text` holds the UTF-8 bytes of the text; `Float` and `Double` the bit
/// patterns of the IEEE-754 values; `Struct` an ordered tag-to-value record;
/// `Absent` the absence-of-value marker a bare struct end decodes to.
#[derive(Debug, PartialEq)]
pub enum Value {
    Int(i64),
    Float(u32),
    Double(u64),
    Text(Vec<u8>),
    Bytes(Vec<u8>),
    List(Vec<Value>),
    Mapping(Vec<(Value, Value)>),
    Struct(Vec<(u8, Value)>),
    Absent,
}

/// The mathematical model of a structured value.
pub enum ValueModel {
    Int(int),
    Float(u32),
    Double(u64),
    Text(Seq<u8>),
    Bytes(Seq<u8>),
    List(Seq<ValueModel>),
    Mapping(Seq<(ValueModel, ValueModel)>),
    Struct(Seq<(u8, ValueModel)>),
    Absent,
}

/// The model of a structured value.
pub open spec fn value_view(v: Value) -> ValueModel
    decreases v,
{
    match v {
        Value::Int(i) => ValueModel::Int(i as int),
        Value::Float(b) => ValueModel::Float(b),
        Value::Double(b) => ValueModel::Double(b),
        Value::Text(t) => ValueModel::Text(t@),
        Value::Bytes(b) => ValueModel::Bytes(b@),
        Value::List(items) => ValueModel::List(values_view(items@)),
        Value::Mapping(pairs) => ValueModel::Mapping(pairs_view(pairs@)),
        Value::Struct(fields) => ValueModel::Struct(fields_view(fields@)),
        Value::Absent => ValueModel::Absent,
    }
}

impl View for Value {
    type V = ValueModel;

    open spec fn view(&self) -> ValueModel {
        value_view(*self)
    }
}

/// True when a model is well-formed for encoding and an exact round trip:
/// text is valid UTF-8 and short enough for its length field, byte arrays
/// and container counts fit their wire integers, struct tags strictly
/// ascend, and map keys are pairwise distinct.
pub open spec fn wf_value(m: ValueModel) -> bool
    decreases m,
{
    match m {
        ValueModel::Int(i) => -0x8000000000000000 <= i < 0x8000000000000000,
        ValueModel::Float(b) => true,
        ValueModel::Double(b) => true,
        ValueModel::Text(s) => s.len() < 0x100000000 && valid_utf8(s),
        ValueModel::Bytes(s) => s.len() <= 0x7fffffff,
        ValueModel::List(items) => items.len() <= 0x7fffffff && (forall|i: int|
            0 <= i < items.len() ==> wf_value(#[trigger] items[i])),
        ValueModel::Mapping(pairs) => {
            &&& pairs.len() <= 0x7fffffff
            &&& forall|i: int|
                0 <= i < pairs.len() ==> wf_value(#[trigger] pairs[i].0) && wf_value(pairs[i].1)
            &&& forall|i: int, j: int|
                0 <= i < j < pairs.len() ==> (#[trigger] pairs[i]).0 != (#[trigger] pairs[j]).0
        },
        ValueModel::Struct(fields) => {
            &&& forall|i: int| 0 <= i < fields.len() ==> wf_value((#[trigger] fields[i]).1)
            &&& forall|i: int, j: int|
                0 <= i < j < fields.len() ==> (#[trigger] fields[i]).0 < (#[trigger] fields[j]).0
            &&& forall|i: int| 0 <= i < fields.len() ==> !((#[trigger] fields[i]).1 is Absent)
        },
        ValueModel::Absent => true,
    }
}


/// The models of a run of values.
pub open spec fn values_view(s: Seq<Value>) -> Seq<ValueModel>
    decreases s,
{
    Seq::new(
        s.len(),
        |i: int|
            if 0 <= i < s.len() {
                value_view(s[i])
            } else {
                ValueModel::Absent
            },
    )
}

/// The models of a run of key-value pairs.
pub open spec fn pairs_view(s: Seq<(Value, Value)>) -> Seq<(ValueModel, ValueModel)>
    decreases s,
{
    Seq::new(
        s.len(),
        |i: int|
            if 0 <= i < s.len() {
                (value_view(s[i].0), value_view(s[i].1))
            } else {
                (ValueModel::Absent, ValueModel::Absent)
            },
    )
}

/// The models of a run of tagged fields.
pub open spec fn fields_view(s: Seq<(u8, Value)>) -> Seq<(u8, ValueModel)>
    decreases s,
{
    Seq::new(
        s.len(),
        |i: int|
            if 0 <= i < s.len() {
                (s[i].0, value_view(s[i].1))
            } else {
                (0u8, ValueModel::Absent)
            },
    )
}


/// True when every struct inside the model lists its fields in strictly
/// ascending tag order: the order the structured-value model fixes, and the
/// canonical order of the wire format. The schema-less encoder admits only
/// such values, so its output is canonical.
///
/// The vacuous length conjuncts keep each container arm in a shape whose
/// definition the solver reliably unfolds at call sites.
pub open spec fn struct_tags_ordered(m: ValueModel) -> bool
    decreases m,
{
    match m {
        ValueModel::Int(i) => true,
        ValueModel::Float(b) => true,
        ValueModel::Double(b) => true,
        ValueModel::Text(s) => true,
        ValueModel::Bytes(s) => true,
        ValueModel::List(items) => items.len() >= 0 && (forall|i: int|
            0 <= i < items.len() ==> struct_tags_ordered(#[trigger] items[i])),
        ValueModel::Mapping(pairs) => {
            &&& pairs.len() >= 0
            &&& forall|i: int|
                0 <= i < pairs.len() ==> struct_tags_ordered(#[trigger] pairs[i].0)
                    && struct_tags_ordered(pairs[i].1)
        },
        ValueModel::Struct(fields) => {
            &&& fields.len() >= 0
            &&& forall|i: int| 0 <= i < fields.len() ==> struct_tags_ordered(
                #[trigger] fields[i].1,
            )
            &&& forall|i: int, j: int|
                0 <= i < j < fields.len() ==> (#[trigger] fields[i]).0 < (#[trigger] fields[j]).0
        },
        ValueModel::Absent => true,
    }
}

/// A deep copy whose model is the same.
#[verifier::loop_isolation(false)]
pub fn deep_copy(v: &Value) -> (r: Value)
    ensures
        r@ == v@,
    decreases *v,
{
    match v {
        Value::Int(i) => Value::Int(*i),
        Value::Float(b) => Value::Float(*b),
        Value::Double(b) => Value::Double(*b),
        Value::Text(t) => Value::Text(vstd::slice::slice_to_vec(t.as_slice())),
        Value::Bytes(b) => Value::Bytes(vstd::slice::slice_to_vec(b.as_slice())),
        Value::List(items) => {
            let n = items.len();
            let mut out: Vec<Value> = Vec::new();
            let mut i: usize = 0;
            while i < n
                invariant
                    i <= n,
                    n == items@.len(),
                    out@.len() == i,
                    forall|j: int| 0 <= j < i ==> value_view(#[trigger] out@[j]) == value_view(
                        items@[j],
                    ),
                decreases n - i,
            {
                let c = deep_copy(&items[i]);
                out.push(c);
                i = i + 1;
            }
            proof {
                assert(value_view(Value::List(out)) matches ValueModel::List(s1));
                assert(value_view(*v) matches ValueModel::List(s2));
                assert(value_view(Value::List(out))->List_0 =~= value_view(*v)->List_0);
            }
            Value::List(out)
        },
        Value::Mapping(pairs) => {
            let n = pairs.len();
            let mut out: Vec<(Value, Value)> = Vec::new();
            let mut i: usize = 0;
            while i < n
                invariant
                    i <= n,
                    n == pairs@.len(),
                    out@.len() == i,
                    forall|j: int|
                        0 <= j < i ==> value_view((#[trigger] out@[j]).0) == value_view(
                            pairs@[j].0,
                        ) && value_view(out@[j].1) == value_view(pairs@[j].1),
                decreases n - i,
            {
                let k = deep_copy(&pairs[i].0);
                let w = deep_copy(&pairs[i].1);
                out.push((k, w));
                i = i + 1;
            }
            proof {
                assert(value_view(Value::Mapping(out))->Mapping_0 =~= value_view(*v)->Mapping_0);
            }
            Value::Mapping(out)
        },
        Value::Struct(fields) => {
            let n = fields.len();
            let mut out: Vec<(u8, Value)> = Vec::new();
            let mut i: usize = 0;
            while i < n
                invariant
                    i <= n,
                    n == fields@.len(),
                    out@.len() == i,
                    forall|j: int|
                        0 <= j < i ==> (#[trigger] out@[j]).0 == fields@[j].0 && value_view(
                            out@[j].1,
                        ) == value_view(fields@[j].1),
                decreases n - i,
            {
                let t = fields[i].0;
                let w = deep_copy(&fields[i].1);
                out.push((t, w));
                i = i + 1;
            }
            proof {
                assert(value_view(Value::Struct(out))->Struct_0 =~= value_view(*v)->Struct_0);
            }
            Value::Struct(out)
        },
        Value::Absent => Value::Absent,
    }
}

/// Deep equality of two values: true exactly when their models are equal.
#[verifier::loop_isolation(false)]
pub fn value_eq(a: &Value, b: &Value) -> (r: bool)
    ensures
        r == (a@ == b@),
    decreases *a,
{
    match (a, b) {
        (Value::Int(x), Value::Int(y)) => *x == *y,
        (Value::Float(x), Value::Float(y)) => *x == *y,
        (Value::Double(x), Value::Double(y)) => *x == *y,
        (Value::Text(x), Value::Text(y)) => {
            let r = compare_bytes(x, y);
            proof {
                if x@ =~= y@ {
                    assert(a@ == b@);
                }
            }
            r
        },
        (Value::Bytes(x), Value::Bytes(y)) => {
            let r = compare_bytes(x, y);
            proof {
                if x@ =~= y@ {
                    assert(a@ == b@);
                }
            }
            r
        },
        (Value::List(x), Value::List(y)) => {
            if x.len() != y.len() {
                proof {
                    assert(values_view(x@).len() != values_view(y@).len());
                }
                return false;
            }
            let n = x.len();
            let mut i: usize = 0;
            while i < n
                invariant
                    i <= n,
                    n == x@.len() == y@.len(),
                    forall|j: int| 0 <= j < i ==> values_view(x@)[j] == values_view(y@)[j],
                decreases n - i,
            {
                if !value_eq(&x[i], &y[i]) {
                    proof {
                        assert(values_view(x@)[i as int] != values_view(y@)[i as int]);
                    }
                    return false;
                }
                i = i + 1;
            }
            proof {
                assert(values_view(x@) =~= values_view(y@));
            }
            true
        },
        (Value::Mapping(x), Value::Mapping(y)) => {
            if x.len() != y.len() {
                proof {
                    assert(pairs_view(x@).len() != pairs_view(y@).len());
                }
                return false;
            }
            let n = x.len();
            let mut i: usize = 0;
            while i < n
                invariant
                    i <= n,
                    n == x@.len() == y@.len(),
                    forall|j: int| 0 <= j < i ==> pairs_view(x@)[j] == pairs_view(y@)[j],
                decreases n - i,
            {
                let ke = value_eq(&x[i].0, &y[i].0);
                let ve = value_eq(&x[i].1, &y[i].1);
                if !ke || !ve {
                    proof {
                        assert(pairs_view(x@)[i as int] != pairs_view(y@)[i as int]);
                    }
                    return false;
                }
                i = i + 1;
            }
            proof {
                assert(pairs_view(x@) =~= pairs_view(y@));
            }
            true
        },
        (Value::Struct(x), Value::Struct(y)) => {
            if x.len() != y.len() {
                proof {
                    assert(fields_view(x@).len() != fields_view(y@).len());
                }
                return false;
            }
            let n = x.len();
            let mut i: usize = 0;
            while i < n
                invariant
                    i <= n,
                    n == x@.len() == y@.len(),
                    forall|j: int| 0 <= j < i ==> fields_view(x@)[j] == fields_view(y@)[j],
                decreases n - i,
            {
                let te = x[i].0 == y[i].0;
                let ve = value_eq(&x[i].1, &y[i].1);
                if !te || !ve {
                    proof {
                        assert(fields_view(x@)[i as int] != fields_view(y@)[i as int]);
                    }
                    return false;
                }
                i = i + 1;
            }
            proof {
                assert(fields_view(x@) =~= fields_view(y@));
            }
            true
        },
        (Value::Absent, Value::Absent) => true,
        _ => {
            proof {
                assert(a@ != b@);
            }
            false
        },
    }
}

/// Byte-sequence equality.
#[verifier::loop_isolation(false)]
pub fn compare_bytes(a: &Vec<u8>, b: &Vec<u8>) -> (r: bool)
    ensures
        r == (a@ == b@),
{
    if a.len() != b.len() {
        return false;
    }
    let n = a.len();
    let mut i: usize = 0;
    while i < n
        invariant
            i <= n,
            n == a@.len() == b@.len(),
            forall|j: int| 0 <= j < i ==> a@[j] == b@[j],
        decreases n - i,
    {
        if a[i] != b[i] {
            return false;
        }
        i = i + 1;
    }
    proof {
        assert(a@ =~= b@);
    }
    true
}

} // verus!
