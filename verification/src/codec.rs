//! The generic codec: encodes a structured value without a schema by
//! classifying it into its wire kind, and decodes wire data purely by its
//! type codes, applying the bytes-content heuristic to opaque byte arrays.

use vstd::prelude::*;
use vstd::utf8::valid_utf8;
use crate::endian::Endianness;
use crate::error::Error;
use crate::reader::JceReader;
use crate::scanner::JceScanner;
use crate::types::JceType;
use crate::utf8::{check_safe_text, safe_text};
use crate::value::{Value, ValueModel, fields_view, pairs_view, struct_tags_ordered, value_eq, value_view, values_view};
use crate::wire::{
    MAX_DEPTH, ErrModel, bytes_enc, double_enc, float_enc, head_bytes, head_err, int_enc,
    matches_err, parse_int, parse_size, parse_string, spec_head, string_enc, validate_rest,
};
use crate::nums::num_val;
use crate::writer::JceWriter;

verus! {

broadcast use vstd::std_specs::vec::group_vec_axioms;

/// How an opaque byte array is interpreted during generic decode: kept raw,
/// tried as UTF-8 text, or (the default) tried as text, then as a nested
/// struct, then kept raw.
#[derive(Debug, Clone, Copy, PartialEq, Eq, Structural)]
pub enum BytesMode {
    Raw,
    Text,
    Auto,
}

impl BytesMode {
    /// The mode selected by a numeric policy value: 1 tries text, 2 the full
    /// heuristic, anything else keeps bytes raw.
    pub fn from_code(v: u8) -> (r: Self)
        ensures
            v == 1 ==> r is Text,
            v == 2 ==> r is Auto,
            v != 1 && v != 2 ==> r is Raw,
    {
        match v {
            1 => BytesMode::Text,
            2 => BytesMode::Auto,
            _ => BytesMode::Raw,
        }
    }
}

/// The bytes a value encodes to as one field under `tag`, or the encode
/// error: an over-deep value, a value no wire kind fits, or an over-long
/// text or byte array.
pub open spec fn enc_field(m: ValueModel, tag: u8, le: bool, depth: nat) -> Result<
    Seq<u8>,
    ErrModel,
>
    decreases m, 1int,
{
    if depth > MAX_DEPTH {
        Err(ErrModel::TooDeep)
    } else {
        match m {
            ValueModel::Int(i) => Ok(int_enc(tag, i, le)),
            ValueModel::Float(b) => Ok(float_enc(tag, b, le)),
            ValueModel::Double(b) => Ok(double_enc(tag, b, le)),
            ValueModel::Text(s) => {
                if s.len() < 0x100000000 {
                    Ok(string_enc(tag, s, le))
                } else {
                    Err(ErrModel::Ctx(0))
                }
            },
            ValueModel::Bytes(s) => {
                if s.len() <= 0x7fffffffffffffff {
                    Ok(bytes_enc(tag, s, le))
                } else {
                    Err(ErrModel::Ctx(0))
                }
            },
            ValueModel::List(items) => {
                if items.len() > 0x7fffffffffffffff {
                    Err(ErrModel::Ctx(0))
                } else {
                    match enc_elems(items, le, depth) {
                        Err(m2) => Err(m2),
                        Ok(parts) => Ok(
                            head_bytes(tag, 9) + int_enc(0, items.len() as int, le) + parts,
                        ),
                    }
                }
            },
            ValueModel::Mapping(pairs) => {
                if pairs.len() > 0x7fffffffffffffff {
                    Err(ErrModel::Ctx(0))
                } else {
                    match enc_pairs(pairs, le, depth) {
                        Err(m2) => Err(m2),
                        Ok(parts) => Ok(
                            head_bytes(tag, 8) + int_enc(0, pairs.len() as int, le) + parts,
                        ),
                    }
                }
            },
            ValueModel::Struct(fields) => match enc_struct_body(fields, le, (depth + 1) as nat) {
                Err(m2) => Err(m2),
                Ok(body) => Ok(head_bytes(tag, 10) + body + head_bytes(0, 11)),
            },
            ValueModel::Absent => Err(ErrModel::Ctx(0)),
        }
    }
}

/// The bytes of a run of list elements, each under tag 0, one nesting level
/// below `depth`.
pub open spec fn enc_elems(s: Seq<ValueModel>, le: bool, depth: nat) -> Result<Seq<u8>, ErrModel>
    decreases s, 0int,
{
    if s.len() == 0 {
        Ok(Seq::empty())
    } else {
        match enc_field(s[0], 0, le, (depth + 1) as nat) {
            Err(m) => Err(m),
            Ok(b) => match enc_elems(s.skip(1), le, depth) {
                Err(m) => Err(m),
                Ok(rest) => Ok(b + rest),
            },
        }
    }
}

/// The bytes of a run of map entries: each key under tag 0, each value
/// under tag 1, one nesting level below `depth`.
pub open spec fn enc_pairs(s: Seq<(ValueModel, ValueModel)>, le: bool, depth: nat) -> Result<
    Seq<u8>,
    ErrModel,
>
    decreases s, 0int,
{
    if s.len() == 0 {
        Ok(Seq::empty())
    } else {
        match enc_field(s[0].0, 0, le, (depth + 1) as nat) {
            Err(m) => Err(m),
            Ok(kb) => match enc_field(s[0].1, 1, le, (depth + 1) as nat) {
                Err(m) => Err(m),
                Ok(vb) => match enc_pairs(s.skip(1), le, depth) {
                    Err(m) => Err(m),
                    Ok(rest) => Ok(kb + vb + rest),
                },
            },
        }
    }
}

/// The bytes of a struct's fields, written in the order given, each one
/// nesting level below `depth`; recursing past the depth cap is the depth
/// error.
pub open spec fn enc_struct_body(s: Seq<(u8, ValueModel)>, le: bool, depth: nat) -> Result<
    Seq<u8>,
    ErrModel,
>
    decreases s, 1int,
{
    if depth > MAX_DEPTH {
        Err(ErrModel::TooDeep)
    } else {
        enc_fields(s, le, depth)
    }
}

/// The bytes of a run of tagged fields.
pub open spec fn enc_fields(s: Seq<(u8, ValueModel)>, le: bool, depth: nat) -> Result<
    Seq<u8>,
    ErrModel,
>
    decreases s, 0int,
{
    if s.len() == 0 {
        Ok(Seq::empty())
    } else {
        match enc_field(s[0].1, s[0].0, le, (depth + 1) as nat) {
            Err(m) => Err(m),
            Ok(b) => match enc_fields(s.skip(1), le, depth) {
                Err(m) => Err(m),
                Ok(rest) => Ok(b + rest),
            },
        }
    }
}


/// The first index in a decoded record holding `tag`, or a negative value
/// when none does.
pub open spec fn find_tag(fs: Seq<(u8, ValueModel)>, tag: u8) -> int
    decreases fs.len(),
{
    if fs.len() == 0 {
        -1
    } else if fs[0].0 == tag {
        0
    } else {
        let r = find_tag(fs.skip(1), tag);
        if r < 0 {
            -1
        } else {
            r + 1
        }
    }
}

pub proof fn lemma_find_tag(fs: Seq<(u8, ValueModel)>, tag: u8)
    ensures
        find_tag(fs, tag) < 0 ==> forall|j: int|
            0 <= j < fs.len() ==> (#[trigger] fs[j]).0 != tag,
        find_tag(fs, tag) >= 0 ==> {
            let i = find_tag(fs, tag);
            &&& 0 <= i < fs.len()
            &&& fs[i].0 == tag
            &&& forall|j: int| 0 <= j < i ==> (#[trigger] fs[j]).0 != tag
        },
    decreases fs.len(),
{
    if fs.len() > 0 && fs[0].0 != tag {
        lemma_find_tag(fs.skip(1), tag);
        let r = find_tag(fs.skip(1), tag);
        if r >= 0 {
            assert(fs.skip(1)[r] == fs[r + 1]);
            assert forall|j: int| 0 <= j < r + 1 implies (#[trigger] fs[j]).0 != tag by {
                if j > 0 {
                    assert(fs.skip(1)[j - 1] == fs[j]);
                }
            }
        } else {
            assert forall|j: int| 0 <= j < fs.len() implies (#[trigger] fs[j]).0 != tag by {
                if j > 0 {
                    assert(fs.skip(1)[j - 1] == fs[j]);
                }
            }
        }
    }
}

/// Records one decoded field in a record: a repeated tag overwrites the
/// value at the tag's first place, a new tag is appended — the mapping
/// behavior of a record, later occurrences winning.
pub open spec fn upsert_field(fs: Seq<(u8, ValueModel)>, tag: u8, vm: ValueModel) -> Seq<
    (u8, ValueModel),
> {
    let j = find_tag(fs, tag);
    if j < 0 {
        fs.push((tag, vm))
    } else {
        fs.update(j, (tag, vm))
    }
}

/// The first index in a decoded map holding `key`, or a negative value when
/// none does.
pub open spec fn find_key(ps: Seq<(ValueModel, ValueModel)>, key: ValueModel) -> int
    decreases ps.len(),
{
    if ps.len() == 0 {
        -1
    } else if ps[0].0 == key {
        0
    } else {
        let r = find_key(ps.skip(1), key);
        if r < 0 {
            -1
        } else {
            r + 1
        }
    }
}

pub proof fn lemma_find_key(ps: Seq<(ValueModel, ValueModel)>, key: ValueModel)
    ensures
        find_key(ps, key) < 0 ==> forall|j: int|
            0 <= j < ps.len() ==> (#[trigger] ps[j]).0 != key,
        find_key(ps, key) >= 0 ==> {
            let i = find_key(ps, key);
            &&& 0 <= i < ps.len()
            &&& ps[i].0 == key
            &&& forall|j: int| 0 <= j < i ==> (#[trigger] ps[j]).0 != key
        },
    decreases ps.len(),
{
    if ps.len() > 0 && ps[0].0 != key {
        lemma_find_key(ps.skip(1), key);
        let r = find_key(ps.skip(1), key);
        if r >= 0 {
            assert(ps.skip(1)[r] == ps[r + 1]);
            assert forall|j: int| 0 <= j < r + 1 implies (#[trigger] ps[j]).0 != key by {
                if j > 0 {
                    assert(ps.skip(1)[j - 1] == ps[j]);
                }
            }
        } else {
            assert forall|j: int| 0 <= j < ps.len() implies (#[trigger] ps[j]).0 != key by {
                if j > 0 {
                    assert(ps.skip(1)[j - 1] == ps[j]);
                }
            }
        }
    }
}

/// Records one decoded map entry: an entry whose key is already present
/// overwrites that entry in place, a new key is appended — later entries
/// winning, as in a dictionary.
pub open spec fn upsert_pair(
    ps: Seq<(ValueModel, ValueModel)>,
    key: ValueModel,
    val: ValueModel,
) -> Seq<(ValueModel, ValueModel)> {
    let j = find_key(ps, key);
    if j < 0 {
        ps.push((key, val))
    } else {
        ps.update(j, (key, val))
    }
}

/// The value decoded from one field payload of wire type `t` at `pos`, and
/// the position after it.
pub open spec fn dec_field(
    data: Seq<u8>,
    pos: int,
    t: JceType,
    le: bool,
    mode: BytesMode,
    depth: nat,
) -> Result<(ValueModel, int), ErrModel>
    decreases data.len() - pos, 3int, 0int,
{
    if depth > MAX_DEPTH {
        Err(ErrModel::TooDeep)
    } else {
        match t {
            JceType::Int1 | JceType::Int2 | JceType::Int4 | JceType::Int8 | JceType::ZeroTag => {
                match parse_int(data, pos, t, le) {
                    Err(m) => Err(m),
                    Ok((v, p)) => Ok((ValueModel::Int(v), p)),
                }
            },
            JceType::Float => {
                if pos + 4 <= data.len() {
                    Ok(
                        (
                            ValueModel::Float(
                                crate::nums::num_val(data.subrange(pos, pos + 4), le) as u32,
                            ),
                            pos + 4,
                        ),
                    )
                } else {
                    Err(ErrModel::Overflow(pos))
                }
            },
            JceType::Double => {
                if pos + 8 <= data.len() {
                    Ok(
                        (
                            ValueModel::Double(
                                crate::nums::num_val(data.subrange(pos, pos + 8), le) as u64,
                            ),
                            pos + 8,
                        ),
                    )
                } else {
                    Err(ErrModel::Overflow(pos))
                }
            },
            JceType::String1 | JceType::String4 => match parse_string(data, pos, t, le) {
                Err(m) => Err(m),
                Ok((s, p)) => Ok((ValueModel::Text(s), p)),
            },
            JceType::Mapping => match parse_size(data, pos, le) {
                Err(m) => Err(m),
                Ok((sz, p1)) => {
                    let n: nat = if sz > 0 {
                        sz as nat
                    } else {
                        0
                    };
                    match dec_pairs(data, p1, n, le, mode, depth, Seq::empty()) {
                        Err(m) => Err(m),
                        Ok((ps, p2)) => Ok((ValueModel::Mapping(ps), p2)),
                    }
                },
            },
            JceType::List => match parse_size(data, pos, le) {
                Err(m) => Err(m),
                Ok((sz, p1)) => {
                    let n: nat = if sz > 0 {
                        sz as nat
                    } else {
                        0
                    };
                    match dec_elems(data, p1, n, le, mode, depth) {
                        Err(m) => Err(m),
                        Ok((vs, p2)) => Ok((ValueModel::List(vs), p2)),
                    }
                },
            },
            JceType::SimpleList => {
                if pos >= data.len() {
                    Err(ErrModel::Overflow(pos))
                } else if data[pos] != 0 {
                    Err(ErrModel::Ctx(pos + 1))
                } else {
                    match parse_size(data, pos + 1, le) {
                        Err(m) => Err(m),
                        Ok((sz, p2)) => {
                            if sz < 0 {
                                Err(ErrModel::Overflow(p2))
                            } else if p2 + sz > data.len() {
                                Err(ErrModel::Overflow(p2))
                            } else {
                                let b = data.subrange(p2, p2 + sz);
                                Ok((dec_blob(b, le, mode, depth), p2 + sz))
                            }
                        },
                    }
                }
            },
            JceType::StructBegin => match dec_struct_rest(data, pos, le, mode, depth, Seq::empty()) {
                Err(m) => Err(m),
                Ok((fs, p)) => Ok((ValueModel::Struct(fs), p)),
            },
            JceType::StructEnd => Ok((ValueModel::Absent, pos)),
        }
    }
}

/// What an opaque byte payload decodes to under the chosen bytes-mode:
/// raw bytes, or text when the policy asks for it and the bytes read as
/// text, or, under the full heuristic, a nested struct when the bytes scan
/// as one complete well-formed struct and decode without error.
pub open spec fn dec_blob(b: Seq<u8>, le: bool, mode: BytesMode, depth: nat) -> ValueModel
    decreases b.len(), 4int, 0int,
{
    match mode {
        BytesMode::Raw => ValueModel::Bytes(b),
        BytesMode::Text => {
            if valid_utf8(b) {
                ValueModel::Text(b)
            } else {
                ValueModel::Bytes(b)
            }
        },
        BytesMode::Auto => {
            if safe_text(b) {
                ValueModel::Text(b)
            } else if validate_rest(b, 0, le) == Ok::<int, ErrModel>(b.len() as int) {
                match dec_struct_rest(b, 0, le, BytesMode::Auto, (depth + 1) as nat, Seq::empty()) {
                    Ok((fs, p)) => ValueModel::Struct(fs),
                    Err(_) => ValueModel::Bytes(b),
                }
            } else {
                ValueModel::Bytes(b)
            }
        },
    }
}

/// The record collected from a struct body at `pos`, starting from the
/// fields in `acc`: each field decoded in wire order and recorded with
/// [`upsert_field`], so a repeated tag keeps its first place and its last
/// value; the walk ends at a struct end marker or the end of the buffer.
pub open spec fn dec_struct_rest(
    data: Seq<u8>,
    pos: int,
    le: bool,
    mode: BytesMode,
    depth: nat,
    acc: Seq<(u8, ValueModel)>,
) -> Result<(Seq<(u8, ValueModel)>, int), ErrModel>
    decreases data.len() - pos, 2int, 0int,
{
    if depth > MAX_DEPTH {
        Err(ErrModel::TooDeep)
    } else if pos >= data.len() {
        Ok((acc, pos))
    } else {
        match spec_head(data, pos) {
            None => Err(head_err(data, pos)),
            Some((tag, t, p1)) => {
                if t is StructEnd {
                    Ok((acc, p1))
                } else {
                    match dec_field(data, p1, t, le, mode, (depth + 1) as nat) {
                        Err(m) => Err(m),
                        Ok((vm, p2)) => {
                            // A field never ends before its header began;
                            // the test keeps the recursion well-founded.
                            if pos < p2 <= data.len() {
                                dec_struct_rest(
                                    data,
                                    p2,
                                    le,
                                    mode,
                                    depth,
                                    upsert_field(acc, tag, vm),
                                )
                            } else {
                                Err(ErrModel::Overflow(pos))
                            }
                        },
                    }
                }
            },
        }
    }
}

/// The values decoded from `n` whole list elements at `pos`.
pub open spec fn dec_elems(
    data: Seq<u8>,
    pos: int,
    n: nat,
    le: bool,
    mode: BytesMode,
    depth: nat,
) -> Result<(Seq<ValueModel>, int), ErrModel>
    decreases data.len() - pos, 0int, n,
{
    if n == 0 {
        Ok((Seq::empty(), pos))
    } else {
        match spec_head(data, pos) {
            None => Err(head_err(data, pos)),
            Some((tag, t, p1)) => match dec_field(data, p1, t, le, mode, (depth + 1) as nat) {
                Err(m) => Err(m),
                Ok((vm, p2)) => {
                    // As above: the test keeps the recursion well-founded.
                    if pos < p2 <= data.len() {
                        match dec_elems(data, p2, (n - 1) as nat, le, mode, depth) {
                            Err(m) => Err(m),
                            Ok((rest, p3)) => Ok((seq![vm] + rest, p3)),
                        }
                    } else {
                        Err(ErrModel::Overflow(pos))
                    }
                },
            },
        }
    }
}

/// The map collected from `n` whole wire entries at `pos`, starting from
/// the pairs in `acc`: each entry recorded with [`upsert_pair`], so a
/// repeated key keeps its first place and its last value.
pub open spec fn dec_pairs(
    data: Seq<u8>,
    pos: int,
    n: nat,
    le: bool,
    mode: BytesMode,
    depth: nat,
    acc: Seq<(ValueModel, ValueModel)>,
) -> Result<(Seq<(ValueModel, ValueModel)>, int), ErrModel>
    decreases data.len() - pos, 0int, n,
{
    if n == 0 {
        Ok((acc, pos))
    } else {
        match spec_head(data, pos) {
            None => Err(head_err(data, pos)),
            Some((ktag, kt, p1)) => match dec_field(data, p1, kt, le, mode, (depth + 1) as nat) {
                Err(m) => Err(m),
                Ok((kv, p2)) => {
                    if pos < p2 <= data.len() {
                        match spec_head(data, p2) {
                            None => Err(head_err(data, p2)),
                            Some((vtag, vt, p3)) => match dec_field(
                                data,
                                p3,
                                vt,
                                le,
                                mode,
                                (depth + 1) as nat,
                            ) {
                                Err(m) => Err(m),
                                Ok((vv, p4)) => {
                                    if pos < p4 <= data.len() {
                                        dec_pairs(
                                            data,
                                            p4,
                                            (n - 1) as nat,
                                            le,
                                            mode,
                                            depth,
                                            upsert_pair(acc, kv, vv),
                                        )
                                    } else {
                                        Err(ErrModel::Overflow(p2))
                                    }
                                },
                            },
                        }
                    } else {
                        Err(ErrModel::Overflow(pos))
                    }
                },
            },
        }
    }
}

/// Encodes one structured value as a field under `tag`, inferring its wire
/// kind from the value itself. `depth` is the current nesting level; a
/// value nested past the cap is the depth error. Every struct inside the
/// value must list its fields in ascending tag order — the order the value
/// model fixes — so the encoding is canonical.
#[verifier::rlimit(100)]
pub fn encode_generic_field(w: &mut JceWriter, tag: u8, value: &Value, depth: usize) -> (r:
    Result<(), Error>)
    requires
        struct_tags_ordered(value@),
    ensures
        final(w).little() == old(w).little(),
        match enc_field(value@, tag, old(w).little(), depth as nat) {
            Ok(bs) => r is Ok && final(w).bytes() == old(w).bytes() + bs,
            Err(m) => r is Err && matches_err(r->Err_0, m),
        },
    decreases *value, 1int,
{
    if depth > MAX_DEPTH {
        return Err(Error::DepthExceeded);
    }
    let ghost pre = w.bytes();
    let ghost le = w.little();
    match value {
        Value::Int(i) => {
            w.write_int(tag, *i);
            Ok(())
        },
        Value::Float(b) => {
            w.write_float(tag, *b);
            Ok(())
        },
        Value::Double(b) => {
            w.write_double(tag, *b);
            Ok(())
        },
        Value::Text(t) => {
            if (t.len() as u64) >= 0x100000000u64 {
                return Err(Error::new(0, "text longer than the four-byte length field"));
            }
            w.write_string(tag, t.as_slice());
            Ok(())
        },
        Value::Bytes(b) => {
            if (b.len() as u64) > 0x7fffffffffffffffu64 {
                return Err(Error::new(0, "byte array longer than the count field"));
            }
            w.write_bytes(tag, b.as_slice());
            Ok(())
        },
        Value::List(items) => {
            if (items.len() as u64) > 0x7fffffffffffffffu64 {
                return Err(Error::new(0, "list longer than the count field"));
            }
            w.write_tag(tag, JceType::List);
            w.write_int(0, items.len() as i64);
            let ghost mid = w.bytes();
            proof {
                assert forall|i: int| 0 <= i < items@.len() implies struct_tags_ordered(
                    value_view(#[trigger] items@[i]),
                ) by {
                    assert(values_view(items@)[i] == value_view(items@[i]));
                }
            }
            match encode_list_elems(w, items, depth) {
                Ok(()) => {
                    proof {
                        let parts = enc_elems(values_view(items@), le, depth as nat)->Ok_0;
                        assert(pre + (head_bytes(tag, 9) + int_enc(0, items@.len() as int, le)
                            + parts) =~= mid + parts);
                    }
                    Ok(())
                },
                Err(e) => Err(e),
            }
        },
        Value::Mapping(pairs) => {
            if (pairs.len() as u64) > 0x7fffffffffffffffu64 {
                return Err(Error::new(0, "map longer than the count field"));
            }
            w.write_tag(tag, JceType::Mapping);
            w.write_int(0, pairs.len() as i64);
            let ghost mid = w.bytes();
            proof {
                assert forall|i: int|
                    0 <= i < pairs@.len() implies struct_tags_ordered(
                    value_view((#[trigger] pairs@[i]).0),
                ) && struct_tags_ordered(value_view(pairs@[i].1)) by {
                    assert(pairs_view(pairs@)[i].0 == value_view(pairs@[i].0));
                    assert(pairs_view(pairs@)[i].1 == value_view(pairs@[i].1));
                }
            }
            match encode_map_pairs(w, pairs, depth) {
                Ok(()) => {
                    proof {
                        let parts = enc_pairs(pairs_view(pairs@), le, depth as nat)->Ok_0;
                        assert(pre + (head_bytes(tag, 8) + int_enc(0, pairs@.len() as int, le)
                            + parts) =~= mid + parts);
                    }
                    Ok(())
                },
                Err(e) => Err(e),
            }
        },
        Value::Struct(fields) => {
            w.write_tag(tag, JceType::StructBegin);
            let ghost mid = w.bytes();
            match encode_generic_struct(w, fields, depth + 1) {
                Ok(()) => (),
                Err(e) => {
                    return Err(e);
                },
            }
            let ghost body = enc_struct_body(fields_view(fields@), le, (depth + 1) as nat)->Ok_0;
            w.write_tag(0, JceType::StructEnd);
            proof {
                assert(pre + (head_bytes(tag, 10) + body + head_bytes(0, 11)) =~= (mid + body)
                    + head_bytes(0, 11));
            }
            Ok(())
        },
        Value::Absent => Err(Error::new(0, "cannot infer a wire type for this value")),
    }
}

/// Encodes a run of list elements, each under tag 0.
#[verifier::loop_isolation(false)]
pub(crate) fn encode_list_elems(w: &mut JceWriter, items: &Vec<Value>, depth: usize) -> (r: Result<
    (),
    Error,
>)
    requires
        depth <= MAX_DEPTH,
        forall|i: int|
            0 <= i < items@.len() ==> struct_tags_ordered(value_view(#[trigger] items@[i])),
    ensures
        final(w).little() == old(w).little(),
        match enc_elems(values_view(items@), old(w).little(), depth as nat) {
            Ok(bs) => r is Ok && final(w).bytes() == old(w).bytes() + bs,
            Err(m) => r is Err && matches_err(r->Err_0, m),
        },
    decreases *items, 0int,
{
    let ghost pre = w.bytes();
    let ghost le = w.little();
    let ghost vv = values_view(items@);
    let ghost mut acc = Seq::<u8>::empty();
    proof {
        assert(vv.skip(0) =~= vv);
        if enc_elems(vv, le, depth as nat) is Ok {
            assert(Seq::<u8>::empty() + enc_elems(vv, le, depth as nat)->Ok_0 =~= enc_elems(
                vv,
                le,
                depth as nat,
            )->Ok_0);
        }
    }
    let n = items.len();
    let mut i: usize = 0;
    while i < n
        invariant
            i <= n,
            n == items@.len(),
            w.little() == le,
            w.bytes() == pre + acc,
            enc_elems(vv, le, depth as nat) == (match enc_elems(vv.skip(i as int), le, depth as nat) {
                Ok(rest) => Ok::<Seq<u8>, ErrModel>(acc + rest),
                Err(m) => Err::<Seq<u8>, ErrModel>(m),
            }),
        decreases n - i,
    {
        proof {
            assert(vv.skip(i as int)[0] == value_view(items@[i as int]));
        }
        match encode_generic_field(w, 0, &items[i], depth + 1) {
            Ok(()) => (),
            Err(e) => {
                return Err(e);
            },
        }
        proof {
            let bi = enc_field(vv[i as int], 0, le, (depth + 1) as nat)->Ok_0;
            assert(vv.skip(i as int).skip(1) =~= vv.skip(i + 1));
            if enc_elems(vv.skip(i + 1), le, depth as nat) is Ok {
                let rest = enc_elems(vv.skip(i + 1), le, depth as nat)->Ok_0;
                assert(acc + (bi + rest) =~= (acc + bi) + rest);
            }
            assert((pre + acc) + bi =~= pre + (acc + bi));
            acc = acc + bi;
        }
        i = i + 1;
    }
    proof {
        assert(vv.skip(n as int) =~= Seq::<ValueModel>::empty());
        assert(acc + Seq::<u8>::empty() =~= acc);
    }
    Ok(())
}

/// Encodes a run of map entries: each key under tag 0, each value under
/// tag 1.
#[verifier::loop_isolation(false)]
pub(crate) fn encode_map_pairs(w: &mut JceWriter, pairs: &Vec<(Value, Value)>, depth: usize) -> (r: Result<
    (),
    Error,
>)
    requires
        depth <= MAX_DEPTH,
        forall|i: int|
            0 <= i < pairs@.len() ==> struct_tags_ordered(value_view((#[trigger] pairs@[i]).0))
                && struct_tags_ordered(value_view(pairs@[i].1)),
    ensures
        final(w).little() == old(w).little(),
        match enc_pairs(pairs_view(pairs@), old(w).little(), depth as nat) {
            Ok(bs) => r is Ok && final(w).bytes() == old(w).bytes() + bs,
            Err(m) => r is Err && matches_err(r->Err_0, m),
        },
    decreases *pairs, 0int,
{
    let ghost pre = w.bytes();
    let ghost le = w.little();
    let ghost vv = pairs_view(pairs@);
    let ghost mut acc = Seq::<u8>::empty();
    proof {
        assert(vv.skip(0) =~= vv);
        if enc_pairs(vv, le, depth as nat) is Ok {
            assert(Seq::<u8>::empty() + enc_pairs(vv, le, depth as nat)->Ok_0 =~= enc_pairs(
                vv,
                le,
                depth as nat,
            )->Ok_0);
        }
    }
    let n = pairs.len();
    let mut i: usize = 0;
    while i < n
        invariant
            i <= n,
            n == pairs@.len(),
            w.little() == le,
            w.bytes() == pre + acc,
            enc_pairs(vv, le, depth as nat) == (match enc_pairs(vv.skip(i as int), le, depth as nat) {
                Ok(rest) => Ok::<Seq<u8>, ErrModel>(acc + rest),
                Err(m) => Err::<Seq<u8>, ErrModel>(m),
            }),
        decreases n - i,
    {
        proof {
            assert(vv.skip(i as int)[0] == (
                value_view(pairs@[i as int].0),
                value_view(pairs@[i as int].1),
            ));
        }
        match encode_generic_field(w, 0, &pairs[i].0, depth + 1) {
            Ok(()) => (),
            Err(e) => {
                return Err(e);
            },
        }
        match encode_generic_field(w, 1, &pairs[i].1, depth + 1) {
            Ok(()) => (),
            Err(e) => {
                return Err(e);
            },
        }
        proof {
            let kb = enc_field(vv[i as int].0, 0, le, (depth + 1) as nat)->Ok_0;
            let vb = enc_field(vv[i as int].1, 1, le, (depth + 1) as nat)->Ok_0;
            assert(vv.skip(i as int).skip(1) =~= vv.skip(i + 1));
            if enc_pairs(vv.skip(i + 1), le, depth as nat) is Ok {
                let rest = enc_pairs(vv.skip(i + 1), le, depth as nat)->Ok_0;
                assert(acc + (kb + vb + rest) =~= ((acc + kb) + vb) + rest);
            }
            assert(((pre + acc) + kb) + vb =~= pre + ((acc + kb) + vb));
            acc = (acc + kb) + vb;
        }
        i = i + 1;
    }
    proof {
        assert(vv.skip(n as int) =~= Seq::<(ValueModel, ValueModel)>::empty());
        assert(acc + Seq::<u8>::empty() =~= acc);
    }
    Ok(())
}

/// Encodes the fields of a struct without the surrounding begin and end
/// markers: the schema-less encoding of a whole record. The fields must
/// arrive in ascending tag order — the order the value model fixes — so the
/// encoding is canonical.
#[verifier::loop_isolation(false)]
pub fn encode_generic_struct(w: &mut JceWriter, fields: &Vec<(u8, Value)>, depth: usize) -> (r:
    Result<(), Error>)
    requires
        struct_tags_ordered(ValueModel::Struct(fields_view(fields@))),
    ensures
        final(w).little() == old(w).little(),
        match enc_struct_body(fields_view(fields@), old(w).little(), depth as nat) {
            Ok(bs) => r is Ok && final(w).bytes() == old(w).bytes() + bs,
            Err(m) => r is Err && matches_err(r->Err_0, m),
        },
    decreases *fields, 1int,
{
    if depth > MAX_DEPTH {
        return Err(Error::DepthExceeded);
    }
    let ghost pre = w.bytes();
    let ghost le = w.little();
    let ghost vv = fields_view(fields@);
    let ghost mut acc = Seq::<u8>::empty();
    proof {
        assert(vv.skip(0) =~= vv);
        if enc_fields(vv, le, depth as nat) is Ok {
            assert(Seq::<u8>::empty() + enc_fields(vv, le, depth as nat)->Ok_0 =~= enc_fields(
                vv,
                le,
                depth as nat,
            )->Ok_0);
        }
    }
    let n = fields.len();
    let mut i: usize = 0;
    while i < n
        invariant
            i <= n,
            n == fields@.len(),
            w.little() == le,
            w.bytes() == pre + acc,
            enc_fields(vv, le, depth as nat) == (match enc_fields(vv.skip(i as int), le, depth as nat) {
                Ok(rest) => Ok::<Seq<u8>, ErrModel>(acc + rest),
                Err(m) => Err::<Seq<u8>, ErrModel>(m),
            }),
        decreases n - i,
    {
        proof {
            assert(vv.skip(i as int)[0] == (fields@[i as int].0, value_view(fields@[i as int].1)));
            let fsv = fields_view(fields@);
            assert(struct_tags_ordered(fsv[i as int].1));
            assert(fsv[i as int] == (fields@[i as int].0, value_view(fields@[i as int].1)));
        }
        let t = fields[i].0;
        match encode_generic_field(w, t, &fields[i].1, depth + 1) {
            Ok(()) => (),
            Err(e) => {
                return Err(e);
            },
        }
        proof {
            let bi = enc_field(vv[i as int].1, vv[i as int].0, le, (depth + 1) as nat)->Ok_0;
            assert(vv.skip(i as int).skip(1) =~= vv.skip(i + 1));
            if enc_fields(vv.skip(i + 1), le, depth as nat) is Ok {
                let rest = enc_fields(vv.skip(i + 1), le, depth as nat)->Ok_0;
                assert(acc + (bi + rest) =~= (acc + bi) + rest);
            }
            assert((pre + acc) + bi =~= pre + (acc + bi));
            acc = acc + bi;
        }
        i = i + 1;
    }
    proof {
        assert(vv.skip(n as int) =~= Seq::<(u8, ValueModel)>::empty());
        assert(acc + Seq::<u8>::empty() =~= acc);
    }
    Ok(())
}

/// Decodes one field payload of the given wire type into a structured
/// value, dispatching purely on the type code; `depth` is the current
/// nesting level.
#[verifier::rlimit(50)]
pub fn decode_generic_field(rd: &mut JceReader, type_id: JceType, mode: BytesMode, depth: usize) -> (r: Result<Value, Error>)
    ensures
        final(rd).same_stream(*old(rd)),
        old(rd).at() <= final(rd).at() <= final(rd).bytes().len(),
        match dec_field(old(rd).bytes(), old(rd).at(), type_id, old(rd).little(), mode, depth as nat) {
            Ok((vm, p)) => r is Ok && r->Ok_0@ == vm && final(rd).at() == p,
            Err(m) => r is Err && matches_err(r->Err_0, m),
        },
    decreases rd.bytes().len() - rd.at(), 3int, 0int,
{
    proof {
        use_type_invariant(&*rd);
    }
    if depth > MAX_DEPTH {
        return Err(Error::DepthExceeded);
    }
    match type_id {
        JceType::Int1 | JceType::Int2 | JceType::Int4 | JceType::Int8 | JceType::ZeroTag => {
            match rd.read_int(type_id) {
                Ok(v) => Ok(Value::Int(v)),
                Err(e) => Err(e),
            }
        },
        JceType::Float => {
            match rd.read_float() {
                Ok(bits) => Ok(Value::Float(bits)),
                Err(e) => Err(e),
            }
        },
        JceType::Double => {
            match rd.read_double() {
                Ok(bits) => Ok(Value::Double(bits)),
                Err(e) => Err(e),
            }
        },
        JceType::String1 | JceType::String4 => {
            match rd.read_string(type_id) {
                Ok(s) => Ok(Value::Text(vstd::slice::slice_to_vec(s))),
                Err(e) => Err(e),
            }
        },
        JceType::Mapping => {
            match decode_map(rd, mode, depth) {
                Ok(pairs) => Ok(Value::Mapping(pairs)),
                Err(e) => Err(e),
            }
        },
        JceType::List => {
            match decode_list(rd, mode, depth) {
                Ok(items) => Ok(Value::List(items)),
                Err(e) => Err(e),
            }
        },
        JceType::SimpleList => {
            let elem = match rd.read_u8() {
                Ok(b) => b,
                Err(e) => {
                    return Err(e);
                },
            };
            if elem != 0 {
                return Err(Error::new(rd.position(), "a byte array must declare byte elements"));
            }
            let sz = match rd.read_size() {
                Ok(v) => v,
                Err(e) => {
                    return Err(e);
                },
            };
            if sz < 0 {
                return Err(Error::BufferOverflow { offset: rd.position() });
            }
            let b = match rd.read_bytes(sz as usize) {
                Ok(s) => s,
                Err(e) => {
                    return Err(e);
                },
            };
            Ok(decode_blob(b, rd.endianness(), mode, depth))
        },
        JceType::StructBegin => {
            match decode_generic_struct(rd, mode, depth) {
                Ok(fields) => Ok(Value::Struct(fields)),
                Err(e) => Err(e),
            }
        },
        JceType::StructEnd => Ok(Value::Absent),
    }
}

/// Applies the bytes-mode policy to an opaque byte payload: raw bytes, a
/// text attempt, or the full text-then-struct-then-raw heuristic.
pub(crate) fn decode_blob(b: &[u8], endian: Endianness, mode: BytesMode, depth: usize) -> (r: Value)
    requires
        depth <= MAX_DEPTH,
    ensures
        r@ == dec_blob(b@, endian.is_little(), mode, depth as nat),
    decreases b@.len(), 4int, 0int,
{
    match mode {
        BytesMode::Raw => Value::Bytes(vstd::slice::slice_to_vec(b)),
        BytesMode::Text => {
            if crate::utf8::is_valid_utf8(b) {
                Value::Text(vstd::slice::slice_to_vec(b))
            } else {
                Value::Bytes(vstd::slice::slice_to_vec(b))
            }
        },
        BytesMode::Auto => {
            if check_safe_text(b) {
                Value::Text(vstd::slice::slice_to_vec(b))
            } else {
                let mut sc = JceScanner::new(b, endian);
                let scan_ok = match sc.validate_struct() {
                    Ok(()) => sc.is_end(),
                    Err(_) => false,
                };
                if scan_ok {
                    let mut probe = JceReader::new(b, endian);
                    match decode_generic_struct(&mut probe, mode, depth + 1) {
                        Ok(fields) => Value::Struct(fields),
                        Err(_) => Value::Bytes(vstd::slice::slice_to_vec(b)),
                    }
                } else {
                    Value::Bytes(vstd::slice::slice_to_vec(b))
                }
            }
        },
    }
}

/// Records one decoded field in a record under construction: a repeated tag
/// overwrites the value at its first place, a new tag is appended.
#[verifier::loop_isolation(false)]
fn upsert_tagged(out: &mut Vec<(u8, Value)>, tag: u8, v: Value)
    ensures
        fields_view(final(out)@) == upsert_field(fields_view(old(out)@), tag, value_view(v)),
{
    proof {
        lemma_find_tag(fields_view(out@), tag);
    }
    let ghost fs = fields_view(out@);
    let n = out.len();
    let mut k: usize = 0;
    while k < n
        invariant
            k <= n,
            n == out@.len(),
            out@ == old(out)@,
            forall|j: int| 0 <= j < k ==> (#[trigger] fs[j]).0 != tag,
        decreases n - k,
    {
        if out[k].0 == tag {
            proof {
                assert(fs[k as int].0 == tag);
                assert(find_tag(fs, tag) == k);
            }
            out[k] = (tag, v);
            proof {
                assert(fields_view(out@) =~= fs.update(k as int, (tag, value_view(v))));
            }
            return;
        }
        k = k + 1;
    }
    proof {
        if find_tag(fs, tag) >= 0 {
            assert(fs[find_tag(fs, tag)].0 != tag);
        }
    }
    out.push((tag, v));
    proof {
        assert(fields_view(out@) =~= fs.push((tag, value_view(v))));
    }
}

/// Records one decoded map entry: an entry under an already-present key
/// overwrites that entry in place, a new key is appended.
#[verifier::loop_isolation(false)]
fn upsert_keyed(out: &mut Vec<(Value, Value)>, key: Value, v: Value)
    ensures
        pairs_view(final(out)@) == upsert_pair(
            pairs_view(old(out)@),
            value_view(key),
            value_view(v),
        ),
{
    proof {
        lemma_find_key(pairs_view(out@), value_view(key));
    }
    let ghost ps = pairs_view(out@);
    let n = out.len();
    let mut k: usize = 0;
    while k < n
        invariant
            k <= n,
            n == out@.len(),
            out@ == old(out)@,
            forall|j: int| 0 <= j < k ==> (#[trigger] ps[j]).0 != value_view(key),
        decreases n - k,
    {
        if value_eq(&out[k].0, &key) {
            proof {
                assert(ps[k as int].0 == value_view(key));
                assert(find_key(ps, value_view(key)) == k);
            }
            out[k] = (key, v);
            proof {
                assert(pairs_view(out@) =~= ps.update(
                    k as int,
                    (value_view(key), value_view(v)),
                ));
            }
            return;
        }
        k = k + 1;
    }
    proof {
        if find_key(ps, value_view(key)) >= 0 {
            assert(ps[find_key(ps, value_view(key))].0 != value_view(key));
        }
    }
    out.push((key, v));
    proof {
        assert(pairs_view(out@) =~= ps.push((value_view(key), value_view(v))));
    }
}

/// Decodes a struct body without a schema into a record: fields in wire
/// order of their first occurrence, a repeated tag overwriting the earlier
/// value, up to a struct end marker or the end of the buffer.
#[verifier::rlimit(50)]
#[verifier::loop_isolation(false)]
pub fn decode_generic_struct(rd: &mut JceReader, mode: BytesMode, depth: usize) -> (r: Result<Vec<(u8, Value)>, Error>)
    ensures
        final(rd).same_stream(*old(rd)),
        old(rd).at() <= final(rd).at() <= final(rd).bytes().len(),
        match dec_struct_rest(
            old(rd).bytes(),
            old(rd).at(),
            old(rd).little(),
            mode,
            depth as nat,
            Seq::empty(),
        ) {
            Ok((fs, p)) => r is Ok && fields_view(r->Ok_0@) == fs && final(rd).at() == p,
            Err(m) => r is Err && matches_err(r->Err_0, m),
        },
    decreases rd.bytes().len() - rd.at(), 2int, 0int,
{
    proof {
        use_type_invariant(&*rd);
    }
    if depth > MAX_DEPTH {
        return Err(Error::DepthExceeded);
    }
    let ghost data = rd.bytes();
    let ghost le = rd.little();
    let ghost entry_at = rd.at();
    let ghost d = depth as nat;
    let mut out: Vec<(u8, Value)> = Vec::new();
    let mut done = false;
    proof {
        assert(fields_view(out@) =~= Seq::<(u8, ValueModel)>::empty());
    }
    while !done
        invariant
            rd.same_stream(*old(rd)),
            entry_at <= rd.at() <= rd.bytes().len(),
            !done ==> dec_struct_rest(data, entry_at, le, mode, d, Seq::empty())
                == dec_struct_rest(data, rd.at(), le, mode, d, fields_view(out@)),
            done ==> dec_struct_rest(data, entry_at, le, mode, d, Seq::empty()) == Ok::<
                (Seq<(u8, ValueModel)>, int),
                ErrModel,
            >((fields_view(out@), rd.at())),
        decreases rd.bytes().len() - rd.at() + (if done {
            0int
        } else {
            1int
        }),
    {
        if rd.is_end() {
            done = true;
        } else {
            let (tag, t) = match rd.read_head() {
                Ok(h) => h,
                Err(e) => {
                    return Err(e);
                },
            };
            if matches!(t, JceType::StructEnd) {
                done = true;
            } else {
                let ghost p1 = rd.at();
                let v = match decode_generic_field(rd, t, mode, depth + 1) {
                    Ok(v) => v,
                    Err(e) => {
                        return Err(e);
                    },
                };
                let ghost vm = dec_field(data, p1, t, le, mode, (depth + 1) as nat)->Ok_0.0;
                upsert_tagged(&mut out, tag, v);
            }
        }
    }
    Ok(out)
}

/// Decodes a map: the entry count, then that many key-value pairs, each
/// generically decoded; a repeated key overwrites the earlier entry in
/// place, the later value winning.
#[verifier::rlimit(50)]
#[verifier::loop_isolation(false)]
pub(crate) fn decode_map(rd: &mut JceReader, mode: BytesMode, depth: usize) -> (r: Result<Vec<(Value, Value)>, Error>)
    requires
        depth <= MAX_DEPTH,
    ensures
        final(rd).same_stream(*old(rd)),
        old(rd).at() <= final(rd).at() <= final(rd).bytes().len(),
        match parse_size(old(rd).bytes(), old(rd).at(), old(rd).little()) {
            Err(m) => r is Err && matches_err(r->Err_0, m),
            Ok((sz, p1)) => {
                let n: nat = if sz > 0 {
                    sz as nat
                } else {
                    0
                };
                match dec_pairs(
                    old(rd).bytes(),
                    p1,
                    n,
                    old(rd).little(),
                    mode,
                    depth as nat,
                    Seq::empty(),
                ) {
                    Ok((ps, p2)) => r is Ok && pairs_view(r->Ok_0@) == ps && final(rd).at() == p2,
                    Err(m) => r is Err && matches_err(r->Err_0, m),
                }
            },
        },
    decreases rd.bytes().len() - rd.at(), 2int, 0int,
{
    proof {
        use_type_invariant(&*rd);
    }
    let ghost data = rd.bytes();
    let ghost le = rd.little();
    let ghost d = depth as nat;
    let sz = match rd.read_size() {
        Ok(v) => v,
        Err(e) => {
            return Err(e);
        },
    };
    let total: u64 = if sz > 0 {
        sz as u64
    } else {
        0
    };
    let ghost entry_at = rd.at();
    let mut out: Vec<(Value, Value)> = Vec::new();
    let mut k: u64 = 0;
    proof {
        assert(pairs_view(out@) =~= Seq::<(ValueModel, ValueModel)>::empty());
    }
    while k < total
        invariant
            k <= total,
            rd.same_stream(*old(rd)),
            entry_at <= rd.at() <= rd.bytes().len(),
            dec_pairs(data, entry_at, total as nat, le, mode, d, Seq::empty()) == dec_pairs(
                data,
                rd.at(),
                (total - k) as nat,
                le,
                mode,
                d,
                pairs_view(out@),
            ),
        decreases total - k,
    {
        let (_, kt) = match rd.read_head() {
            Ok(h) => h,
            Err(e) => {
                return Err(e);
            },
        };
        let ghost pk = rd.at();
        let key = match decode_generic_field(rd, kt, mode, depth + 1) {
            Ok(v) => v,
            Err(e) => {
                return Err(e);
            },
        };
        let ghost km = dec_field(data, pk, kt, le, mode, (depth + 1) as nat)->Ok_0.0;
        let (_, vt) = match rd.read_head() {
            Ok(h) => h,
            Err(e) => {
                return Err(e);
            },
        };
        let ghost pv = rd.at();
        let val = match decode_generic_field(rd, vt, mode, depth + 1) {
            Ok(v) => v,
            Err(e) => {
                return Err(e);
            },
        };
        let ghost vm = dec_field(data, pv, vt, le, mode, (depth + 1) as nat)->Ok_0.0;
        upsert_keyed(&mut out, key, val);
        k = k + 1;
    }
    Ok(out)
}

/// Decodes a list: the element count, then that many generically decoded
/// elements.
#[verifier::rlimit(50)]
#[verifier::loop_isolation(false)]
pub(crate) fn decode_list(rd: &mut JceReader, mode: BytesMode, depth: usize) -> (r: Result<Vec<Value>, Error>)
    requires
        depth <= MAX_DEPTH,
    ensures
        final(rd).same_stream(*old(rd)),
        old(rd).at() <= final(rd).at() <= final(rd).bytes().len(),
        match parse_size(old(rd).bytes(), old(rd).at(), old(rd).little()) {
            Err(m) => r is Err && matches_err(r->Err_0, m),
            Ok((sz, p1)) => {
                let n: nat = if sz > 0 {
                    sz as nat
                } else {
                    0
                };
                match dec_elems(old(rd).bytes(), p1, n, old(rd).little(), mode, depth as nat) {
                    Ok((vs, p2)) => r is Ok && values_view(r->Ok_0@) == vs && final(rd).at() == p2,
                    Err(m) => r is Err && matches_err(r->Err_0, m),
                }
            },
        },
    decreases rd.bytes().len() - rd.at(), 2int, 0int,
{
    proof {
        use_type_invariant(&*rd);
    }
    let ghost data = rd.bytes();
    let ghost le = rd.little();
    let ghost d = depth as nat;
    let sz = match rd.read_size() {
        Ok(v) => v,
        Err(e) => {
            return Err(e);
        },
    };
    let total: u64 = if sz > 0 {
        sz as u64
    } else {
        0
    };
    let ghost entry_at = rd.at();
    let mut out: Vec<Value> = Vec::new();
    let mut k: u64 = 0;
    proof {
        assert(values_view(out@) =~= Seq::<ValueModel>::empty());
        if dec_elems(data, entry_at, total as nat, le, mode, d) is Ok {
            let vs = dec_elems(data, entry_at, total as nat, le, mode, d)->Ok_0.0;
            assert(values_view(out@) + vs =~= vs);
        }
    }
    while k < total
        invariant
            k <= total,
            rd.same_stream(*old(rd)),
            entry_at <= rd.at() <= rd.bytes().len(),
            dec_elems(data, entry_at, total as nat, le, mode, d) == (match dec_elems(
                data,
                rd.at(),
                (total - k) as nat,
                le,
                mode,
                d,
            ) {
                Ok((rest, p)) => Ok::<(Seq<ValueModel>, int), ErrModel>(
                    (values_view(out@) + rest, p),
                ),
                Err(m) => Err::<(Seq<ValueModel>, int), ErrModel>(m),
            }),
        decreases total - k,
    {
        let (_, t) = match rd.read_head() {
            Ok(h) => h,
            Err(e) => {
                return Err(e);
            },
        };
        let ghost p1 = rd.at();
        let v = match decode_generic_field(rd, t, mode, depth + 1) {
            Ok(v) => v,
            Err(e) => {
                return Err(e);
            },
        };
        let ghost vm = dec_field(data, p1, t, le, mode, (depth + 1) as nat)->Ok_0.0;
        let ghost before = out@;
        out.push(v);
        proof {
            assert(values_view(out@) =~= values_view(before).push(vm));
            if dec_elems(data, rd.at(), (total - k - 1) as nat, le, mode, d) is Ok {
                let r2 = dec_elems(data, rd.at(), (total - k - 1) as nat, le, mode, d)->Ok_0.0;
                assert(values_view(before) + (seq![vm] + r2) =~= values_view(out@) + r2);
            }
        }
        k = k + 1;
    }
    proof {
        assert(values_view(out@) + Seq::<ValueModel>::empty() =~= values_view(out@));
    }
    Ok(out)
}

} // verus!
