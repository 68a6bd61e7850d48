//! The schema compiler and the schema-driven struct codec: an ordered
//! field-descriptor list compiled into a tag-indexed table, encoding by
//! walking the schema, decoding by walking the wire stream, filling declared
//! defaults and skipping unknown tags.

use vstd::prelude::*;
use crate::codec::{
    BytesMode, dec_field, dec_pairs, dec_struct_rest, decode_generic_field, decode_generic_struct,
    decode_list, decode_map, enc_field, enc_pairs, enc_elems, enc_struct_body,
    encode_generic_field, encode_generic_struct, encode_map_pairs, encode_list_elems,
};
use crate::error::Error;
use crate::reader::JceReader;
use crate::types::JceType;
use crate::value::{Value, ValueModel, deep_copy, value_eq, value_view};
use crate::wire::{
    MAX_DEPTH, ErrModel, head_err, matches_err, parse_int, parse_size, parse_string,
    skip_field_at, spec_head,
};
use crate::writer::JceWriter;

verus! {

broadcast use vstd::std_specs::vec::group_vec_axioms;

/// The sentinel type code meaning "infer the wire type at runtime": such a
/// field goes through the generic codec.
pub const TYPE_INFER: u8 = 255;

/// Omit fields whose value equals their declared default.
pub const OPT_OMIT_DEFAULT: i32 = 32;

/// Omit fields the caller never explicitly set.
pub const OPT_EXCLUDE_UNSET: i32 = 64;

/// The model of a field descriptor.
pub struct FieldModel {
    pub name: Seq<char>,
    pub tag: u8,
    pub code: u8,
    pub default: ValueModel,
    pub has_serializer: bool,
}

/// One field descriptor: a name, a wire tag, a declared type code (255
/// meaning "infer at runtime"), the default value a missing field decodes
/// to, and a flag for callers that post-process the field themselves.
pub struct FieldDef {
    pub name: String,
    pub tag: u8,
    pub tars_type: u8,
    pub default_val: Value,
    pub has_serializer: bool,
}

/// The model of a field descriptor.
pub open spec fn field_view(f: FieldDef) -> FieldModel {
    FieldModel {
        name: f.name@,
        tag: f.tag,
        code: f.tars_type,
        default: value_view(f.default_val),
        has_serializer: f.has_serializer,
    }
}

/// The models of a run of field descriptors.
pub open spec fn schema_view(s: Seq<FieldDef>) -> Seq<FieldModel> {
    Seq::new(
        s.len(),
        |i: int|
            if 0 <= i < s.len() {
                field_view(s[i])
            } else {
                field_view(s[0])
            },
    )
}

/// The first index in `schema` declaring `tag`, or a negative value when no
/// field does.
pub open spec fn find_field(schema: Seq<FieldModel>, tag: u8) -> int
    decreases schema.len(),
{
    if schema.len() == 0 {
        -1
    } else if schema[0].tag == tag {
        0
    } else {
        let r = find_field(schema.skip(1), tag);
        if r < 0 {
            -1
        } else {
            r + 1
        }
    }
}

proof fn lemma_find_field(schema: Seq<FieldModel>, tag: u8)
    ensures
        find_field(schema, tag) < 0 ==> forall|j: int|
            0 <= j < schema.len() ==> (#[trigger] schema[j]).tag != tag,
        find_field(schema, tag) >= 0 ==> {
            let i = find_field(schema, tag);
            &&& 0 <= i < schema.len()
            &&& schema[i].tag == tag
            &&& forall|j: int| 0 <= j < i ==> (#[trigger] schema[j]).tag != tag
        },
    decreases schema.len(),
{
    if schema.len() > 0 && schema[0].tag != tag {
        lemma_find_field(schema.skip(1), tag);
        let r = find_field(schema.skip(1), tag);
        if r >= 0 {
            assert(schema.skip(1)[r] == schema[r + 1]);
            assert forall|j: int| 0 <= j < r + 1 implies (#[trigger] schema[j]).tag != tag by {
                if j > 0 {
                    assert(schema.skip(1)[j - 1] == schema[j]);
                }
            }
        } else {
            assert forall|j: int| 0 <= j < schema.len() implies (#[trigger] schema[j]).tag
                != tag by {
                if j > 0 {
                    assert(schema.skip(1)[j - 1] == schema[j]);
                }
            }
        }
    }
}

/// A compiled schema: the descriptors in declaration order plus a 256-slot
/// table mapping each tag to the index of the field declaring it.
pub struct CompiledSchema {
    fields: Vec<FieldDef>,
    tag_lookup: Vec<Option<usize>>,
}

impl View for CompiledSchema {
    type V = Seq<FieldModel>;

    closed spec fn view(&self) -> Seq<FieldModel> {
        schema_view(self.fields@)
    }
}

impl CompiledSchema {
    /// The lookup table mirrors `find_field` over the descriptors, and no
    /// two descriptors share a tag.
    #[verifier::type_invariant]
    pub closed spec fn wf(self) -> bool {
        &&& self.tag_lookup@.len() == 256
        &&& forall|t: int|
            0 <= t < 256 ==> (#[trigger] self.tag_lookup@[t]) == (if find_field(
                schema_view(self.fields@),
                t as u8,
            ) >= 0 {
                Some(find_field(schema_view(self.fields@), t as u8) as usize)
            } else {
                None::<usize>
            })
        &&& forall|i: int, j: int|
            0 <= i < j < self.fields@.len() ==> (#[trigger] self.fields@[i]).tag != (
            #[trigger] self.fields@[j]).tag
    }

    /// How many fields the schema declares.
    pub fn field_count(&self) -> (r: usize)
        ensures
            r == self@.len(),
    {
        self.fields.len()
    }

    /// The field at a declaration index.
    pub fn field_at(&self, i: usize) -> (r: &FieldDef)
        requires
            i < self@.len(),
        ensures
            field_view(*r) == self@[i as int],
    {
        &self.fields[i]
    }

    /// The index of the field declaring `tag`, if any.
    pub fn lookup(&self, tag: u8) -> (r: Option<usize>)
        ensures
            match r {
                Some(i) => find_field(self@, tag) == i && i < self@.len() && self@[i as int].tag
                    == tag,
                None => find_field(self@, tag) < 0 && forall|j: int|
                    0 <= j < self@.len() ==> (#[trigger] self@[j]).tag != tag,
            },
    {
        proof {
            use_type_invariant(self);
            lemma_find_field(self@, tag);
            vstd::std_specs::vec::axiom_spec_len(&self.fields);
            assert((tag as int) as u8 == tag);
            assert(self.tag_lookup@[tag as int] == (if find_field(
                schema_view(self.fields@),
                tag,
            ) >= 0 {
                Some(find_field(schema_view(self.fields@), tag) as usize)
            } else {
                None::<usize>
            }));
        }
        self.tag_lookup[tag as usize]
    }
}

/// Scans for the first field declaring `tag`.
#[verifier::loop_isolation(false)]
fn scan_for_tag(fields: &Vec<FieldDef>, tag: u8) -> (r: Option<usize>)
    ensures
        match r {
            Some(i) => find_field(schema_view(fields@), tag) == i,
            None => find_field(schema_view(fields@), tag) < 0,
        },
{
    proof {
        lemma_find_field(schema_view(fields@), tag);
    }
    let n = fields.len();
    let mut i: usize = 0;
    while i < n
        invariant
            i <= n,
            n == fields@.len(),
            forall|j: int| 0 <= j < i ==> (#[trigger] schema_view(fields@)[j]).tag != tag,
        decreases n - i,
    {
        if fields[i].tag == tag {
            proof {
                if find_field(schema_view(fields@), tag) < 0 {
                    assert(schema_view(fields@)[i as int].tag != tag);
                }
                let f = find_field(schema_view(fields@), tag);
                if f < i {
                    assert(schema_view(fields@)[f].tag != tag);
                }
                if f > i {
                    assert(schema_view(fields@)[i as int].tag != tag);
                }
            }
            return Some(i);
        }
        i = i + 1;
    }
    proof {
        if find_field(schema_view(fields@), tag) >= 0 {
            let f = find_field(schema_view(fields@), tag);
            assert(schema_view(fields@)[f].tag != tag);
        }
    }
    None
}

/// Compiles an ordered field-descriptor list into a tag-indexed schema.
/// Compilation succeeds exactly when no two descriptors share a tag; a
/// duplicate is reported as the duplicate-tag error carrying that tag.
#[verifier::loop_isolation(false)]
pub fn compile_schema(fields: Vec<FieldDef>) -> (r: Result<CompiledSchema, Error>)
    ensures
        r is Ok <==> (forall|i: int, j: int|
            0 <= i < j < fields@.len() ==> (#[trigger] schema_view(fields@)[i]).tag != (
            #[trigger] schema_view(fields@)[j]).tag),
        r is Ok ==> r->Ok_0@ == schema_view(fields@),
        r is Err ==> (r->Err_0 matches Error::DuplicateTag { tag } && exists|i: int, j: int|
            0 <= i < j < fields@.len() && (#[trigger] schema_view(fields@)[i]).tag == tag && (
            #[trigger] schema_view(fields@)[j]).tag == tag),
{
    let n = fields.len();
    let mut idx: usize = 0;
    while idx < n
        invariant
            idx <= n,
            n == fields@.len(),
            forall|i: int, j: int|
                0 <= i < j < idx ==> (#[trigger] schema_view(fields@)[i]).tag != (
                #[trigger] schema_view(fields@)[j]).tag,
        decreases n - idx,
    {
        let mut j: usize = 0;
        while j < idx
            invariant
                j <= idx < n,
                n == fields@.len(),
                forall|k: int|
                    0 <= k < j ==> (#[trigger] schema_view(fields@)[k]).tag != schema_view(
                        fields@,
                    )[idx as int].tag,
            decreases idx - j,
        {
            if fields[j].tag == fields[idx].tag {
                proof {
                    assert(schema_view(fields@)[j as int].tag == fields@[j as int].tag);
                    assert(schema_view(fields@)[idx as int].tag == fields@[idx as int].tag);
                    assert(0 <= j < idx < fields@.len() && schema_view(fields@)[j as int].tag
                        == fields@[j as int].tag && schema_view(fields@)[idx as int].tag
                        == fields@[j as int].tag);
                }
                return Err(Error::DuplicateTag { tag: fields[j].tag });
            }
            j = j + 1;
        }
        idx = idx + 1;
    }
    let mut tag_lookup: Vec<Option<usize>> = Vec::new();
    let mut t: usize = 0;
    while t < 256
        invariant
            t <= 256,
            tag_lookup@.len() == t,
            forall|u: int|
                0 <= u < t ==> (#[trigger] tag_lookup@[u]) == (if find_field(
                    schema_view(fields@),
                    u as u8,
                ) >= 0 {
                    Some(find_field(schema_view(fields@), u as u8) as usize)
                } else {
                    None::<usize>
                }),
        decreases 256 - t,
    {
        let slot = scan_for_tag(&fields, t as u8);
        proof {
            lemma_find_field(schema_view(fields@), t as u8);
        }
        tag_lookup.push(slot);
        t = t + 1;
    }
    proof {
        assert forall|i: int, j: int| 0 <= i < j < fields@.len() implies (
        #[trigger] fields@[i]).tag != (#[trigger] fields@[j]).tag by {
            assert(schema_view(fields@)[i].tag == fields@[i].tag);
            assert(schema_view(fields@)[j].tag == fields@[j].tag);
        }
    }
    Ok(CompiledSchema { fields, tag_lookup })
}

/// One field of a host record handed to the schema-driven encoder: the
/// field's current value (`None` meaning absent) and whether the caller
/// explicitly set it.
pub struct FieldInput {
    pub value: Option<Value>,
    pub is_set: bool,
}

/// The model of a run of field inputs.
pub open spec fn inputs_view(s: Seq<FieldInput>) -> Seq<(Option<ValueModel>, bool)> {
    Seq::new(
        s.len(),
        |i: int|
            if 0 <= i < s.len() {
                (
                    match s[i].value {
                        Some(v) => Some(value_view(v)),
                        None => None,
                    },
                    s[i].is_set,
                )
            } else {
                (None::<ValueModel>, false)
            },
    )
}

/// The bytes one field encodes to under its declared type code, or the
/// encode error: a value of the wrong kind for the declared code is a
/// contextual error.
pub open spec fn enc_typed_field(m: ValueModel, tag: u8, code: u8, le: bool, depth: nat) -> Result<
    Seq<u8>,
    ErrModel,
> {
    if depth > MAX_DEPTH {
        Err(ErrModel::TooDeep)
    } else if code <= 3 {
        match m {
            ValueModel::Int(i) => Ok(crate::wire::int_enc(tag, i, le)),
            _ => Err(ErrModel::Ctx(0)),
        }
    } else if code == 4 {
        match m {
            ValueModel::Float(b) => Ok(crate::wire::float_enc(tag, b, le)),
            _ => Err(ErrModel::Ctx(0)),
        }
    } else if code == 5 {
        match m {
            ValueModel::Double(b) => Ok(crate::wire::double_enc(tag, b, le)),
            _ => Err(ErrModel::Ctx(0)),
        }
    } else if code == 6 || code == 7 {
        match m {
            ValueModel::Text(t) => {
                if t.len() < 0x100000000 {
                    Ok(crate::wire::string_enc(tag, t, le))
                } else {
                    Err(ErrModel::Ctx(0))
                }
            },
            _ => Err(ErrModel::Ctx(0)),
        }
    } else if code == 8 {
        match m {
            ValueModel::Mapping(ps) => {
                if ps.len() > 0x7fffffffffffffff {
                    Err(ErrModel::Ctx(0))
                } else {
                    match enc_pairs(ps, le, depth) {
                        Err(m2) => Err(m2),
                        Ok(parts) => Ok(
                            crate::wire::head_bytes(tag, 8) + crate::wire::int_enc(
                                0,
                                ps.len() as int,
                                le,
                            ) + parts,
                        ),
                    }
                }
            },
            _ => Err(ErrModel::Ctx(0)),
        }
    } else if code == 9 {
        match m {
            ValueModel::List(items) => {
                if items.len() > 0x7fffffffffffffff {
                    Err(ErrModel::Ctx(0))
                } else {
                    match enc_elems(items, le, depth) {
                        Err(m2) => Err(m2),
                        Ok(parts) => Ok(
                            crate::wire::head_bytes(tag, 9) + crate::wire::int_enc(
                                0,
                                items.len() as int,
                                le,
                            ) + parts,
                        ),
                    }
                }
            },
            _ => Err(ErrModel::Ctx(0)),
        }
    } else if code == 13 {
        match m {
            ValueModel::Bytes(b) => {
                if b.len() <= 0x7fffffffffffffff {
                    Ok(crate::wire::bytes_enc(tag, b, le))
                } else {
                    Err(ErrModel::Ctx(0))
                }
            },
            ValueModel::Struct(fs) => match enc_struct_body(fs, le, (depth + 1) as nat) {
                Err(m2) => Err(m2),
                Ok(body) => {
                    if body.len() <= 0x7fffffffffffffff {
                        Ok(crate::wire::bytes_enc(tag, body, le))
                    } else {
                        Err(ErrModel::Ctx(0))
                    }
                },
            },
            _ => match enc_field(m, 0, le, (depth + 1) as nat) {
                Err(m2) => Err(m2),
                Ok(inner) => {
                    if inner.len() <= 0x7fffffffffffffff {
                        Ok(crate::wire::bytes_enc(tag, inner, le))
                    } else {
                        Err(ErrModel::Ctx(0))
                    }
                },
            },
        }
    } else if code == 10 {
        match m {
            ValueModel::Struct(fs) => match enc_struct_body(fs, le, (depth + 1) as nat) {
                Err(m2) => Err(m2),
                Ok(body) => Ok(
                    crate::wire::head_bytes(tag, 10) + body + crate::wire::head_bytes(0, 11),
                ),
            },
            _ => Err(ErrModel::Ctx(0)),
        }
    } else {
        Err(ErrModel::Ctx(0))
    }
}

/// The bytes a whole record encodes to under a schema: each declared field
/// in declaration order, skipping absent values, values the caller never
/// set when that filter is on, and values equal to their declared default
/// when that filter is on.
pub open spec fn enc_schema_fields(
    vals: Seq<(Option<ValueModel>, bool)>,
    schema: Seq<FieldModel>,
    le: bool,
    omit_default: bool,
    exclude_unset: bool,
    depth: nat,
) -> Result<Seq<u8>, ErrModel>
    decreases schema.len(),
{
    if schema.len() == 0 || vals.len() == 0 {
        Ok(Seq::empty())
    } else {
        let f = schema[0];
        let rest = enc_schema_fields(
            vals.skip(1),
            schema.skip(1),
            le,
            omit_default,
            exclude_unset,
            depth,
        );
        if vals[0].0 is None || (exclude_unset && !vals[0].1) || (omit_default && vals[0].0
            == Some(f.default)) {
            rest
        } else {
            let one = if f.code == TYPE_INFER {
                enc_field(vals[0].0->0, f.tag, le, (depth + 1) as nat)
            } else {
                enc_typed_field(vals[0].0->0, f.tag, f.code, le, (depth + 1) as nat)
            };
            match one {
                Err(e) => Err(e),
                Ok(b) => match rest {
                    Err(e) => Err(e),
                    Ok(bs) => Ok(b + bs),
                },
            }
        }
    }
}

/// What the schema-driven struct encode appends: the depth cap is checked
/// once for the whole record, then every field is encoded in order.
pub open spec fn enc_struct_schema(
    vals: Seq<(Option<ValueModel>, bool)>,
    schema: Seq<FieldModel>,
    le: bool,
    omit_default: bool,
    exclude_unset: bool,
    depth: nat,
) -> Result<Seq<u8>, ErrModel> {
    if depth > MAX_DEPTH {
        Err(ErrModel::TooDeep)
    } else {
        enc_schema_fields(vals, schema, le, omit_default, exclude_unset, depth)
    }
}

/// Encodes one field under its declared type code, dispatching to the
/// writer operation that code names; a declared code of 255 is not handled
/// here but by the generic encoder. Every struct inside the value must list
/// its fields in ascending tag order — the order the value model fixes.
pub fn encode_field(w: &mut JceWriter, tag: u8, code: u8, value: &Value, depth: usize) -> (r:
    Result<(), Error>)
    requires
        crate::value::struct_tags_ordered(value@),
    ensures
        final(w).little() == old(w).little(),
        match enc_typed_field(value@, tag, code, old(w).little(), depth as nat) {
            Ok(bs) => r is Ok && final(w).bytes() == old(w).bytes() + bs,
            Err(m) => r is Err && matches_err(r->Err_0, m),
        },
    decreases *value, 2int,
{
    if depth > MAX_DEPTH {
        return Err(Error::DepthExceeded);
    }
    let ghost pre = w.bytes();
    let ghost le = w.little();
    if code <= 3 {
        match value {
            Value::Int(i) => {
                w.write_int(tag, *i);
                Ok(())
            },
            _ => Err(Error::new(0, "this field's declared type wants an integer")),
        }
    } else if code == 4 {
        match value {
            Value::Float(b) => {
                w.write_float(tag, *b);
                Ok(())
            },
            _ => Err(Error::new(0, "this field's declared type wants a float")),
        }
    } else if code == 5 {
        match value {
            Value::Double(b) => {
                w.write_double(tag, *b);
                Ok(())
            },
            _ => Err(Error::new(0, "this field's declared type wants a double")),
        }
    } else if code == 6 || code == 7 {
        match value {
            Value::Text(t) => {
                if (t.len() as u64) >= 0x100000000u64 {
                    return Err(Error::new(0, "text longer than the four-byte length field"));
                }
                w.write_string(tag, t.as_slice());
                Ok(())
            },
            _ => Err(Error::new(0, "this field's declared type wants text")),
        }
    } else if code == 8 {
        match value {
            Value::Mapping(pairs) => {
                if (pairs.len() as u64) > 0x7fffffffffffffffu64 {
                    return Err(Error::new(0, "map longer than the count field"));
                }
                w.write_tag(tag, JceType::Mapping);
                w.write_int(0, pairs.len() as i64);
                let ghost mid = w.bytes();
                proof {
                    assert forall|i: int|
                        0 <= i < pairs@.len() implies crate::value::struct_tags_ordered(
                        value_view((#[trigger] pairs@[i]).0),
                    ) && crate::value::struct_tags_ordered(value_view(pairs@[i].1)) by {
                        assert(crate::value::pairs_view(pairs@)[i].0 == value_view(pairs@[i].0));
                        assert(crate::value::pairs_view(pairs@)[i].1 == value_view(pairs@[i].1));
                    }
                }
                match encode_map_pairs(w, pairs, depth) {
                    Ok(()) => {
                        proof {
                            let parts = enc_pairs(
                                crate::value::pairs_view(pairs@),
                                le,
                                depth as nat,
                            )->Ok_0;
                            assert(pre + (crate::wire::head_bytes(tag, 8) + crate::wire::int_enc(
                                0,
                                pairs@.len() as int,
                                le,
                            ) + parts) =~= mid + parts);
                        }
                        Ok(())
                    },
                    Err(e) => Err(e),
                }
            },
            _ => Err(Error::new(0, "this field's declared type wants a map")),
        }
    } else if code == 9 {
        match value {
            Value::List(items) => {
                if (items.len() as u64) > 0x7fffffffffffffffu64 {
                    return Err(Error::new(0, "list longer than the count field"));
                }
                w.write_tag(tag, JceType::List);
                w.write_int(0, items.len() as i64);
                let ghost mid = w.bytes();
                proof {
                    assert forall|i: int|
                        0 <= i < items@.len() implies crate::value::struct_tags_ordered(
                        value_view(#[trigger] items@[i]),
                    ) by {
                        assert(crate::value::values_view(items@)[i] == value_view(items@[i]));
                    }
                }
                match encode_list_elems(w, items, depth) {
                    Ok(()) => {
                        proof {
                            let parts = enc_elems(
                                crate::value::values_view(items@),
                                le,
                                depth as nat,
                            )->Ok_0;
                            assert(pre + (crate::wire::head_bytes(tag, 9) + crate::wire::int_enc(
                                0,
                                items@.len() as int,
                                le,
                            ) + parts) =~= mid + parts);
                        }
                        Ok(())
                    },
                    Err(e) => Err(e),
                }
            },
            _ => Err(Error::new(0, "this field's declared type wants a list")),
        }
    } else if code == 13 {
        match value {
            Value::Bytes(b) => {
                if (b.len() as u64) > 0x7fffffffffffffffu64 {
                    return Err(Error::new(0, "byte array longer than the count field"));
                }
                w.write_bytes(tag, b.as_slice());
                Ok(())
            },
            Value::Struct(fields) => {
                let mut sub = JceWriter::with_endianness(w.endianness());
                match encode_generic_struct(&mut sub, fields, depth + 1) {
                    Ok(()) => (),
                    Err(e) => {
                        return Err(e);
                    },
                }
                let body = sub.get_buffer();
                if (body.len() as u64) > 0x7fffffffffffffffu64 {
                    return Err(Error::new(0, "byte array longer than the count field"));
                }
                w.write_bytes(tag, body);
                proof {
                    assert(Seq::<u8>::empty() + enc_struct_body(
                        crate::value::fields_view(fields@),
                        le,
                        (depth + 1) as nat,
                    )->Ok_0 =~= enc_struct_body(
                        crate::value::fields_view(fields@),
                        le,
                        (depth + 1) as nat,
                    )->Ok_0);
                }
                Ok(())
            },
            _ => {
                let mut sub = JceWriter::with_endianness(w.endianness());
                match encode_generic_field(&mut sub, 0, value, depth + 1) {
                    Ok(()) => (),
                    Err(e) => {
                        return Err(e);
                    },
                }
                let body = sub.get_buffer();
                if (body.len() as u64) > 0x7fffffffffffffffu64 {
                    return Err(Error::new(0, "byte array longer than the count field"));
                }
                w.write_bytes(tag, body);
                proof {
                    assert(Seq::<u8>::empty() + enc_field(
                        value@,
                        0,
                        le,
                        (depth + 1) as nat,
                    )->Ok_0 =~= enc_field(value@, 0, le, (depth + 1) as nat)->Ok_0);
                }
                Ok(())
            },
        }
    } else if code == 10 {
        match value {
            Value::Struct(fields) => {
                w.write_tag(tag, JceType::StructBegin);
                let ghost mid = w.bytes();
                match encode_generic_struct(w, fields, depth + 1) {
                    Ok(()) => (),
                    Err(e) => {
                        return Err(e);
                    },
                }
                let ghost body = enc_struct_body(
                    crate::value::fields_view(fields@),
                    le,
                    (depth + 1) as nat,
                )->Ok_0;
                w.write_tag(0, JceType::StructEnd);
                proof {
                    assert(pre + (crate::wire::head_bytes(tag, 10) + body
                        + crate::wire::head_bytes(0, 11)) =~= (mid + body)
                        + crate::wire::head_bytes(0, 11));
                }
                Ok(())
            },
            _ => Err(Error::new(0, "cannot encode this value as a struct")),
        }
    } else {
        Err(Error::new(0, "this declared type code cannot be encoded"))
    }
}

/// Encodes a whole record under a schema: walks the descriptors in
/// declaration order, filters fields as the options ask, and dispatches
/// each remaining field on its declared type code, or to the generic
/// encoder for an inferred field. Structs inside the field values must list
/// their fields in ascending tag order — the order the value model fixes.
#[verifier::rlimit(100)]
#[verifier::loop_isolation(false)]
pub fn encode_struct(
    w: &mut JceWriter,
    values: &Vec<FieldInput>,
    schema: &CompiledSchema,
    options: i32,
    depth: usize,
) -> (r: Result<(), Error>)
    requires
        values@.len() == schema@.len(),
        forall|i: int|
            0 <= i < values@.len() ==> ((#[trigger] values@[i]).value matches Some(v)
                ==> crate::value::struct_tags_ordered(value_view(v))),
    ensures
        final(w).little() == old(w).little(),
        match enc_struct_schema(
            inputs_view(values@),
            schema@,
            old(w).little(),
            options & OPT_OMIT_DEFAULT != 0,
            options & OPT_EXCLUDE_UNSET != 0,
            depth as nat,
        ) {
            Ok(bs) => r is Ok && final(w).bytes() == old(w).bytes() + bs,
            Err(m) => r is Err && matches_err(r->Err_0, m),
        },
{
    if depth > MAX_DEPTH {
        return Err(Error::DepthExceeded);
    }
    let omit_default = options & OPT_OMIT_DEFAULT != 0;
    let exclude_unset = options & OPT_EXCLUDE_UNSET != 0;
    let ghost pre = w.bytes();
    let ghost le = w.little();
    let ghost vv = inputs_view(values@);
    let ghost sv = schema@;
    let ghost mut acc = Seq::<u8>::empty();
    proof {
        assert(vv.skip(0) =~= vv);
        assert(sv.skip(0) =~= sv);
        if enc_schema_fields(vv, sv, le, omit_default, exclude_unset, depth as nat) is Ok {
            assert(Seq::<u8>::empty() + enc_schema_fields(
                vv,
                sv,
                le,
                omit_default,
                exclude_unset,
                depth as nat,
            )->Ok_0 =~= enc_schema_fields(
                vv,
                sv,
                le,
                omit_default,
                exclude_unset,
                depth as nat,
            )->Ok_0);
        }
    }
    let n = schema.field_count();
    let mut i: usize = 0;
    while i < n
        invariant
            i <= n,
            n == sv.len() == vv.len(),
            w.little() == le,
            w.bytes() == pre + acc,
            enc_schema_fields(vv, sv, le, omit_default, exclude_unset, depth as nat) == (
            match enc_schema_fields(
                vv.skip(i as int),
                sv.skip(i as int),
                le,
                omit_default,
                exclude_unset,
                depth as nat,
            ) {
                Ok(rest) => Ok::<Seq<u8>, ErrModel>(acc + rest),
                Err(m) => Err::<Seq<u8>, ErrModel>(m),
            }),
        decreases n - i,
    {
        proof {
            assert(vv.skip(i as int)[0] == vv[i as int]);
            assert(sv.skip(i as int)[0] == sv[i as int]);
            assert(vv.skip(i as int).skip(1) =~= vv.skip(i + 1));
            assert(sv.skip(i as int).skip(1) =~= sv.skip(i + 1));
        }
        let f = schema.field_at(i);
        let vi = &values[i];
        let mut skip_this = false;
        match &vi.value {
            None => {
                skip_this = true;
            },
            Some(v) => {
                if exclude_unset && !vi.is_set {
                    skip_this = true;
                } else if omit_default && value_eq(v, &f.default_val) {
                    skip_this = true;
                }
            },
        }
        if !skip_this {
            let v = match &vi.value {
                Some(v) => v,
                None => {
                    return Err(Error::new(0, "an absent field cannot be encoded"));
                },
            };
            let res = if f.tars_type == TYPE_INFER {
                encode_generic_field(w, f.tag, v, depth + 1)
            } else {
                encode_field(w, f.tag, f.tars_type, v, depth + 1)
            };
            match res {
                Ok(()) => (),
                Err(e) => {
                    return Err(e);
                },
            }
            proof {
                let one = if sv[i as int].code == TYPE_INFER {
                    enc_field(vv[i as int].0->0, sv[i as int].tag, le, (depth + 1) as nat)
                } else {
                    enc_typed_field(
                        vv[i as int].0->0,
                        sv[i as int].tag,
                        sv[i as int].code,
                        le,
                        (depth + 1) as nat,
                    )
                };
                let bi = one->Ok_0;
                if enc_schema_fields(
                    vv.skip(i + 1),
                    sv.skip(i + 1),
                    le,
                    omit_default,
                    exclude_unset,
                    depth as nat,
                ) is Ok {
                    let rest = enc_schema_fields(
                        vv.skip(i + 1),
                        sv.skip(i + 1),
                        le,
                        omit_default,
                        exclude_unset,
                        depth as nat,
                    )->Ok_0;
                    assert(acc + (bi + rest) =~= (acc + bi) + rest);
                }
                assert((pre + acc) + bi =~= pre + (acc + bi));
                acc = acc + bi;
            }
        }
        i = i + 1;
    }
    proof {
        assert(vv.skip(n as int) =~= Seq::<(Option<ValueModel>, bool)>::empty());
        assert(acc + Seq::<u8>::empty() =~= acc);
    }
    Ok(())
}

/// The declared type a numeric code names for the compatibility test: an
/// unknown code is treated as the payload-free zero type, as the compiled
/// lookup does.
pub open spec fn declared_type(code: u8) -> JceType {
    match crate::types::spec_type_of_code(code) {
        Some(t) => t,
        None => JceType::ZeroTag,
    }
}

/// The forward-compatibility table: which wire types a declared type code
/// accepts. Any integer width accepts any integer wire form; a double
/// accepts a float; strings accept both string widths; everything else
/// wants an exact match.
pub open spec fn is_compatible(code: u8, actual: JceType) -> bool {
    if code <= 3 {
        crate::wire::is_int_type(actual)
    } else if code == 4 {
        actual is Float
    } else if code == 5 {
        actual is Double || actual is Float
    } else if code == 6 || code == 7 {
        actual is String1 || actual is String4
    } else {
        actual == declared_type(code)
    }
}

/// The value one field decodes to under its declared type code: a wire type
/// the declaration does not accept degrades to the generic decoder rather
/// than failing; a compatible field is read by its actual wire form.
pub open spec fn dec_typed_field(
    data: Seq<u8>,
    pos: int,
    actual: JceType,
    code: u8,
    le: bool,
    depth: nat,
) -> Result<(ValueModel, int), ErrModel> {
    if depth > MAX_DEPTH {
        Err(ErrModel::TooDeep)
    } else if !is_compatible(code, actual) && !(actual is StructEnd) {
        dec_field(data, pos, actual, le, BytesMode::Auto, depth)
    } else if code <= 3 {
        match parse_int(data, pos, actual, le) {
            Err(m) => Err(m),
            Ok((v, p)) => Ok((ValueModel::Int(v), p)),
        }
    } else if code == 4 {
        if pos + 4 <= data.len() {
            Ok(
                (
                    ValueModel::Float(crate::nums::num_val(data.subrange(pos, pos + 4), le) as u32),
                    pos + 4,
                ),
            )
        } else {
            Err(ErrModel::Overflow(pos))
        }
    } else if code == 5 {
        if actual is Float {
            if pos + 4 <= data.len() {
                Ok(
                    (
                        ValueModel::Float(
                            crate::nums::num_val(data.subrange(pos, pos + 4), le) as u32,
                        ),
                        pos + 4,
                    ),
                )
            } else {
                Err(ErrModel::Overflow(pos))
            }
        } else {
            if pos + 8 <= data.len() {
                Ok(
                    (
                        ValueModel::Double(
                            crate::nums::num_val(data.subrange(pos, pos + 8), le) as u64,
                        ),
                        pos + 8,
                    ),
                )
            } else {
                Err(ErrModel::Overflow(pos))
            }
        }
    } else if code == 6 || code == 7 {
        match parse_string(data, pos, actual, le) {
            Err(m) => Err(m),
            Ok((t, p)) => Ok((ValueModel::Text(t), p)),
        }
    } else if code == 8 {
        match dec_field(data, pos, JceType::Mapping, le, BytesMode::Auto, depth) {
            Err(m) => Err(m),
            Ok(r) => Ok(r),
        }
    } else if code == 9 {
        match dec_field(data, pos, JceType::List, le, BytesMode::Auto, depth) {
            Err(m) => Err(m),
            Ok(r) => Ok(r),
        }
    } else if code == 13 {
        dec_field(data, pos, JceType::SimpleList, le, BytesMode::Raw, depth)
    } else if code == 10 {
        match dec_struct_rest(data, pos, le, BytesMode::Auto, depth, Seq::empty()) {
            Err(m) => Err(m),
            Ok((fs, p)) => Ok((ValueModel::Struct(fs), p)),
        }
    } else {
        Err(ErrModel::Ctx(pos))
    }
}

/// The per-index slots a schema-driven decode fills while walking the wire
/// stream: a known tag decodes into its field's slot, an unknown tag is
/// skipped, and the walk ends at a struct end marker or the end of the
/// buffer.
pub open spec fn dec_schema_fields(
    data: Seq<u8>,
    pos: int,
    schema: Seq<FieldModel>,
    le: bool,
    depth: nat,
    slots: Seq<Option<ValueModel>>,
) -> Result<(Seq<Option<ValueModel>>, int), ErrModel>
    decreases data.len() - pos,
{
    if pos >= data.len() {
        Ok((slots, pos))
    } else {
        match spec_head(data, pos) {
            None => Err(head_err(data, pos)),
            Some((tag, t, p1)) => {
                if t is StructEnd {
                    Ok((slots, p1))
                } else {
                    let fi = find_field(schema, tag);
                    if fi >= 0 {
                        let f = schema[fi];
                        let one = if f.code == TYPE_INFER {
                            dec_field(data, p1, t, le, BytesMode::Auto, (depth + 1) as nat)
                        } else {
                            dec_typed_field(data, p1, t, f.code, le, (depth + 1) as nat)
                        };
                        match one {
                            Err(m) => Err(m),
                            Ok((vm, p2)) => {
                                // A field never ends before its header
                                // began; the test keeps the recursion
                                // well-founded.
                                if pos < p2 <= data.len() {
                                    dec_schema_fields(
                                        data,
                                        p2,
                                        schema,
                                        le,
                                        depth,
                                        slots.update(fi, Some(vm)),
                                    )
                                } else {
                                    Err(ErrModel::Overflow(pos))
                                }
                            },
                        }
                    } else {
                        match skip_field_at(data, p1, t, le, 0) {
                            Err(m) => Err(m),
                            Ok(p2) => {
                                if pos < p2 <= data.len() {
                                    dec_schema_fields(data, p2, schema, le, depth, slots)
                                } else {
                                    Err(ErrModel::Overflow(pos))
                                }
                            },
                        }
                    }
                }
            },
        }
    }
}

/// The models of a run of decode slots.
pub open spec fn slots_view(s: Seq<Option<Value>>) -> Seq<Option<ValueModel>> {
    Seq::new(
        s.len(),
        |i: int|
            if 0 <= i < s.len() {
                match s[i] {
                    Some(v) => Some(value_view(v)),
                    None => None,
                }
            } else {
                None::<ValueModel>
            },
    )
}

/// Decodes one field under its declared type code; a wire type the
/// declaration does not accept is decoded generically instead.
pub fn decode_field(rd: &mut JceReader, actual: JceType, code: u8, depth: usize) -> (r: Result<
    Value,
    Error,
>)
    ensures
        final(rd).same_stream(*old(rd)),
        old(rd).at() <= final(rd).at() <= final(rd).bytes().len(),
        match dec_typed_field(
            old(rd).bytes(),
            old(rd).at(),
            actual,
            code,
            old(rd).little(),
            depth as nat,
        ) {
            Ok((vm, p)) => r is Ok && r->Ok_0@ == vm && final(rd).at() == p,
            Err(m) => r is Err && matches_err(r->Err_0, m),
        },
    decreases rd.bytes().len() - rd.at(), 4int, 0int,
{
    proof {
        use_type_invariant(&*rd);
    }
    if depth > MAX_DEPTH {
        return Err(Error::DepthExceeded);
    }
    let compatible = if code <= 3 {
        matches!(
            actual,
            JceType::Int1 | JceType::Int2 | JceType::Int4 | JceType::Int8 | JceType::ZeroTag
        )
    } else if code == 4 {
        matches!(actual, JceType::Float)
    } else if code == 5 {
        matches!(actual, JceType::Double | JceType::Float)
    } else if code == 6 || code == 7 {
        matches!(actual, JceType::String1 | JceType::String4)
    } else {
        let decl = match JceType::from_code(code) {
            Some(t) => t,
            None => JceType::ZeroTag,
        };
        actual == decl
    };
    if !compatible && !matches!(actual, JceType::StructEnd) {
        return decode_generic_field(rd, actual, BytesMode::Auto, depth);
    }
    if code <= 3 {
        match rd.read_int(actual) {
            Ok(v) => Ok(Value::Int(v)),
            Err(e) => Err(e),
        }
    } else if code == 4 {
        match rd.read_float() {
            Ok(bits) => Ok(Value::Float(bits)),
            Err(e) => Err(e),
        }
    } else if code == 5 {
        if matches!(actual, JceType::Float) {
            match rd.read_float() {
                Ok(bits) => Ok(Value::Float(bits)),
                Err(e) => Err(e),
            }
        } else {
            match rd.read_double() {
                Ok(bits) => Ok(Value::Double(bits)),
                Err(e) => Err(e),
            }
        }
    } else if code == 6 || code == 7 {
        match rd.read_string(actual) {
            Ok(s) => Ok(Value::Text(vstd::slice::slice_to_vec(s))),
            Err(e) => Err(e),
        }
    } else if code == 8 {
        decode_generic_field(rd, JceType::Mapping, BytesMode::Auto, depth)
    } else if code == 9 {
        decode_generic_field(rd, JceType::List, BytesMode::Auto, depth)
    } else if code == 13 {
        decode_generic_field(rd, JceType::SimpleList, BytesMode::Raw, depth)
    } else if code == 10 {
        match decode_generic_struct(rd, BytesMode::Auto, depth) {
            Ok(fields) => Ok(Value::Struct(fields)),
            Err(e) => Err(e),
        }
    } else {
        Err(Error::new(rd.position(), "this declared type code cannot be decoded"))
    }
}

/// Decodes a whole record under a schema: walks the wire stream, fills the
/// slot of each known tag (an inferred field through the generic decoder),
/// skips unknown tags, and, after the stream ends, fills every never-seen
/// field with its declared default. The result lists every declared field
/// by name, in declaration order.
#[verifier::rlimit(100)]
#[verifier::loop_isolation(false)]
pub fn decode_struct(rd: &mut JceReader, schema: &CompiledSchema, depth: usize) -> (r: Result<
    Vec<(String, Value)>,
    Error,
>)
    requires
        old(rd).depth_at() == 0,
    ensures
        final(rd).bytes() == old(rd).bytes(),
        final(rd).little() == old(rd).little(),
        old(rd).at() <= final(rd).at() <= final(rd).bytes().len(),
        depth > MAX_DEPTH ==> r == Err::<Vec<(String, Value)>, Error>(Error::DepthExceeded),
        depth <= MAX_DEPTH ==> match dec_schema_fields(
            old(rd).bytes(),
            old(rd).at(),
            schema@,
            old(rd).little(),
            depth as nat,
            Seq::new(schema@.len(), |i: int| None::<ValueModel>),
        ) {
            Ok((slots, p)) => r is Ok && final(rd).at() == p && r->Ok_0@.len() == schema@.len()
                && (forall|i: int|
                0 <= i < schema@.len() ==> (#[trigger] r->Ok_0@[i]).0@ == schema@[i].name
                    && value_view(r->Ok_0@[i].1) == (match slots[i] {
                    Some(vm) => vm,
                    None => schema@[i].default,
                })),
            Err(m) => r is Err && matches_err(r->Err_0, m),
        },
{
    proof {
        use_type_invariant(&*rd);
    }
    if depth > MAX_DEPTH {
        return Err(Error::DepthExceeded);
    }
    let ghost data = rd.bytes();
    let ghost le = rd.little();
    let ghost d = depth as nat;
    let ghost sv = schema@;
    let nf = schema.field_count();
    let mut slots: Vec<Option<Value>> = Vec::new();
    let mut si: usize = 0;
    while si < nf
        invariant
            si <= nf,
            slots@.len() == si,
            forall|j: int| 0 <= j < si ==> (#[trigger] slots@[j]) is None,
        decreases nf - si,
    {
        slots.push(None);
        si = si + 1;
    }
    proof {
        assert(slots_view(slots@) =~= Seq::new(sv.len(), |i: int| None::<ValueModel>));
    }
    let mut done = false;
    while !done
        invariant
            rd.same_stream(*old(rd)),
            old(rd).at() <= rd.at() <= rd.bytes().len(),
            slots@.len() == sv.len(),
            !done ==> dec_schema_fields(
                data,
                old(rd).at(),
                sv,
                le,
                d,
                Seq::new(sv.len(), |i: int| None::<ValueModel>),
            ) == dec_schema_fields(data, rd.at(), sv, le, d, slots_view(slots@)),
            done ==> dec_schema_fields(
                data,
                old(rd).at(),
                sv,
                le,
                d,
                Seq::new(sv.len(), |i: int| None::<ValueModel>),
            ) == Ok::<(Seq<Option<ValueModel>>, int), ErrModel>((slots_view(slots@), rd.at())),
        decreases rd.bytes().len() - rd.at() + (if done {
            0int
        } else {
            1int
        }),
    {
        if rd.is_end() {
            done = true;
        } else {
            let (tag, t) = match rd.read_head() {
                Ok(h) => h,
                Err(e) => {
                    return Err(e);
                },
            };
            if matches!(t, JceType::StructEnd) {
                done = true;
            } else {
                let ghost p1 = rd.at();
                match schema.lookup(tag) {
                    Some(idx) => {
                        let f = schema.field_at(idx);
                        let v = if f.tars_type == TYPE_INFER {
                            match decode_generic_field(rd, t, BytesMode::Auto, depth + 1) {
                                Ok(v) => v,
                                Err(e) => {
                                    return Err(e);
                                },
                            }
                        } else {
                            match decode_field(rd, t, f.tars_type, depth + 1) {
                                Ok(v) => v,
                                Err(e) => {
                                    return Err(e);
                                },
                            }
                        };
                        let ghost before = slots@;
                        let ghost vm = if sv[idx as int].code == TYPE_INFER {
                            dec_field(data, p1, t, le, BytesMode::Auto, (depth + 1) as nat)->Ok_0.0
                        } else {
                            dec_typed_field(
                                data,
                                p1,
                                t,
                                sv[idx as int].code,
                                le,
                                (depth + 1) as nat,
                            )->Ok_0.0
                        };
                        slots[idx] = Some(v);
                        proof {
                            assert(slots_view(slots@) =~= slots_view(before).update(
                                idx as int,
                                Some(vm),
                            ));
                        }
                    },
                    None => {
                        match rd.skip_field(t) {
                            Ok(()) => (),
                            Err(e) => {
                                return Err(e);
                            },
                        }
                    },
                }
            }
        }
    }
    let mut out: Vec<(String, Value)> = Vec::new();
    let mut i: usize = 0;
    while i < nf
        invariant
            i <= nf,
            nf == sv.len() == slots@.len(),
            out@.len() == i,
            forall|j: int|
                0 <= j < i ==> (#[trigger] out@[j]).0@ == sv[j].name && value_view(out@[j].1) == (
                match slots_view(slots@)[j] {
                    Some(vm) => vm,
                    None => sv[j].default,
                }),
        decreases nf - i,
    {
        let f = schema.field_at(i);
        let name = f.name.as_str().to_owned();
        let v = match &slots[i] {
            Some(v) => deep_copy(v),
            None => deep_copy(&f.default_val),
        };
        out.push((name, v));
        i = i + 1;
    }
    Ok(out)
}

/// Use the little-endian byte order for the whole call.
pub const OPT_LITTLE_ENDIAN: i32 = 1;

/// Encodes a whole record under a schema into fresh bytes, in the byte
/// order the options bit selects. Structs inside the field values must list
/// their fields in ascending tag order — the order the value model fixes.
pub fn dumps(values: &Vec<FieldInput>, schema: &CompiledSchema, options: i32) -> (r: Result<
    Vec<u8>,
    Error,
>)
    requires
        values@.len() == schema@.len(),
        forall|i: int|
            0 <= i < values@.len() ==> ((#[trigger] values@[i]).value matches Some(v)
                ==> crate::value::struct_tags_ordered(value_view(v))),
    ensures
        match enc_struct_schema(
            inputs_view(values@),
            schema@,
            options & OPT_LITTLE_ENDIAN != 0,
            options & OPT_OMIT_DEFAULT != 0,
            options & OPT_EXCLUDE_UNSET != 0,
            0,
        ) {
            Ok(bs) => r is Ok && r->Ok_0@ == bs,
            Err(m) => r is Err && matches_err(r->Err_0, m),
        },
{
    let mut w = JceWriter::new();
    w.set_little_endian(options & OPT_LITTLE_ENDIAN != 0);
    match encode_struct(&mut w, values, schema, options, 0) {
        Ok(()) => {
            let mut out: Vec<u8> = Vec::new();
            crate::writer::push_slice(&mut out, w.get_buffer());
            proof {
                assert(out@ =~= w.bytes());
            }
            Ok(out)
        },
        Err(e) => Err(e),
    }
}

/// Decodes a whole record under a schema from bytes, in the byte order the
/// options bit selects.
pub fn loads(data: &[u8], schema: &CompiledSchema, options: i32) -> (r: Result<
    Vec<(String, Value)>,
    Error,
>)
    ensures
        match dec_schema_fields(
            data@,
            0,
            schema@,
            options & OPT_LITTLE_ENDIAN != 0,
            0,
            Seq::new(schema@.len(), |i: int| None::<ValueModel>),
        ) {
            Ok((slots, p)) => r is Ok && r->Ok_0@.len() == schema@.len() && (forall|i: int|
                0 <= i < schema@.len() ==> (#[trigger] r->Ok_0@[i]).0@ == schema@[i].name
                    && value_view(r->Ok_0@[i].1) == (match slots[i] {
                    Some(vm) => vm,
                    None => schema@[i].default,
                })),
            Err(m) => r is Err && matches_err(r->Err_0, m),
        },
{
    let endian = if options & OPT_LITTLE_ENDIAN != 0 {
        crate::endian::Endianness::Little
    } else {
        crate::endian::Endianness::Big
    };
    let mut rd = JceReader::new(data, endian);
    decode_struct(&mut rd, schema, 0)
}

/// Encodes one structured value without a schema into fresh bytes: a whole
/// record's fields for a struct value, a single field under tag 0 for
/// anything else, as the schema-less entry point of the codec does. Every
/// struct inside the value must list its fields in ascending tag order —
/// the order the value model fixes — so the encoding is canonical.
pub fn dumps_generic(value: &Value, options: i32) -> (r: Result<Vec<u8>, Error>)
    requires
        crate::value::struct_tags_ordered(value@),
    ensures
        match (match value_view(*value) {
            ValueModel::Struct(fs) => crate::codec::enc_struct_body(
                fs,
                options & OPT_LITTLE_ENDIAN != 0,
                0,
            ),
            vm => enc_field(vm, 0, options & OPT_LITTLE_ENDIAN != 0, 0),
        }) {
            Ok(bs) => r is Ok && r->Ok_0@ == bs,
            Err(m) => r is Err && matches_err(r->Err_0, m),
        },
{
    let mut w = JceWriter::new();
    w.set_little_endian(options & OPT_LITTLE_ENDIAN != 0);
    let res = match value {
        Value::Struct(fields) => encode_generic_struct(&mut w, fields, 0),
        _ => encode_generic_field(&mut w, 0, value, 0),
    };
    match res {
        Ok(()) => {
            let mut out: Vec<u8> = Vec::new();
            crate::writer::push_slice(&mut out, w.get_buffer());
            proof {
                assert(out@ =~= w.bytes());
            }
            Ok(out)
        },
        Err(e) => Err(e),
    }
}

/// Decodes a whole schema-less packet body from bytes: the tag-to-value
/// record of its fields, under the chosen bytes-mode and byte order.
pub fn loads_generic(data: &[u8], options: i32, bytes_mode: u8) -> (r: Result<Value, Error>)
    ensures
        ({
            let mode = if bytes_mode == 1 {
                BytesMode::Text
            } else if bytes_mode == 2 {
                BytesMode::Auto
            } else {
                BytesMode::Raw
            };
            match dec_struct_rest(data@, 0, options & OPT_LITTLE_ENDIAN != 0, mode, 0, Seq::empty()) {
                Ok((fs, p)) => r is Ok && value_view(r->Ok_0) == ValueModel::Struct(fs),
                Err(m) => r is Err && matches_err(r->Err_0, m),
            }
        }),
{
    let endian = if options & OPT_LITTLE_ENDIAN != 0 {
        crate::endian::Endianness::Little
    } else {
        crate::endian::Endianness::Big
    };
    let mode = BytesMode::from_code(bytes_mode);
    let mut rd = JceReader::new(data, endian);
    match decode_generic_struct(&mut rd, mode, 0) {
        Ok(fields) => Ok(Value::Struct(fields)),
        Err(e) => Err(e),
    }
}

} // verus!
