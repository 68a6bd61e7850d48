//! The laws of the codec, stated and proved once over the wire grammar:
//! chiefly, that decoding an encoded value yields the value back.

use vstd::prelude::*;
use vstd::arithmetic::div_mod::{lemma_fundamental_div_mod_converse, lemma_small_mod};
use crate::codec::BytesMode;
use crate::codec::{dec_elems, dec_field, dec_pairs, dec_struct_rest};
use crate::codec::{enc_elems, enc_field, enc_fields, enc_pairs, enc_struct_body};
use crate::nums::{
    lemma_num_bytes_len, lemma_num_round_trip, lemma_wrap_round_trip, num_bytes, num_val, pow256,
    trunc_i32, unwrap_signed, wrap_unsigned,
};
use crate::types::{JceType, spec_type_code, spec_type_of_code};
use crate::value::{ValueModel, wf_value};
use crate::wire::{
    MAX_DEPTH, ErrModel, bytes_enc, double_enc, float_enc, head_bytes, int_enc, int_payload,
    parse_int, parse_size, parse_string, spec_head, spec_int_type, string_enc,
    lemma_pow256_values,
};

verus! {

/// Splitting a matched concatenation: when a byte range holds `a + b`, its
/// two halves hold `a` and `b`.
pub proof fn lemma_subrange_split(data: Seq<u8>, pos: int, a: Seq<u8>, b: Seq<u8>)
    requires
        0 <= pos,
        pos + a.len() + b.len() <= data.len(),
        data.subrange(pos, pos + a.len() + b.len()) == a + b,
    ensures
        data.subrange(pos, pos + a.len()) == a,
        data.subrange(pos + a.len(), pos + a.len() + b.len()) == b,
{
    let whole = data.subrange(pos, pos + a.len() + b.len());
    assert forall|i: int| 0 <= i < a.len() implies data.subrange(pos, pos + a.len())[i] == a[i] by {
        assert(whole[i] == (a + b)[i]);
    }
    assert(data.subrange(pos, pos + a.len()) =~= a);
    assert forall|i: int|
        0 <= i < b.len() implies data.subrange(pos + a.len(), pos + a.len() + b.len())[i]
        == b[i] by {
        assert(whole[a.len() + i] == (a + b)[a.len() + i]);
    }
    assert(data.subrange(pos + a.len(), pos + a.len() + b.len()) =~= b);
}

/// A header byte splits back into its tag and type code.
proof fn lemma_head_byte(tag: u8, code: u8)
    requires
        tag < 15,
        code < 16,
    ensures
        (tag * 16 + code) / 16 == tag,
        (tag * 16 + code) % 16 == code,
        tag * 16 + code < 256,
{
    lemma_fundamental_div_mod_converse((tag * 16 + code) as int, 16, tag as int, code as int);
}

/// The length of a field header: one byte, or two for tags of 15 and above.
pub proof fn lemma_head_len(tag: u8, code: u8)
    ensures
        head_bytes(tag, code).len() == (if tag < 15 {
            1int
        } else {
            2int
        }),
{
}

/// A well-formed header placed at `pos` parses back to its tag and type.
pub proof fn lemma_parse_head(data: Seq<u8>, pos: int, tag: u8, code: u8)
    requires
        code < 14,
        0 <= pos,
        pos + head_bytes(tag, code).len() <= data.len(),
        data.subrange(pos, pos + head_bytes(tag, code).len()) == head_bytes(tag, code),
    ensures
        spec_head(data, pos) == Some(
            (
                tag,
                spec_type_of_code(code)->0,
                pos + head_bytes(tag, code).len(),
            ),
        ),
{
    let h = head_bytes(tag, code);
    if tag < 15 {
        assert(data[pos] == data.subrange(pos, pos + 1)[0]);
        assert(data[pos] == tag * 16 + code);
        lemma_head_byte(tag, code);
    } else {
        assert(data[pos] == data.subrange(pos, pos + 2)[0]);
        assert(data[pos + 1] == data.subrange(pos, pos + 2)[1]);
        assert(data[pos] == 240 + code);
        assert((240 + code) / 16 == 15 && (240 + code) % 16 == code) by {
            lemma_fundamental_div_mod_converse((240 + code) as int, 16, 15, code as int);
        }
    }
}

/// A whole integer field placed at `pos` parses back to its tag, its chosen
/// wire type, and its value.
pub proof fn lemma_parse_int_field(data: Seq<u8>, pos: int, tag: u8, v: int, le: bool)
    requires
        -0x8000000000000000 <= v < 0x8000000000000000,
        0 <= pos,
        pos + int_enc(tag, v, le).len() <= data.len(),
        data.subrange(pos, pos + int_enc(tag, v, le).len()) == int_enc(tag, v, le),
    ensures
        ({
            let t = spec_int_type(v);
            let hl = head_bytes(tag, spec_type_code(t)).len();
            &&& spec_head(data, pos) == Some((tag, t, pos + hl))
            &&& parse_int(data, pos + hl, t, le) == Ok::<(int, int), ErrModel>(
                (v, pos + int_enc(tag, v, le).len()),
            )
        }),
{
    lemma_pow256_values();
    let t = spec_int_type(v);
    let code = spec_type_code(t);
    let h = head_bytes(tag, code);
    let payload = int_payload(v, le);
    if v == 0 {
    } else if -128 <= v < 128 {
        crate::nums::lemma_num_bytes_len(wrap_unsigned(v, 0x100), 1, le);
    } else if -0x8000 <= v < 0x8000 {
        crate::nums::lemma_num_bytes_len(wrap_unsigned(v, 0x10000), 2, le);
    } else if -0x80000000 <= v < 0x80000000 {
        crate::nums::lemma_num_bytes_len(wrap_unsigned(v, 0x100000000), 4, le);
    } else {
        crate::nums::lemma_num_bytes_len(wrap_unsigned(v, 0x10000000000000000), 8, le);
    }
    lemma_subrange_split(data, pos, h, payload);
    lemma_parse_head(data, pos, tag, code);
    crate::types::lemma_type_code_round_trip(t);
    let p1 = pos + h.len();
    if v == 0 {
    } else if -128 <= v < 128 {
        lemma_wrap_round_trip(v, 0x100);
        lemma_num_round_trip(wrap_unsigned(v, 0x100), 1, le);
    } else if -0x8000 <= v < 0x8000 {
        lemma_wrap_round_trip(v, 0x10000);
        lemma_num_round_trip(wrap_unsigned(v, 0x10000), 2, le);
    } else if -0x80000000 <= v < 0x80000000 {
        lemma_wrap_round_trip(v, 0x100000000);
        lemma_num_round_trip(wrap_unsigned(v, 0x100000000), 4, le);
    } else {
        lemma_wrap_round_trip(v, 0x10000000000000000);
        lemma_num_round_trip(wrap_unsigned(v, 0x10000000000000000), 8, le);
    }
}

/// A whole integer field holding a small non-negative count parses back as
/// a container size, untouched by the 32-bit truncation.
pub proof fn lemma_parse_size_field(data: Seq<u8>, pos: int, tag: u8, v: int, le: bool)
    requires
        0 <= v <= 0x7fffffff,
        0 <= pos,
        pos + int_enc(tag, v, le).len() <= data.len(),
        data.subrange(pos, pos + int_enc(tag, v, le).len()) == int_enc(tag, v, le),
    ensures
        parse_size(data, pos, le) == Ok::<(int, int), ErrModel>(
            (v, pos + int_enc(tag, v, le).len()),
        ),
{
    lemma_parse_int_field(data, pos, tag, v, le);
    lemma_pow256_values();
    assert(trunc_i32(v) == v) by {
        lemma_small_mod(v as nat, 0x100000000);
    }
}

/// An encoded field is never empty: it starts with its header.
pub proof fn lemma_enc_field_len(m: ValueModel, tag: u8, le: bool, d: nat)
    requires
        enc_field(m, tag, le, d) is Ok,
    ensures
        enc_field(m, tag, le, d)->Ok_0.len() >= 1,
{
    // The integer arm is the one whose header code is not a literal: name
    // its header so that its length joins the others, which unfold.
    lemma_head_len(tag, spec_type_code(spec_int_type(0)));
}

/// The leaf cases of the round trip: integers, floating-point bit
/// patterns, text and byte arrays.
#[verifier::rlimit(100)]
proof fn lemma_round_trip_leaf(
    data: Seq<u8>,
    pos: int,
    m: ValueModel,
    tag: u8,
    le: bool,
    d: nat,
    dd: nat,
)
    requires
        m is Int || m is Float || m is Double || m is Text || m is Bytes,
        wf_value(m),
        enc_field(m, tag, le, d) is Ok,
        dd <= d,
        0 <= pos,
        pos + enc_field(m, tag, le, d)->Ok_0.len() <= data.len(),
        data.subrange(pos, pos + enc_field(m, tag, le, d)->Ok_0.len()) == enc_field(
            m,
            tag,
            le,
            d,
        )->Ok_0,
    ensures
        spec_head(data, pos) is Some,
        ({
            let h = spec_head(data, pos)->0;
            &&& h.0 == tag
            &&& !(h.1 is StructEnd)
            &&& dec_field(data, h.2, h.1, le, BytesMode::Raw, dd) == Ok::<
                (ValueModel, int),
                ErrModel,
            >((m, pos + enc_field(m, tag, le, d)->Ok_0.len()))
        }),
{
    lemma_pow256_values();
    let bs = enc_field(m, tag, le, d)->Ok_0;
    match m {
        ValueModel::Int(i) => {
            lemma_parse_int_field(data, pos, tag, i, le);
        },
        ValueModel::Float(b) => {
            let h = head_bytes(tag, 4);
            lemma_num_bytes_len(b as nat, 4, le);
            lemma_subrange_split(data, pos, h, num_bytes(b as nat, 4, le));
            lemma_parse_head(data, pos, tag, 4);
            lemma_num_round_trip(b as nat, 4, le);
        },
        ValueModel::Double(b) => {
            let h = head_bytes(tag, 5);
            lemma_num_bytes_len(b as nat, 8, le);
            lemma_subrange_split(data, pos, h, num_bytes(b as nat, 8, le));
            lemma_parse_head(data, pos, tag, 5);
            lemma_num_round_trip(b as nat, 8, le);
        },
        ValueModel::Text(t) => {
            if t.len() <= 255 {
                let h = head_bytes(tag, 6);
                assert(bs =~= h + (seq![t.len() as u8] + t));
                lemma_subrange_split(data, pos, h, seq![t.len() as u8] + t);
                lemma_parse_head(data, pos, tag, 6);
                let p1 = pos + h.len();
                lemma_subrange_split(data, p1, seq![t.len() as u8], t);
                assert(data[p1] == data.subrange(p1, p1 + 1)[0]);
            } else {
                let h = head_bytes(tag, 7);
                lemma_num_bytes_len(t.len(), 4, le);
                assert(bs =~= h + (num_bytes(t.len(), 4, le) + t));
                lemma_subrange_split(data, pos, h, num_bytes(t.len(), 4, le) + t);
                lemma_parse_head(data, pos, tag, 7);
                let p1 = pos + h.len();
                lemma_subrange_split(data, p1, num_bytes(t.len(), 4, le), t);
                lemma_num_round_trip(t.len(), 4, le);
            }
        },
        ValueModel::Bytes(b) => {
            let h = head_bytes(tag, 13);
            let cnt = int_enc(0, b.len() as int, le);
            assert(bs =~= h + (seq![0u8] + cnt + b));
            lemma_subrange_split(data, pos, h, seq![0u8] + cnt + b);
            lemma_parse_head(data, pos, tag, 13);
            let p1 = pos + h.len();
            assert(seq![0u8] + cnt + b =~= seq![0u8] + (cnt + b));
            lemma_subrange_split(data, p1, seq![0u8], cnt + b);
            assert(data[p1] == data.subrange(p1, p1 + 1)[0]);
            lemma_subrange_split(data, p1 + 1, cnt, b);
            lemma_parse_size_field(data, p1 + 1, 0, b.len() as int, le);
        },
        _ => {
            assert(false);
        },
    }
}

/// Decoding an encoded field at the place it was written yields the value
/// back: the header parses to the written tag and a type that is never the
/// struct end marker, and the payload decodes to the encoded value, for any
/// decode depth no deeper than the encode depth.
#[verifier::rlimit(100)]
pub proof fn lemma_round_trip_field(
    data: Seq<u8>,
    pos: int,
    m: ValueModel,
    tag: u8,
    le: bool,
    d: nat,
    dd: nat,
)
    requires
        wf_value(m),
        enc_field(m, tag, le, d) is Ok,
        dd <= d,
        0 <= pos,
        pos + enc_field(m, tag, le, d)->Ok_0.len() <= data.len(),
        data.subrange(pos, pos + enc_field(m, tag, le, d)->Ok_0.len()) == enc_field(
            m,
            tag,
            le,
            d,
        )->Ok_0,
    ensures
        spec_head(data, pos) is Some,
        ({
            let h = spec_head(data, pos)->0;
            &&& h.0 == tag
            &&& !(h.1 is StructEnd)
            &&& dec_field(data, h.2, h.1, le, BytesMode::Raw, dd) == Ok::<
                (ValueModel, int),
                ErrModel,
            >((m, pos + enc_field(m, tag, le, d)->Ok_0.len()))
        }),
    decreases m, 1int,
{
    lemma_pow256_values();
    let bs = enc_field(m, tag, le, d)->Ok_0;
    match m {
        ValueModel::List(items) => {
            let h = head_bytes(tag, 9);
            let cnt = int_enc(0, items.len() as int, le);
            let parts = enc_elems(items, le, d)->Ok_0;
            assert(bs =~= h + (cnt + parts));
            lemma_subrange_split(data, pos, h, cnt + parts);
            lemma_parse_head(data, pos, tag, 9);
            let p1 = pos + h.len();
            lemma_subrange_split(data, p1, cnt, parts);
            lemma_parse_size_field(data, p1, 0, items.len() as int, le);
            let q = p1 + cnt.len();
            lemma_round_trip_elems(data, q, items, le, d, dd);
            assert((if items.len() as int > 0 {
                items.len() as nat
            } else {
                0nat
            }) == items.len());
        },
        ValueModel::Mapping(pairs) => {
            let h = head_bytes(tag, 8);
            let cnt = int_enc(0, pairs.len() as int, le);
            let parts = enc_pairs(pairs, le, d)->Ok_0;
            assert(bs =~= h + (cnt + parts));
            lemma_subrange_split(data, pos, h, cnt + parts);
            lemma_parse_head(data, pos, tag, 8);
            let p1 = pos + h.len();
            lemma_subrange_split(data, p1, cnt, parts);
            lemma_parse_size_field(data, p1, 0, pairs.len() as int, le);
            let q = p1 + cnt.len();
            lemma_round_trip_pairs(data, q, pairs, le, d, dd, Seq::empty());
            assert(Seq::<(ValueModel, ValueModel)>::empty() + pairs =~= pairs);
            assert((if pairs.len() as int > 0 {
                pairs.len() as nat
            } else {
                0nat
            }) == pairs.len());
        },
        ValueModel::Struct(fields) => {
            let h = head_bytes(tag, 10);
            let body = enc_struct_body(fields, le, (d + 1) as nat)->Ok_0;
            assert(bs =~= h + (body + head_bytes(0, 11)));
            lemma_subrange_split(data, pos, h, body + head_bytes(0, 11));
            lemma_parse_head(data, pos, tag, 10);
            let p1 = pos + h.len();
            assert(head_bytes(0, 11) =~= seq![11u8]);
            assert(data.subrange(p1, p1 + body.len() + 1) == body + seq![11u8]);
            // Strictly ascending tags are in particular pairwise distinct.
            assert forall|i: int, j: int|
                0 <= i < j < fields.len() implies (#[trigger] fields[i]).0 != (
            #[trigger] fields[j]).0 by {}
            lemma_round_trip_struct_fields(data, p1, fields, le, (d + 1) as nat, dd, Seq::empty());
            assert(Seq::<(u8, ValueModel)>::empty() + fields =~= fields);
        },
        ValueModel::Absent => {
            assert(false);
        },
        _ => {
            lemma_round_trip_leaf(data, pos, m, tag, le, d, dd);
        },
    }
}

/// Decoding a run of encoded list elements yields the elements back.
#[verifier::rlimit(60)]
pub proof fn lemma_round_trip_elems(
    data: Seq<u8>,
    pos: int,
    s: Seq<ValueModel>,
    le: bool,
    d: nat,
    dd: nat,
)
    requires
        forall|i: int| 0 <= i < s.len() ==> wf_value(#[trigger] s[i]),
        enc_elems(s, le, d) is Ok,
        dd <= d,
        dd <= MAX_DEPTH,
        0 <= pos,
        pos + enc_elems(s, le, d)->Ok_0.len() <= data.len(),
        data.subrange(pos, pos + enc_elems(s, le, d)->Ok_0.len()) == enc_elems(s, le, d)->Ok_0,
    ensures
        dec_elems(data, pos, s.len(), le, BytesMode::Raw, dd) == Ok::<
            (Seq<ValueModel>, int),
            ErrModel,
        >((s, pos + enc_elems(s, le, d)->Ok_0.len())),
    decreases s, 0int,
{
    if s.len() == 0 {
        assert(s =~= Seq::<ValueModel>::empty());
    } else {
        let b0 = enc_field(s[0], 0, le, (d + 1) as nat)->Ok_0;
        let rest = enc_elems(s.skip(1), le, d)->Ok_0;
        assert(enc_elems(s, le, d)->Ok_0 == b0 + rest);
        lemma_subrange_split(data, pos, b0, rest);
        lemma_round_trip_field(data, pos, s[0], 0, le, (d + 1) as nat, (dd + 1) as nat);
        lemma_enc_field_len(s[0], 0, le, (d + 1) as nat);
        let p2 = pos + b0.len();
        assert forall|i: int| 0 <= i < s.skip(1).len() implies wf_value(
            #[trigger] s.skip(1)[i],
        ) by {
            assert(s.skip(1)[i] == s[i + 1]);
        }
        lemma_round_trip_elems(data, p2, s.skip(1), le, d, dd);
        assert(seq![s[0]] + s.skip(1) =~= s);
    }
}

/// Decoding a run of encoded map entries extends the collected map by the
/// pairs, in order: with the keys pairwise distinct and none already
/// collected, every entry is newly appended.
#[verifier::rlimit(60)]
pub proof fn lemma_round_trip_pairs(
    data: Seq<u8>,
    pos: int,
    s: Seq<(ValueModel, ValueModel)>,
    le: bool,
    d: nat,
    dd: nat,
    acc: Seq<(ValueModel, ValueModel)>,
)
    requires
        forall|i: int|
            0 <= i < s.len() ==> wf_value((#[trigger] s[i]).0) && wf_value(s[i].1),
        forall|i: int, j: int| 0 <= i < j < s.len() ==> (#[trigger] s[i]).0 != (#[trigger] s[j]).0,
        forall|i: int, j: int|
            0 <= i < acc.len() && 0 <= j < s.len() ==> (#[trigger] acc[i]).0 != (
            #[trigger] s[j]).0,
        enc_pairs(s, le, d) is Ok,
        dd <= d,
        dd <= MAX_DEPTH,
        0 <= pos,
        pos + enc_pairs(s, le, d)->Ok_0.len() <= data.len(),
        data.subrange(pos, pos + enc_pairs(s, le, d)->Ok_0.len()) == enc_pairs(s, le, d)->Ok_0,
    ensures
        dec_pairs(data, pos, s.len(), le, BytesMode::Raw, dd, acc) == Ok::<
            (Seq<(ValueModel, ValueModel)>, int),
            ErrModel,
        >((acc + s, pos + enc_pairs(s, le, d)->Ok_0.len())),
    decreases s, 0int,
{
    if s.len() == 0 {
        assert(acc + s =~= acc);
    } else {
        let kb = enc_field(s[0].0, 0, le, (d + 1) as nat)->Ok_0;
        let vb = enc_field(s[0].1, 1, le, (d + 1) as nat)->Ok_0;
        let rest = enc_pairs(s.skip(1), le, d)->Ok_0;
        assert(enc_pairs(s, le, d)->Ok_0 == kb + vb + rest);
        assert(kb + vb + rest =~= kb + (vb + rest));
        lemma_subrange_split(data, pos, kb, vb + rest);
        lemma_round_trip_field(data, pos, s[0].0, 0, le, (d + 1) as nat, (dd + 1) as nat);
        lemma_enc_field_len(s[0].0, 0, le, (d + 1) as nat);
        let p2 = pos + kb.len();
        lemma_subrange_split(data, p2, vb, rest);
        lemma_round_trip_field(data, p2, s[0].1, 1, le, (d + 1) as nat, (dd + 1) as nat);
        lemma_enc_field_len(s[0].1, 1, le, (d + 1) as nat);
        let p4 = p2 + vb.len();
        // The first key is new to the collected map, so it is appended.
        crate::codec::lemma_find_key(acc, s[0].0);
        if crate::codec::find_key(acc, s[0].0) >= 0 {
            assert(acc[crate::codec::find_key(acc, s[0].0)].0 != s[0].0);
        }
        assert((s[0].0, s[0].1) == s[0]);
        let acc2 = acc.push(s[0]);
        assert forall|i: int|
            0 <= i < s.skip(1).len() implies wf_value((#[trigger] s.skip(1)[i]).0) && wf_value(
            s.skip(1)[i].1,
        ) by {
            assert(s.skip(1)[i] == s[i + 1]);
        }
        assert forall|i: int, j: int|
            0 <= i < j < s.skip(1).len() implies (#[trigger] s.skip(1)[i]).0 != (
        #[trigger] s.skip(1)[j]).0 by {
            assert(s.skip(1)[i] == s[i + 1] && s.skip(1)[j] == s[j + 1]);
        }
        assert forall|i: int, j: int|
            0 <= i < acc2.len() && 0 <= j < s.skip(1).len() implies (#[trigger] acc2[i]).0 != (
        #[trigger] s.skip(1)[j]).0 by {
            assert(s.skip(1)[j] == s[j + 1]);
            if i < acc.len() {
                assert(acc2[i] == acc[i]);
            } else {
                assert(acc2[i] == s[0]);
            }
        }
        lemma_round_trip_pairs(data, p4, s.skip(1), le, d, dd, acc2);
        assert(acc2 + s.skip(1) =~= acc + s);
    }
}

/// Decoding a run of encoded struct fields followed by the end marker
/// extends the collected record by the tagged fields, in order, the marker
/// consumed: with the tags pairwise distinct and none already collected,
/// every field is newly appended.
#[verifier::rlimit(60)]
pub proof fn lemma_round_trip_struct_fields(
    data: Seq<u8>,
    pos: int,
    s: Seq<(u8, ValueModel)>,
    le: bool,
    de: nat,
    dd: nat,
    acc: Seq<(u8, ValueModel)>,
)
    requires
        forall|i: int| 0 <= i < s.len() ==> wf_value((#[trigger] s[i]).1),
        forall|i: int, j: int| 0 <= i < j < s.len() ==> (#[trigger] s[i]).0 != (#[trigger] s[j]).0,
        forall|i: int, j: int|
            0 <= i < acc.len() && 0 <= j < s.len() ==> (#[trigger] acc[i]).0 != (
            #[trigger] s[j]).0,
        enc_struct_body(s, le, de) is Ok,
        dd < de,
        dd <= MAX_DEPTH,
        0 <= pos,
        pos + enc_struct_body(s, le, de)->Ok_0.len() + 1 <= data.len(),
        data.subrange(pos, pos + enc_struct_body(s, le, de)->Ok_0.len() + 1) == enc_struct_body(
            s,
            le,
            de,
        )->Ok_0 + seq![11u8],
    ensures
        dec_struct_rest(data, pos, le, BytesMode::Raw, dd, acc) == Ok::<
            (Seq<(u8, ValueModel)>, int),
            ErrModel,
        >((acc + s, pos + enc_struct_body(s, le, de)->Ok_0.len() + 1)),
    decreases s, 2int,
{
    let bsf = enc_struct_body(s, le, de)->Ok_0;
    assert(enc_struct_body(s, le, de) == enc_fields(s, le, de));
    if s.len() == 0 {
        assert(acc + s =~= acc);
        assert(data.subrange(pos, pos + 1) =~= seq![11u8]);
        assert(head_bytes(0, 11) =~= seq![11u8]);
        lemma_parse_head(data, pos, 0, 11);
    } else {
        let b0 = enc_field(s[0].1, s[0].0, le, (de + 1) as nat)->Ok_0;
        let bsr = enc_fields(s.skip(1), le, de)->Ok_0;
        assert(bsf == b0 + bsr);
        assert((b0 + bsr) + seq![11u8] =~= b0 + (bsr + seq![11u8]));
        lemma_subrange_split(data, pos, b0, bsr + seq![11u8]);
        lemma_round_trip_field(data, pos, s[0].1, s[0].0, le, (de + 1) as nat, (dd + 1) as nat);
        lemma_enc_field_len(s[0].1, s[0].0, le, (de + 1) as nat);
        let p2 = pos + b0.len();
        // The first tag is new to the collected record, so it is appended.
        crate::codec::lemma_find_tag(acc, s[0].0);
        if crate::codec::find_tag(acc, s[0].0) >= 0 {
            assert(acc[crate::codec::find_tag(acc, s[0].0)].0 != s[0].0);
        }
        assert((s[0].0, s[0].1) == s[0]);
        let acc2 = acc.push(s[0]);
        assert(enc_struct_body(s.skip(1), le, de) == enc_fields(s.skip(1), le, de));
        assert forall|i: int| 0 <= i < s.skip(1).len() implies wf_value(
            (#[trigger] s.skip(1)[i]).1,
        ) by {
            assert(s.skip(1)[i] == s[i + 1]);
        }
        assert forall|i: int, j: int|
            0 <= i < j < s.skip(1).len() implies (#[trigger] s.skip(1)[i]).0 != (
        #[trigger] s.skip(1)[j]).0 by {
            assert(s.skip(1)[i] == s[i + 1] && s.skip(1)[j] == s[j + 1]);
        }
        assert forall|i: int, j: int|
            0 <= i < acc2.len() && 0 <= j < s.skip(1).len() implies (#[trigger] acc2[i]).0 != (
        #[trigger] s.skip(1)[j]).0 by {
            assert(s.skip(1)[j] == s[j + 1]);
            if i < acc.len() {
                assert(acc2[i] == acc[i]);
            } else {
                assert(acc2[i] == s[0]);
            }
        }
        lemma_round_trip_struct_fields(data, p2, s.skip(1), le, de, dd, acc2);
        assert(acc2 + s.skip(1) =~= acc + s);
    }
}

/// The round trip of the generic codec: decoding the encoding of any
/// well-formed structured value under the raw bytes-mode yields the value
/// back, with the whole encoding consumed.
pub proof fn lemma_decode_encode_round_trip(m: ValueModel, tag: u8, le: bool)
    requires
        wf_value(m),
        enc_field(m, tag, le, 0) is Ok,
    ensures
        ({
            let bs = enc_field(m, tag, le, 0)->Ok_0;
            let h = spec_head(bs, 0)->0;
            &&& spec_head(bs, 0) is Some
            &&& h.0 == tag
            &&& dec_field(bs, h.2, h.1, le, BytesMode::Raw, 0) == Ok::<
                (ValueModel, int),
                ErrModel,
            >((m, bs.len() as int))
        }),
{
    let bs = enc_field(m, tag, le, 0)->Ok_0;
    assert(bs.subrange(0, bs.len() as int) =~= bs);
    lemma_round_trip_field(bs, 0, m, tag, le, 0, 0);
}

/// Integer zero is always the single-byte zero-type header, and the
/// zero-type wire form always decodes to zero, consuming nothing.
pub proof fn lemma_zero_integer(tag: u8, le: bool, data: Seq<u8>, pos: int)
    requires
        0 <= pos <= data.len(),
    ensures
        int_enc(tag, 0, le) == head_bytes(tag, 12),
        tag < 15 ==> int_enc(tag, 0, le).len() == 1,
        parse_int(data, pos, JceType::ZeroTag, le) == Ok::<(int, int), ErrModel>((0, pos)),
{
    assert(int_enc(tag, 0, le) =~= head_bytes(tag, 12));
}

/// Width selection is minimal: each integer wire form is chosen exactly for
/// the values that no narrower form holds.
pub proof fn lemma_minimal_integer_width(v: int)
    ensures
        spec_int_type(v) is ZeroTag <==> v == 0,
        spec_int_type(v) is Int1 <==> (v != 0 && -0x80 <= v < 0x80),
        spec_int_type(v) is Int2 <==> (!(-0x80 <= v < 0x80) && -0x8000 <= v < 0x8000),
        spec_int_type(v) is Int4 <==> (!(-0x8000 <= v < 0x8000) && -0x80000000 <= v
            < 0x80000000),
        spec_int_type(v) is Int8 <==> !(-0x80000000 <= v < 0x80000000),
{
}

/// Tags below 15 take the one-byte header; tags of 15 and above take the
/// two-byte extended header carrying the whole tag in its second byte.
pub proof fn lemma_extended_tag_header(tag: u8, code: u8)
    requires
        code < 16,
    ensures
        head_bytes(tag, code).len() == (if tag < 15 {
            1int
        } else {
            2int
        }),
        tag >= 15 ==> head_bytes(tag, code)[1] == tag,
{
}

/// Past the depth cap, every encode and decode is the depth error rather
/// than a deeper walk.
pub proof fn lemma_depth_cap(
    data: Seq<u8>,
    pos: int,
    t: JceType,
    m: ValueModel,
    tag: u8,
    le: bool,
    mode: BytesMode,
    depth: nat,
)
    requires
        depth > MAX_DEPTH,
    ensures
        dec_field(data, pos, t, le, mode, depth) == Err::<(ValueModel, int), ErrModel>(
            ErrModel::TooDeep,
        ),
        dec_struct_rest(data, pos, le, mode, depth, Seq::empty()) == Err::<
            (Seq<(u8, ValueModel)>, int),
            ErrModel,
        >(ErrModel::TooDeep),
        enc_field(m, tag, le, depth) == Err::<Seq<u8>, ErrModel>(ErrModel::TooDeep),
{
}

/// The three frame states: too few bytes for the length field or the packet
/// is "awaiting"; an inclusive length shorter than its own field, or a
/// packet over the maximum, is the matching fatal error; otherwise the
/// packet is ready with its exact size.
pub proof fn lemma_frame_states(f: crate::framing::JceFramer, buffer: Seq<u8>)
    ensures
        ({
            let hl = f.length_type as int;
            let ps = f.spec_packet_size(buffer);
            &&& buffer.len() < hl ==> f.spec_check_frame(buffer) == Ok::<
                Option<int>,
                crate::framing::FrameError,
            >(None)
            &&& (buffer.len() >= hl && f.inclusive_length && ps < hl) ==> f.spec_check_frame(
                buffer,
            ) == Err::<Option<int>, crate::framing::FrameError>(
                crate::framing::FrameError::InvalidLength(ps as usize, hl as usize),
            )
            &&& (buffer.len() >= hl && !(f.inclusive_length && ps < hl) && ps
                > f.max_frame_size) ==> f.spec_check_frame(buffer) == Err::<
                Option<int>,
                crate::framing::FrameError,
            >(crate::framing::FrameError::FrameTooLarge(ps as usize, f.max_frame_size))
            &&& (buffer.len() >= hl && !(f.inclusive_length && ps < hl) && ps
                <= f.max_frame_size) ==> f.spec_check_frame(buffer) == (if buffer.len() < ps {
                Ok::<Option<int>, crate::framing::FrameError>(None)
            } else {
                Ok::<Option<int>, crate::framing::FrameError>(Some(ps))
            })
        }),
{
}

/// The bytes-content heuristic: safe text decodes as text; otherwise a blob
/// that scans as one complete well-formed struct and decodes without error
/// comes back as that struct; anything else stays raw bytes.
pub proof fn lemma_bytes_mode_auto(b: Seq<u8>, le: bool, depth: nat)
    ensures
        crate::utf8::safe_text(b) ==> crate::codec::dec_blob(b, le, BytesMode::Auto, depth)
            == ValueModel::Text(b),
        (!crate::utf8::safe_text(b) && crate::wire::validate_rest(b, 0, le) == Ok::<
            int,
            ErrModel,
        >(b.len() as int) && dec_struct_rest(
            b,
            0,
            le,
            BytesMode::Auto,
            (depth + 1) as nat,
            Seq::empty(),
        ) is Ok) ==> crate::codec::dec_blob(b, le, BytesMode::Auto, depth) == ValueModel::Struct(
            dec_struct_rest(b, 0, le, BytesMode::Auto, (depth + 1) as nat, Seq::empty())->Ok_0.0,
        ),
        (!crate::utf8::safe_text(b) && !(crate::wire::validate_rest(b, 0, le) == Ok::<
            int,
            ErrModel,
        >(b.len() as int))) ==> crate::codec::dec_blob(b, le, BytesMode::Auto, depth)
            == ValueModel::Bytes(b),
{
}

/// A struct decode skips a field whose tag no descriptor declares, and
/// continues after it with nothing recorded.
pub proof fn lemma_unknown_tag_skipped(
    data: Seq<u8>,
    pos: int,
    schema: Seq<crate::schema::FieldModel>,
    le: bool,
    depth: nat,
    slots: Seq<Option<ValueModel>>,
)
    requires
        0 <= pos < data.len(),
        spec_head(data, pos) is Some,
        ({
            let h = spec_head(data, pos)->0;
            !(h.1 is StructEnd) && crate::schema::find_field(schema, h.0) < 0
        }),
    ensures
        ({
            let h = spec_head(data, pos)->0;
            match crate::wire::skip_field_at(data, h.2, h.1, le, 0) {
                Ok(p2) => (pos < p2 <= data.len()) ==> crate::schema::dec_schema_fields(
                    data,
                    pos,
                    schema,
                    le,
                    depth,
                    slots,
                ) == crate::schema::dec_schema_fields(data, p2, schema, le, depth, slots),
                Err(m) => crate::schema::dec_schema_fields(data, pos, schema, le, depth, slots)
                    == Err::<(Seq<Option<ValueModel>>, int), ErrModel>(m),
            }
        }),
{
}

} // verus!
