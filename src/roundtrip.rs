use vstd::prelude::*;
use vstd::utf8::{encode_utf8, encode_utf8_valid_utf8, encode_utf8_decode_utf8};
use crate::bytes::{
    be16, be32, be64, get16, get32, get64, lemma_be16, lemma_be32, lemma_be64, lemma_signed_casts,
};
use crate::decode::{
    DecodeError, dec_str, dec_payload, dec_elems, dec_entries, dec_named, count_of,
};
use crate::encode::{
    enc_str, enc_i8s, enc_i32s, enc_i64s, enc_payload, enc_list, enc_entries, enc_named,
};
use crate::tag::{
    Value, wf, value_id, list_elem_id, keys_unique, has_key, lemma_entries_insert_absent,
};

verus! {

/// `x` stands in `b` at `p`.
pub open spec fn at(b: Seq<u8>, p: int, x: Seq<u8>) -> bool {
    0 <= p && p + x.len() <= b.len() && b.subrange(p, p + x.len()) == x
}

proof fn lemma_at_split(b: Seq<u8>, p: int, x: Seq<u8>, y: Seq<u8>)
    requires
        at(b, p, x + y),
    ensures
        at(b, p, x),
        at(b, p + x.len(), y),
{
    let w = b.subrange(p, p + x.len() + y.len());
    assert(w == x + y);
    assert(b.subrange(p, p + x.len()) =~= w.subrange(0, x.len() as int));
    assert(w.subrange(0, x.len() as int) =~= x);
    assert(b.subrange(p + x.len(), p + x.len() + y.len()) =~= w.subrange(
        x.len() as int,
        w.len() as int,
    ));
    assert(w.subrange(x.len() as int, w.len() as int) =~= y);
}

proof fn lemma_at_index(b: Seq<u8>, p: int, x: Seq<u8>, i: int)
    requires
        at(b, p, x),
        0 <= i < x.len(),
    ensures
        b[p + i] == x[i],
{
    assert(b.subrange(p, p + x.len())[i] == b[p + i]);
}

proof fn lemma_get16(b: Seq<u8>, p: int, x: u16)
    requires
        at(b, p, be16(x)),
    ensures
        get16(b, p) == x,
{
    lemma_at_index(b, p, be16(x), 0);
    lemma_at_index(b, p, be16(x), 1);
    lemma_be16(x);
}

proof fn lemma_get32(b: Seq<u8>, p: int, x: u32)
    requires
        at(b, p, be32(x)),
    ensures
        get32(b, p) == x,
{
    lemma_at_index(b, p, be32(x), 0);
    lemma_at_index(b, p, be32(x), 1);
    lemma_at_index(b, p, be32(x), 2);
    lemma_at_index(b, p, be32(x), 3);
    lemma_be32(x);
}

proof fn lemma_get64(b: Seq<u8>, p: int, x: u64)
    requires
        at(b, p, be64(x)),
    ensures
        get64(b, p) == x,
{
    lemma_at_split(b, p, be32((x >> 32u64) as u32), be32(x as u32));
    lemma_get32(b, p, (x >> 32u64) as u32);
    lemma_get32(b, p + 4, x as u32);
    lemma_be64(x);
}

proof fn lemma_count(n: nat)
    requires
        n <= 2147483647,
    ensures
        count_of(n as u32) == n,
{
    let x = n as u32;
    assert(x <= 2147483647u32 ==> (x as i32) >= 0) by (bit_vector);
}

proof fn lemma_dec_str(b: Seq<u8>, p: int, s: Seq<char>)
    requires
        at(b, p, enc_str(s)),
        encode_utf8(s).len() <= 65535,
    ensures
        dec_str(b, p) == Ok::<(Seq<char>, int), DecodeError>((s, p + enc_str(s).len())),
{
    let u = encode_utf8(s);
    lemma_at_split(b, p, be16(u.len() as u16), u);
    lemma_get16(b, p, u.len() as u16);
    encode_utf8_valid_utf8(s);
    encode_utf8_decode_utf8(s);
}

proof fn lemma_i32s_layout(s: Seq<i32>)
    ensures
        enc_i32s(s).len() == 4 * s.len(),
        forall|i: int|
            0 <= i < s.len() ==> #[trigger] enc_i32s(s).subrange(4 * i, 4 * i + 4) == be32(
                s[i] as u32,
            ),
    decreases s.len(),
{
    if s.len() > 0 {
        let init = s.drop_last();
        lemma_i32s_layout(init);
        assert forall|i: int| 0 <= i < s.len() implies #[trigger] enc_i32s(s).subrange(
            4 * i,
            4 * i + 4,
        ) == be32(s[i] as u32) by {
            if i < s.len() - 1 {
                assert(enc_i32s(s).subrange(4 * i, 4 * i + 4) =~= enc_i32s(init).subrange(
                    4 * i,
                    4 * i + 4,
                ));
                assert(init[i] == s[i]);
            } else {
                assert(enc_i32s(s).subrange(4 * i, 4 * i + 4) =~= be32(s[i] as u32));
            }
        }
    }
}

proof fn lemma_i64s_layout(s: Seq<i64>)
    ensures
        enc_i64s(s).len() == 8 * s.len(),
        forall|i: int|
            0 <= i < s.len() ==> #[trigger] enc_i64s(s).subrange(8 * i, 8 * i + 8) == be64(
                s[i] as u64,
            ),
    decreases s.len(),
{
    if s.len() > 0 {
        let init = s.drop_last();
        lemma_i64s_layout(init);
        assert forall|i: int| 0 <= i < s.len() implies #[trigger] enc_i64s(s).subrange(
            8 * i,
            8 * i + 8,
        ) == be64(s[i] as u64) by {
            if i < s.len() - 1 {
                assert(enc_i64s(s).subrange(8 * i, 8 * i + 8) =~= enc_i64s(init).subrange(
                    8 * i,
                    8 * i + 8,
                ));
                assert(init[i] == s[i]);
            } else {
                assert(enc_i64s(s).subrange(8 * i, 8 * i + 8) =~= be64(s[i] as u64));
            }
        }
    }
}


proof fn lemma_enc_list_front(s: Seq<Value>)
    requires
        s.len() > 0,
    ensures
        enc_list(s) == enc_payload(s[0]) + enc_list(s.subrange(1, s.len() as int)),
    decreases s.len(),
{
    let rest = s.subrange(1, s.len() as int);
    if s.len() == 1 {
        assert(s.subrange(0, 0) =~= Seq::<Value>::empty());
        assert(rest =~= Seq::<Value>::empty());
        assert(enc_list(s) =~= enc_payload(s[0]) + enc_list(rest));
    } else {
        let init = s.subrange(0, s.len() - 1);
        lemma_enc_list_front(init);
        assert(init.subrange(1, init.len() as int) =~= rest.subrange(0, rest.len() - 1));
        assert(rest[rest.len() - 1] == s[s.len() - 1]);
        assert(enc_list(s) =~= enc_payload(s[0]) + enc_list(rest));
    }
}

proof fn lemma_enc_entries_front(es: Seq<(Seq<char>, Value)>)
    requires
        es.len() > 0,
        !(es[0].1 is End),
    ensures
        enc_entries(es) == enc_named(es[0].0, es[0].1) + enc_entries(
            es.subrange(1, es.len() as int),
        ),
    decreases es.len(),
{
    let rest = es.subrange(1, es.len() as int);
    if es.len() == 1 {
        assert(es.subrange(0, 0) =~= Seq::<(Seq<char>, Value)>::empty());
        assert(rest =~= Seq::<(Seq<char>, Value)>::empty());
        assert(enc_entries(es) =~= enc_named(es[0].0, es[0].1) + enc_entries(rest));
    } else {
        let init = es.subrange(0, es.len() - 1);
        lemma_enc_entries_front(init);
        assert(init.subrange(1, init.len() as int) =~= rest.subrange(0, rest.len() - 1));
        assert(rest[rest.len() - 1] == es[es.len() - 1]);
        assert(enc_entries(es) =~= enc_named(es[0].0, es[0].1) + enc_entries(rest));
    }
}

proof fn lemma_enc_nonempty(v: Value)
    requires
        value_id(v) != 0,
    ensures
        enc_payload(v).len() >= 1,
{
    match v {
        Value::Byte(_) => {},
        Value::Short(_) => {},
        Value::Int(_) => {},
        Value::Long(_) => {},
        Value::Float(_) => {},
        Value::Double(_) => {},
        _ => {},
    }
}

/// Decoding the payload encoding of a well-formed value gives it back.
proof fn lemma_dec_payload(b: Seq<u8>, p: int, v: Value)
    requires
        wf(v),
        at(b, p, enc_payload(v)),
    ensures
        dec_payload(b, p, value_id(v)) == Ok::<(Value, int), DecodeError>(
            (v, p + enc_payload(v).len()),
        ),
    decreases v, 1int,
{
    let e = enc_payload(v);
    match v {
        Value::End => {},
        Value::Byte(x) => {
            lemma_at_index(b, p, e, 0);
            lemma_signed_casts(x, 0, 0, 0);
        },
        Value::Short(x) => {
            lemma_get16(b, p, x as u16);
            lemma_signed_casts(0, x, 0, 0);
        },
        Value::Int(x) => {
            lemma_get32(b, p, x as u32);
            lemma_signed_casts(0, 0, x, 0);
        },
        Value::Float(x) => {
            lemma_get32(b, p, x);
        },
        Value::Long(x) => {
            lemma_get64(b, p, x as u64);
            lemma_signed_casts(0, 0, 0, x);
        },
        Value::Double(x) => {
            lemma_get64(b, p, x);
        },
        Value::String(s) => {
            lemma_dec_str(b, p, s);
        },
        Value::ByteArray(s) => {
            lemma_at_split(b, p, be32(s.len() as u32), enc_i8s(s));
            lemma_get32(b, p, s.len() as u32);
            lemma_count(s.len());
            let q = p + 4;
            assert forall|i: int| 0 <= i < s.len() implies b[q + i] as i8 == s[i] by {
                lemma_at_index(b, q, enc_i8s(s), i);
                lemma_signed_casts(s[i], 0, 0, 0);
            }
            assert(Seq::new(s.len() as nat, |i: int| b[q + i] as i8) =~= s);
        },
        Value::IntArray(s) => {
            lemma_at_split(b, p, be32(s.len() as u32), enc_i32s(s));
            lemma_get32(b, p, s.len() as u32);
            lemma_count(s.len());
            lemma_i32s_layout(s);
            let q = p + 4;
            assert forall|i: int| 0 <= i < s.len() implies get32(b, q + 4 * i) as i32 == s[i] by {
                let w = enc_i32s(s);
                assert(w.subrange(4 * i, 4 * i + 4) == be32(s[i] as u32));
                assert(b.subrange(q + 4 * i, q + 4 * i + 4) =~= b.subrange(q, q + w.len()).subrange(
                    4 * i,
                    4 * i + 4,
                ));
                lemma_get32(b, q + 4 * i, s[i] as u32);
                lemma_signed_casts(0, 0, s[i], 0);
            }
            assert(Seq::new(s.len() as nat, |i: int| get32(b, q + 4 * i) as i32) =~= s);
        },
        Value::LongArray(s) => {
            lemma_at_split(b, p, be32(s.len() as u32), enc_i64s(s));
            lemma_get32(b, p, s.len() as u32);
            lemma_count(s.len());
            lemma_i64s_layout(s);
            let q = p + 4;
            assert forall|i: int| 0 <= i < s.len() implies get64(b, q + 8 * i) as i64 == s[i] by {
                let w = enc_i64s(s);
                assert(w.subrange(8 * i, 8 * i + 8) == be64(s[i] as u64));
                assert(b.subrange(q + 8 * i, q + 8 * i + 8) =~= b.subrange(q, q + w.len()).subrange(
                    8 * i,
                    8 * i + 8,
                ));
                lemma_get64(b, q + 8 * i, s[i] as u64);
                lemma_signed_casts(0, 0, 0, s[i]);
            }
            assert(Seq::new(s.len() as nat, |i: int| get64(b, q + 8 * i) as i64) =~= s);
        },
        Value::List(s) => {
            let head = seq![list_elem_id(s)] + be32(s.len() as u32);
            assert(e == head + enc_list(s));
            lemma_at_split(b, p, head, enc_list(s));
            lemma_at_split(b, p, seq![list_elem_id(s)], be32(s.len() as u32));
            lemma_at_index(b, p, seq![list_elem_id(s)], 0);
            lemma_get32(b, p + 1, s.len() as u32);
            lemma_count(s.len());
            if s.len() > 0 {
                assert(value_id(s[0]) != 0);
            }
            assert(decreases_to!(v => v->List_0));
            lemma_dec_elems(b, p + 5, list_elem_id(s), s, Seq::empty());
            assert(Seq::<Value>::empty() + s =~= s);
        },
        Value::Compound(es) => {
            assert(decreases_to!(v => v->Compound_0));
            lemma_dec_entries(b, p, es, Seq::empty());
            assert(Seq::<(Seq<char>, Value)>::empty() + es =~= es);
        },
    }
}

proof fn lemma_dec_elems(b: Seq<u8>, p: int, id: u8, s: Seq<Value>, acc: Seq<Value>)
    requires
        forall|i: int| 0 <= i < s.len() ==> wf(#[trigger] s[i]) && value_id(s[i]) == id && id != 0,
        at(b, p, enc_list(s)),
    ensures
        dec_elems(b, p, id, s.len() as int, acc) == Ok::<(Seq<Value>, int), DecodeError>(
            (acc + s, p + enc_list(s).len()),
        ),
    decreases s, 0int,
{
    if s.len() == 0 {
        assert(acc + s =~= acc);
    } else {
        let rest = s.subrange(1, s.len() as int);
        lemma_enc_list_front(s);
        lemma_at_split(b, p, enc_payload(s[0]), enc_list(rest));
        lemma_dec_payload(b, p, s[0]);
        lemma_enc_nonempty(s[0]);
        let q = p + enc_payload(s[0]).len();
        assert forall|i: int| 0 <= i < rest.len() implies wf(#[trigger] rest[i]) && value_id(rest[i])
            == id && id != 0 by {
            assert(rest[i] == s[i + 1]);
        }
        lemma_dec_elems(b, q, id, rest, acc.push(s[0]));
        assert(acc.push(s[0]) + rest =~= acc + s);
    }
}

proof fn lemma_dec_entries(
    b: Seq<u8>,
    p: int,
    es: Seq<(Seq<char>, Value)>,
    acc: Seq<(Seq<char>, Value)>,
)
    requires
        keys_unique(es),
        forall|i: int| 0 <= i < es.len() ==> !has_key(acc, (#[trigger] es[i]).0),
        forall|i: int|
            0 <= i < es.len() ==> {
                &&& encode_utf8((#[trigger] es[i]).0).len() <= 65535
                &&& value_id(es[i].1) != 0
                &&& wf(es[i].1)
            },
        at(b, p, enc_entries(es) + seq![0u8]),
    ensures
        dec_entries(b, p, acc) == Ok::<(Seq<(Seq<char>, Value)>, int), DecodeError>(
            (acc + es, p + enc_entries(es).len() + 1),
        ),
    decreases es, 0int,
{
    lemma_at_split(b, p, enc_entries(es), seq![0u8]);
    if es.len() == 0 {
        lemma_at_index(b, p, seq![0u8], 0);
        assert(acc + es =~= acc);
    } else {
        let e0 = es[0];
        let rest = es.subrange(1, es.len() as int);
        lemma_enc_entries_front(es);
        let named = enc_named(e0.0, e0.1);
        assert(enc_entries(es) + seq![0u8] =~= named + (enc_entries(rest) + seq![0u8]));
        lemma_at_split(b, p, named, enc_entries(rest) + seq![0u8]);
        let idb = seq![value_id(e0.1)];
        assert(named == idb + enc_str(e0.0) + enc_payload(e0.1));
        lemma_at_split(b, p, idb + enc_str(e0.0), enc_payload(e0.1));
        lemma_at_split(b, p, idb, enc_str(e0.0));
        lemma_at_index(b, p, idb, 0);
        lemma_dec_str(b, p + 1, e0.0);
        let q = p + 1 + enc_str(e0.0).len();
        assert(decreases_to!(es => es[0]));
        assert(decreases_to!(e0 => e0.1));
        lemma_dec_payload(b, q, e0.1);
        lemma_entries_insert_absent(acc, e0.0, e0.1);
        let acc2 = acc.push(e0);
        assert forall|i: int| 0 <= i < rest.len() implies !has_key(acc2, (#[trigger] rest[i]).0) by {
            assert(rest[i] == es[i + 1]);
            assert(es[0].0 != es[i + 1].0);
            if has_key(acc2, rest[i].0) {
                let j = choose|j: int| 0 <= j < acc2.len() && acc2[j].0 == rest[i].0;
                if j < acc.len() {
                    assert(acc[j].0 == es[i + 1].0);
                }
            }
        }
        assert forall|i: int| 0 <= i < rest.len() implies {
            &&& encode_utf8((#[trigger] rest[i]).0).len() <= 65535
            &&& value_id(rest[i].1) != 0
            &&& wf(rest[i].1)
        } by {
            assert(rest[i] == es[i + 1]);
        }
        assert(keys_unique(rest)) by {
            assert forall|i: int, j: int| 0 <= i < j < rest.len() implies rest[i].0 != rest[j].0 by {
                assert(rest[i] == es[i + 1]);
                assert(rest[j] == es[j + 1]);
            }
        }
        assert(e0 == (e0.0, e0.1));
        lemma_dec_entries(b, q + enc_payload(e0.1).len(), rest, acc2);
        assert(acc2 + rest =~= acc + es);
    }
}

/// Decoding the uncompressed encoding of a well-formed named root gives the
/// same name and value back, and reads every byte.
pub proof fn lemma_round_trip(name: Seq<char>, v: Value)
    requires
        wf(v),
        !(v is End),
        encode_utf8(name).len() <= 65535,
    ensures
        dec_named(enc_named(name, v), 0) == Ok::<((Seq<char>, Value), int), DecodeError>(
            ((name, v), enc_named(name, v).len() as int),
        ),
{
    let b = enc_named(name, v);
    let idb = seq![value_id(v)];
    assert(b.subrange(0, b.len() as int) =~= b);
    assert(b == idb + enc_str(name) + enc_payload(v));
    lemma_at_split(b, 0, idb + enc_str(name), enc_payload(v));
    lemma_at_split(b, 0, idb, enc_str(name));
    lemma_at_index(b, 0, idb, 0);
    lemma_dec_str(b, 1, name);
    lemma_dec_payload(b, 1 + enc_str(name).len() as int, v);
}

} // verus!
