use vstd::prelude::*;
use vstd::utf8::encode_utf8;
use crate::bytes::{be16, be32, be64};
use crate::tag::{
    Tag, Value, value_id, list_elem_id, wf, values_of, entries_of, lemma_values_of,
    lemma_entries_of,
};

verus! {

/// A string on the wire: its UTF-8 length as a `u16`, then its UTF-8 bytes.
pub open spec fn enc_str(s: Seq<char>) -> Seq<u8> {
    be16(encode_utf8(s).len() as u16) + encode_utf8(s)
}

pub open spec fn enc_i8s(s: Seq<i8>) -> Seq<u8> {
    s.map_values(|x: i8| x as u8)
}

pub open spec fn enc_i32s(s: Seq<i32>) -> Seq<u8>
    decreases s.len(),
{
    if s.len() == 0 {
        Seq::empty()
    } else {
        enc_i32s(s.drop_last()) + be32(s.last() as u32)
    }
}

pub open spec fn enc_i64s(s: Seq<i64>) -> Seq<u8>
    decreases s.len(),
{
    if s.len() == 0 {
        Seq::empty()
    } else {
        enc_i64s(s.drop_last()) + be64(s.last() as u64)
    }
}

/// The wire payload of a value (without id or name).
pub open spec fn enc_payload(v: Value) -> Seq<u8>
    decreases v, 0int,
{
    match v {
        Value::End => Seq::empty(),
        Value::Byte(x) => seq![x as u8],
        Value::Short(x) => be16(x as u16),
        Value::Int(x) => be32(x as u32),
        Value::Long(x) => be64(x as u64),
        Value::Float(x) => be32(x),
        Value::Double(x) => be64(x),
        Value::ByteArray(s) => be32(s.len() as u32) + enc_i8s(s),
        Value::String(s) => enc_str(s),
        Value::List(s) => seq![list_elem_id(s)] + be32(s.len() as u32) + enc_list(s),
        Value::Compound(es) => enc_entries(es) + seq![0u8],
        Value::IntArray(s) => be32(s.len() as u32) + enc_i32s(s),
        Value::LongArray(s) => be32(s.len() as u32) + enc_i64s(s),
    }
}

pub open spec fn enc_list(s: Seq<Value>) -> Seq<u8>
    decreases s, 0int,
{
    if s.len() == 0 {
        Seq::empty()
    } else {
        enc_list(s.subrange(0, s.len() - 1)) + enc_payload(s[s.len() - 1])
    }
}

/// The entries of a compound in order; entries whose value is `End` are left out.
pub open spec fn enc_entries(es: Seq<(Seq<char>, Value)>) -> Seq<u8>
    decreases es, 0int,
{
    if es.len() == 0 {
        Seq::empty()
    } else {
        let e = es[es.len() - 1];
        enc_entries(es.subrange(0, es.len() - 1)) + if e.1 is End {
            Seq::empty()
        } else {
            enc_named(e.0, e.1)
        }
    }
}

/// A named tag on the wire: id, name, payload.
pub open spec fn enc_named(name: Seq<char>, v: Value) -> Seq<u8>
    decreases v, 1int,
{
    seq![value_id(v)] + enc_str(name) + enc_payload(v)
}

fn put_u16(out: &mut Vec<u8>, x: u16)
    ensures
        final(out)@ == old(out)@ + be16(x),
{
    out.push((x >> 8u16) as u8);
    out.push(x as u8);
    assert(final(out)@ =~= old(out)@ + be16(x));
}

fn put_u32(out: &mut Vec<u8>, x: u32)
    ensures
        final(out)@ == old(out)@ + be32(x),
{
    out.push((x >> 24u32) as u8);
    out.push((x >> 16u32) as u8);
    out.push((x >> 8u32) as u8);
    out.push(x as u8);
    assert(final(out)@ =~= old(out)@ + be32(x));
}

fn put_u64(out: &mut Vec<u8>, x: u64)
    ensures
        final(out)@ == old(out)@ + be64(x),
{
    put_u32(out, (x >> 32u64) as u32);
    put_u32(out, x as u32);
    assert(final(out)@ =~= old(out)@ + be64(x));
}

fn put_str(out: &mut Vec<u8>, s: &str)
    requires
        encode_utf8(s@).len() <= 65535,
    ensures
        final(out)@ == old(out)@ + enc_str(s@),
{
    let b = s.as_bytes();
    put_u16(out, b.len() as u16);
    let ghost mid = out@;
    let mut i: usize = 0;
    while i < b.len()
        invariant
            b@ == encode_utf8(s@),
            out@ == mid + b@.subrange(0, i as int),
            i <= b@.len(),
        decreases b@.len() - i,
    {
        out.push(b[i]);
        i += 1;
        assert(out@ =~= mid + b@.subrange(0, i as int));
    }
    assert(b@.subrange(0, b@.len() as int) =~= b@);
    assert(final(out)@ =~= old(out)@ + enc_str(s@));
}


fn put_i8s(out: &mut Vec<u8>, v: &Vec<i8>)
    requires
        v@.len() <= 2147483647,
    ensures
        final(out)@ == old(out)@ + be32(v@.len() as u32) + enc_i8s(v@),
{
    let ghost start = out@;
    put_u32(out, v.len() as u32);
    let ghost mid = out@;
    let mut i: usize = 0;
    while i < v.len()
        invariant
            i <= v@.len(),
            out@ == mid + enc_i8s(v@.subrange(0, i as int)),
        decreases v@.len() - i,
    {
        out.push(#[verifier::truncate] (v[i] as u8));
        assert(out@ =~= mid + enc_i8s(v@.subrange(0, i as int + 1)));
        i += 1;
    }
    assert(v@.subrange(0, v@.len() as int) =~= v@);
    assert(out@ =~= start + be32(v@.len() as u32) + enc_i8s(v@));
}

fn put_i32s(out: &mut Vec<u8>, v: &Vec<i32>)
    requires
        v@.len() <= 2147483647,
    ensures
        final(out)@ == old(out)@ + be32(v@.len() as u32) + enc_i32s(v@),
{
    let ghost start = out@;
    put_u32(out, v.len() as u32);
    let ghost mid = out@;
    let mut i: usize = 0;
    while i < v.len()
        invariant
            i <= v@.len(),
            out@ == mid + enc_i32s(v@.subrange(0, i as int)),
        decreases v@.len() - i,
    {
        put_u32(out, #[verifier::truncate] (v[i] as u32));
        assert(v@.subrange(0, i + 1).drop_last() =~= v@.subrange(0, i as int));
        i += 1;
    }
    assert(v@.subrange(0, v@.len() as int) =~= v@);
    assert(out@ =~= start + be32(v@.len() as u32) + enc_i32s(v@));
}

fn put_i64s(out: &mut Vec<u8>, v: &Vec<i64>)
    requires
        v@.len() <= 2147483647,
    ensures
        final(out)@ == old(out)@ + be32(v@.len() as u32) + enc_i64s(v@),
{
    let ghost start = out@;
    put_u32(out, v.len() as u32);
    let ghost mid = out@;
    let mut i: usize = 0;
    while i < v.len()
        invariant
            i <= v@.len(),
            out@ == mid + enc_i64s(v@.subrange(0, i as int)),
        decreases v@.len() - i,
    {
        put_u64(out, #[verifier::truncate] (v[i] as u64));
        assert(v@.subrange(0, i + 1).drop_last() =~= v@.subrange(0, i as int));
        i += 1;
    }
    assert(v@.subrange(0, v@.len() as int) =~= v@);
    assert(out@ =~= start + be32(v@.len() as u32) + enc_i64s(v@));
}

#[verifier::rlimit(40)]
fn encode_payload(out: &mut Vec<u8>, t: &Tag)
    requires
        wf(t@),
    ensures
        final(out)@ == old(out)@ + enc_payload(t@),
    decreases t, 0int,
{
    let ghost start = out@;
    match t {
        Tag::End => {
            assert(out@ =~= start + enc_payload(t@));
        },
        Tag::Byte(x) => {
            out.push(#[verifier::truncate] (*x as u8));
            assert(out@ =~= start + enc_payload(t@));
        },
        Tag::Short(x) => put_u16(out, #[verifier::truncate] (*x as u16)),
        Tag::Int(x) => put_u32(out, #[verifier::truncate] (*x as u32)),
        Tag::Long(x) => put_u64(out, #[verifier::truncate] (*x as u64)),
        Tag::Float(x) => put_u32(out, *x),
        Tag::Double(x) => put_u64(out, *x),
        Tag::ByteArray(v) => put_i8s(out, v),
        Tag::String(s) => put_str(out, s.as_str()),
        Tag::List(v) => {
            proof {
                lemma_values_of(v@);
            }
            let ghost vals = values_of(v@);
            let id: u8 = if v.len() == 0 {
                0
            } else {
                v[0].id()
            };
            out.push(id);
            put_u32(out, v.len() as u32);
            let ghost mid = out@;
            let mut i: usize = 0;
            while i < v.len()
                invariant
                    i <= v@.len(),
                    vals == values_of(v@),
                    *t == Tag::List(*v),
                    vals.len() == v@.len(),
                    forall|j: int| 0 <= j < v@.len() ==> #[trigger] vals[j] == v@[j]@,
                    forall|j: int| 0 <= j < v@.len() ==> wf(#[trigger] vals[j]),
                    out@ == mid + enc_list(vals.subrange(0, i as int)),
                decreases v@.len() - i,
            {
                assert(wf(vals[i as int]));
                proof {
                    assert(decreases_to!(*t => (*t)->List_0));
                    assert(decreases_to!(*v => v@));
                    assert(decreases_to!(v@ => v@[i as int]));
                }
                encode_payload(out, &v[i]);
                proof {
                    let sub = vals.subrange(0, i + 1);
                    assert(sub.subrange(0, i as int) =~= vals.subrange(0, i as int));
                    assert(sub[i as int] == vals[i as int]);
                }
                i += 1;
            }
            assert(vals.subrange(0, vals.len() as int) =~= vals);
            assert(out@ =~= start + enc_payload(t@));
        },
        Tag::Compound(es) => {
            proof {
                lemma_entries_of(es@);
            }
            let ghost ents = entries_of(es@);
            let mut i: usize = 0;
            while i < es.len()
                invariant
                    i <= es@.len(),
                    ents == entries_of(es@),
                    *t == Tag::Compound(*es),
                    ents.len() == es@.len(),
                    forall|j: int|
                        0 <= j < es@.len() ==> #[trigger] ents[j] == (es@[j].0@, es@[j].1@),
                    forall|j: int|
                        0 <= j < es@.len() ==> {
                            &&& encode_utf8((#[trigger] ents[j]).0).len() <= 65535
                            &&& wf(ents[j].1)
                        },
                    out@ == start + enc_entries(ents.subrange(0, i as int)),
                decreases es@.len() - i,
            {
                let e = &es[i];
                assert(ents[i as int] == (e.0@, e.1@));
                proof {
                    let sub = ents.subrange(0, i + 1);
                    assert(sub.subrange(0, i as int) =~= ents.subrange(0, i as int));
                    assert(sub[i as int] == ents[i as int]);
                }
                match &e.1 {
                    Tag::End => {},
                    _ => {
                        proof {
                            assert(decreases_to!(*t => (*t)->Compound_0));
                            assert(decreases_to!(*es => es@));
                            assert(decreases_to!(es@ => es@[i as int]));
                            assert(decreases_to!(es@[i as int] => es@[i as int].1));
                        }
                        encode_named(out, e.0.as_str(), &e.1);
                    },
                }
                i += 1;
            }
            out.push(0u8);
            assert(ents.subrange(0, ents.len() as int) =~= ents);
            assert(out@ =~= start + enc_payload(t@));
        },
        Tag::IntArray(v) => put_i32s(out, v),
        Tag::LongArray(v) => put_i64s(out, v),
    }
}

pub(crate) fn encode_named(out: &mut Vec<u8>, name: &str, t: &Tag)
    requires
        wf(t@),
        encode_utf8(name@).len() <= 65535,
    ensures
        final(out)@ == old(out)@ + enc_named(name@, t@),
    decreases t, 1int,
{
    let ghost start = out@;
    out.push(t.id());
    put_str(out, name);
    encode_payload(out, t);
    assert(out@ =~= start + enc_named(name@, t@));
}

} // verus!
