use vstd::prelude::*;
use vstd::utf8::{valid_utf8, decode_utf8, encode_utf8, decode_utf8_encode_utf8};
use crate::bytes::{get16, get32, get64};
use crate::tag::{
    Tag, Value, compound_insert, entries_insert, values_of, entries_of, lemma_values_of,
    wf, value_id, list_elem_id, keys_unique, lemma_insert_keeps_unique,
    lemma_wf_list, lemma_wf_compound,
};

verus! {

/// Why a byte buffer is not a tag.
#[derive(Debug, Clone, Copy, PartialEq, Eq, Structural)]
pub enum DecodeError {
    /// The buffer ends before a read that the format requires.
    Truncated,
    /// A name or string is not valid UTF-8.
    InvalidUtf8,
    /// A kind id outside 0..=12.
    UnknownId(u8),
    /// A non-empty list whose element id is that of `End`.
    EndInList,
}

pub type DecodeResult<T> = Result<(T, int), DecodeError>;

/// A length-prefixed UTF-8 string at `p`, and the position after it.
pub open spec fn dec_str(b: Seq<u8>, p: int) -> DecodeResult<Seq<char>> {
    if p < 0 || p + 2 > b.len() {
        Err(DecodeError::Truncated)
    } else {
        let n = get16(b, p) as int;
        if p + 2 + n > b.len() {
            Err(DecodeError::Truncated)
        } else if !valid_utf8(b.subrange(p + 2, p + 2 + n)) {
            Err(DecodeError::InvalidUtf8)
        } else {
            Ok((decode_utf8(b.subrange(p + 2, p + 2 + n)), p + 2 + n))
        }
    }
}

/// An `i32` length read as an element count: negative lengths count as zero.
pub open spec fn count_of(n: u32) -> int {
    if (n as i32) < 0 {
        0
    } else {
        n as int
    }
}

/// The payload of kind `id` at `p`, and the position after it.
pub open spec fn dec_payload(b: Seq<u8>, p: int, id: u8) -> DecodeResult<Value>
    decreases b.len() - p, 2int,
{
    if p < 0 || p > b.len() {
        Err(DecodeError::Truncated)
    } else if id == 0 {
        Ok((Value::End, p))
    } else if id == 1 {
        if p + 1 > b.len() {
            Err(DecodeError::Truncated)
        } else {
            Ok((Value::Byte(b[p] as i8), p + 1))
        }
    } else if id == 2 {
        if p + 2 > b.len() {
            Err(DecodeError::Truncated)
        } else {
            Ok((Value::Short(get16(b, p) as i16), p + 2))
        }
    } else if id == 3 || id == 5 {
        if p + 4 > b.len() {
            Err(DecodeError::Truncated)
        } else if id == 3 {
            Ok((Value::Int(get32(b, p) as i32), p + 4))
        } else {
            Ok((Value::Float(get32(b, p)), p + 4))
        }
    } else if id == 4 || id == 6 {
        if p + 8 > b.len() {
            Err(DecodeError::Truncated)
        } else if id == 4 {
            Ok((Value::Long(get64(b, p) as i64), p + 8))
        } else {
            Ok((Value::Double(get64(b, p)), p + 8))
        }
    } else if id == 7 || id == 11 || id == 12 {
        if p + 4 > b.len() {
            Err(DecodeError::Truncated)
        } else {
            let n = count_of(get32(b, p));
            let w: int = if id == 7 {
                1
            } else if id == 11 {
                4
            } else {
                8
            };
            let q = p + 4;
            if q + w * n > b.len() {
                Err(DecodeError::Truncated)
            } else if id == 7 {
                Ok((Value::ByteArray(Seq::new(n as nat, |i: int| b[q + i] as i8)), q + n))
            } else if id == 11 {
                Ok((Value::IntArray(Seq::new(n as nat, |i: int| get32(b, q + 4 * i) as i32)), q + 4 * n))
            } else {
                Ok((Value::LongArray(Seq::new(n as nat, |i: int| get64(b, q + 8 * i) as i64)), q + 8 * n))
            }
        }
    } else if id == 8 {
        match dec_str(b, p) {
            Ok((s, q)) => Ok((Value::String(s), q)),
            Err(e) => Err(e),
        }
    } else if id == 9 {
        if p + 5 > b.len() {
            Err(DecodeError::Truncated)
        } else {
            let eid = b[p];
            let n = count_of(get32(b, p + 1));
            if eid == 0 && n > 0 {
                Err(DecodeError::EndInList)
            } else {
                match dec_elems(b, p + 5, eid, n, Seq::empty()) {
                    Ok((s, q)) => Ok((Value::List(s), q)),
                    Err(e) => Err(e),
                }
            }
        }
    } else if id == 10 {
        match dec_entries(b, p, Seq::empty()) {
            Ok((es, q)) => Ok((Value::Compound(es), q)),
            Err(e) => Err(e),
        }
    } else {
        Err(DecodeError::UnknownId(id))
    }
}

/// `n` more list elements of kind `id` at `p`, appended to `acc`.
pub open spec fn dec_elems(b: Seq<u8>, p: int, id: u8, n: int, acc: Seq<Value>) -> DecodeResult<Seq<Value>>
    decreases b.len() - p, 3int,
{
    if n <= 0 {
        Ok((acc, p))
    } else {
        match dec_payload(b, p, id) {
            Ok((v, q)) => if p < q <= b.len() {
                dec_elems(b, q, id, n - 1, acc.push(v))
            } else {
                Err(DecodeError::Truncated)
            },
            Err(e) => Err(e),
        }
    }
}

/// Named entries at `p` up to and including the `End` id, inserted into `acc`.
pub open spec fn dec_entries(b: Seq<u8>, p: int, acc: Seq<(Seq<char>, Value)>) -> DecodeResult<
    Seq<(Seq<char>, Value)>,
>
    decreases b.len() - p, 1int,
{
    if p < 0 || p >= b.len() {
        Err(DecodeError::Truncated)
    } else if b[p] == 0 {
        Ok((acc, p + 1))
    } else {
        match dec_str(b, p + 1) {
            Ok((name, q)) => match dec_payload(b, q, b[p]) {
                Ok((v, r)) => if p < r <= b.len() {
                    dec_entries(b, r, entries_insert(acc, name, v))
                } else {
                    Err(DecodeError::Truncated)
                },
                Err(e) => Err(e),
            },
            Err(e) => Err(e),
        }
    }
}

/// A named root tag at `p`: an `End` id stands alone, with an empty name.
pub open spec fn dec_named(b: Seq<u8>, p: int) -> DecodeResult<(Seq<char>, Value)> {
    if p < 0 || p >= b.len() {
        Err(DecodeError::Truncated)
    } else if b[p] == 0 {
        Ok(((Seq::empty(), Value::End), p + 1))
    } else {
        match dec_str(b, p + 1) {
            Ok((name, q)) => match dec_payload(b, q, b[p]) {
                Ok((v, r)) => Ok(((name, v), r)),
                Err(e) => Err(e),
            },
            Err(e) => Err(e),
        }
    }
}


/// Relies on `std::str::from_utf8`: it succeeds exactly on valid UTF-8, and
/// the string then holds the decoded characters.
#[verifier::external_body]
fn utf8_string(b: &[u8]) -> (r: Option<String>)
    ensures
        r is Some <==> valid_utf8(b@),
        r matches Some(s) ==> s@ == decode_utf8(b@),
{
    match std::str::from_utf8(b) {
        Ok(s) => Some(s.to_owned()),
        Err(_) => None,
    }
}

fn get_u16(b: &[u8], p: usize) -> (r: u16)
    requires
        p + 2 <= b@.len(),
    ensures
        r == get16(b@, p as int),
{
    ((b[p] as u16) << 8u16) | (b[p + 1] as u16)
}

fn get_u32(b: &[u8], p: usize) -> (r: u32)
    requires
        p + 4 <= b@.len(),
    ensures
        r == get32(b@, p as int),
{
    ((b[p] as u32) << 24u32) | ((b[p + 1] as u32) << 16u32) | ((b[p + 2] as u32) << 8u32) | (
    b[p + 3] as u32)
}

fn get_u64(b: &[u8], p: usize) -> (r: u64)
    requires
        p + 8 <= b@.len(),
    ensures
        r == get64(b@, p as int),
{
    let len = b.len();
    let hi = get_u32(b, p);
    let lo = get_u32(b, p + 4);
    ((hi as u64) << 32u64) | (lo as u64)
}

fn read_str(b: &[u8], p: usize) -> (r: Result<(String, usize), DecodeError>)
    requires
        p <= b@.len(),
    ensures
        match r {
            Ok((s, q)) => dec_str(b@, p as int) == Ok::<(Seq<char>, int), DecodeError>(
                (s@, q as int),
            ) && p < q <= b@.len() && encode_utf8(s@).len() <= 65535,
            Err(e) => dec_str(b@, p as int) == Err::<(Seq<char>, int), DecodeError>(e),
        },
{
    if b.len() - p < 2 {
        return Err(DecodeError::Truncated);
    }
    let n = get_u16(b, p) as usize;
    if b.len() - p - 2 < n {
        return Err(DecodeError::Truncated);
    }
    let q = p + 2 + n;
    proof {
        let bytes = b@.subrange(p + 2, q as int);
        if valid_utf8(bytes) {
            decode_utf8_encode_utf8(bytes);
        }
    }
    match utf8_string(&b[p + 2..q]) {
        Some(s) => Ok((s, q)),
        None => Err(DecodeError::InvalidUtf8),
    }
}

fn read_count(b: &[u8], p: usize) -> (n: usize)
    requires
        p + 4 <= b@.len(),
    ensures
        n as int == count_of(get32(b@, p as int)),
        n <= 2147483647,
{
    let raw = get_u32(b, p);
    if (#[verifier::truncate] (raw as i32)) < 0 {
        0
    } else {
        proof {
            assert((raw as i32) >= 0 ==> raw <= 2147483647u32) by (bit_vector);
        }
        raw as usize
    }
}


fn read_i8s(b: &[u8], q: usize, n: usize) -> (v: Vec<i8>)
    requires
        q + n <= b@.len(),
    ensures
        v@ == Seq::new(n as nat, |i: int| b@[q + i] as i8),
{
    let len = b.len();
    let mut v: Vec<i8> = Vec::new();
    let mut i: usize = 0;
    while i < n
        invariant
            len == b@.len(),
            i <= n,
            q + n <= b@.len(),
            v@ == Seq::new(i as nat, |j: int| b@[q + j] as i8),
        decreases n - i,
    {
        v.push(#[verifier::truncate] (b[q + i] as i8));
        i += 1;
        assert(v@ =~= Seq::new(i as nat, |j: int| b@[q + j] as i8));
    }
    v
}

fn read_i32s(b: &[u8], q: usize, n: usize) -> (v: Vec<i32>)
    requires
        q + 4 * n <= b@.len(),
    ensures
        v@ == Seq::new(n as nat, |i: int| get32(b@, q + 4 * i) as i32),
{
    let len = b.len();
    let mut v: Vec<i32> = Vec::new();
    let mut i: usize = 0;
    let mut pos: usize = q;
    while i < n
        invariant
            len == b@.len(),
            i <= n,
            pos == q + 4 * i,
            q + 4 * n <= b@.len(),
            v@ == Seq::new(i as nat, |j: int| get32(b@, q + 4 * j) as i32),
        decreases n - i,
    {
        v.push(#[verifier::truncate] (get_u32(b, pos) as i32));
        i += 1;
        pos += 4;
        assert(v@ =~= Seq::new(i as nat, |j: int| get32(b@, q + 4 * j) as i32));
    }
    v
}

fn read_i64s(b: &[u8], q: usize, n: usize) -> (v: Vec<i64>)
    requires
        q + 8 * n <= b@.len(),
    ensures
        v@ == Seq::new(n as nat, |i: int| get64(b@, q + 8 * i) as i64),
{
    let len = b.len();
    let mut v: Vec<i64> = Vec::new();
    let mut i: usize = 0;
    let mut pos: usize = q;
    while i < n
        invariant
            len == b@.len(),
            i <= n,
            pos == q + 8 * i,
            q + 8 * n <= b@.len(),
            v@ == Seq::new(i as nat, |j: int| get64(b@, q + 8 * j) as i64),
        decreases n - i,
    {
        v.push(#[verifier::truncate] (get_u64(b, pos) as i64));
        i += 1;
        pos += 8;
        assert(v@ =~= Seq::new(i as nat, |j: int| get64(b@, q + 8 * j) as i64));
    }
    v
}

/// `r` is the executable outcome of the spec outcome `s`.
pub open spec fn same_outcome(r: Result<(Tag, usize), DecodeError>, s: DecodeResult<Value>) -> bool {
    match r {
        Ok((t, q)) => s == Ok::<(Value, int), DecodeError>((t@, q as int)),
        Err(e) => s == Err::<(Value, int), DecodeError>(e),
    }
}

#[verifier::rlimit(60)]
fn decode_payload(b: &[u8], p: usize, id: u8) -> (r: Result<(Tag, usize), DecodeError>)
    requires
        p <= b@.len(),
    ensures
        same_outcome(r, dec_payload(b@, p as int, id)),
        r matches Ok((_, q)) ==> q <= b@.len() && (id != 0 ==> p < q),
        r matches Ok((t, _)) ==> wf(t@) && value_id(t@) == id,
    decreases b@.len() - p, 2int,
{
    let len = b.len();
    let rem = len - p;
    if id == 0 {
        Ok((Tag::End, p))
    } else if id == 1 {
        if rem < 1 {
            return Err(DecodeError::Truncated);
        }
        Ok((Tag::Byte(#[verifier::truncate] (b[p] as i8)), p + 1))
    } else if id == 2 {
        if rem < 2 {
            return Err(DecodeError::Truncated);
        }
        Ok((Tag::Short(#[verifier::truncate] (get_u16(b, p) as i16)), p + 2))
    } else if id == 3 || id == 5 {
        if rem < 4 {
            return Err(DecodeError::Truncated);
        }
        let x = get_u32(b, p);
        if id == 3 {
            Ok((Tag::Int(#[verifier::truncate] (x as i32)), p + 4))
        } else {
            Ok((Tag::Float(x), p + 4))
        }
    } else if id == 4 || id == 6 {
        if rem < 8 {
            return Err(DecodeError::Truncated);
        }
        let x = get_u64(b, p);
        if id == 4 {
            Ok((Tag::Long(#[verifier::truncate] (x as i64)), p + 8))
        } else {
            Ok((Tag::Double(x), p + 8))
        }
    } else if id == 7 || id == 11 || id == 12 {
        if rem < 4 {
            return Err(DecodeError::Truncated);
        }
        let n = read_count(b, p);
        let q = p + 4;
        let w: usize = if id == 7 {
            1
        } else if id == 11 {
            4
        } else {
            8
        };
        if (rem - 4) / w < n {
            proof {
                assert((w as int) * (n as int) > rem - 4) by (nonlinear_arith)
                    requires (rem - 4) / (w as int) < n as int, w > 0;
            }
            return Err(DecodeError::Truncated);
        }
        proof {
            assert((w as int) * (n as int) <= rem - 4) by (nonlinear_arith)
                requires (rem - 4) / (w as int) >= n as int, w > 0, rem >= 4;
        }
        if id == 7 {
            Ok((Tag::ByteArray(read_i8s(b, q, n)), q + n))
        } else if id == 11 {
            Ok((Tag::IntArray(read_i32s(b, q, n)), q + 4 * n))
        } else {
            Ok((Tag::LongArray(read_i64s(b, q, n)), q + 8 * n))
        }
    } else if id == 8 {
        match read_str(b, p) {
            Ok((s, q)) => Ok((Tag::String(s), q)),
            Err(e) => Err(e),
        }
    } else if id == 9 {
        if rem < 5 {
            return Err(DecodeError::Truncated);
        }
        let eid = b[p];
        let n = read_count(b, p + 1);
        if eid == 0 && n > 0 {
            return Err(DecodeError::EndInList);
        }
        let ghost target = dec_elems(b@, p + 5, eid, n as int, Seq::empty());
        let mut v: Vec<Tag> = Vec::new();
        let mut pos: usize = p + 5;
        let mut i: usize = 0;
        assert(values_of(v@) =~= Seq::<Value>::empty());
        while i < n
            invariant
                p + 5 <= pos <= b@.len(),
                len == b@.len(),
                i <= n,
                eid != 0 || n == 0,
                id == 9,
                p + 5 <= b@.len(),
                eid == b@[p as int],
                n as int == count_of(get32(b@, p + 1)),
                target == dec_elems(b@, p + 5, eid, n as int, Seq::empty()),
                dec_elems(b@, pos as int, eid, (n - i) as int, values_of(v@)) == target,
                n <= 2147483647,
                v@.len() == i,
                forall|j: int|
                    0 <= j < v@.len() ==> wf(#[trigger] v@[j]@) && value_id(v@[j]@) == eid,
            decreases n - i,
        {
            match decode_payload(b, pos, eid) {
                Ok((t, q)) => {
                    proof {
                        let ghost old_vals = values_of(v@);
                        assert(dec_elems(b@, pos as int, eid, (n - i) as int, old_vals) == dec_elems(
                            b@,
                            q as int,
                            eid,
                            (n - i - 1) as int,
                            old_vals.push(t@),
                        ));
                    }
                    let ghost vs = v@;
                    v.push(t);
                    proof {
                        assert(v@.subrange(0, v@.len() - 1) =~= vs);
                    }
                    pos = q;
                    i += 1;
                },
                Err(e) => {
                    return Err(e);
                },
            }
        }
        proof {
            lemma_values_of(v@);
            let vals = values_of(v@);
            assert forall|j: int| 0 <= j < vals.len() implies {
                &&& value_id(#[trigger] vals[j]) == list_elem_id(vals)
                &&& value_id(vals[j]) != 0
                &&& wf(vals[j])
            } by {
                assert(vals[j] == v@[j]@);
                assert(vals[0] == v@[0]@);
            }
            lemma_wf_list(vals);
        }
        Ok((Tag::List(v), pos))
    } else if id == 10 {
        let ghost target = dec_entries(b@, p as int, Seq::empty());
        let mut es: Vec<(String, Tag)> = Vec::new();
        let mut pos: usize = p;
        assert(entries_of(es@) =~= Seq::<(Seq<char>, Value)>::empty());
        loop
            invariant
                p <= pos <= b@.len(),
                len == b@.len(),
                dec_entries(b@, pos as int, entries_of(es@)) == target,
                id == 10,
                target == dec_entries(b@, p as int, Seq::empty()),
                keys_unique(entries_of(es@)),
                forall|j: int|
                    0 <= j < entries_of(es@).len() ==> {
                        &&& encode_utf8((#[trigger] entries_of(es@)[j]).0).len() <= 65535
                        &&& value_id(entries_of(es@)[j].1) != 0
                        &&& wf(entries_of(es@)[j].1)
                    },
            decreases b@.len() - pos,
        {
            if pos >= len {
                return Err(DecodeError::Truncated);
            }
            let eid = b[pos];
            if eid == 0 {
                proof {
                    lemma_wf_compound(entries_of(es@));
                }
                return Ok((Tag::Compound(es), pos + 1));
            }
            match read_str(b, pos + 1) {
                Ok((name, q)) => {
                    match decode_payload(b, q, eid) {
                        Ok((t, r)) => {
                            let ghost before = entries_of(es@);
                            let ghost kv = (name@, t@);
                            compound_insert(&mut es, name, t);
                            proof {
                                lemma_insert_keeps_unique(before, kv.0, kv.1);
                                let after = entries_of(es@);
                                assert forall|j: int| 0 <= j < after.len() implies {
                                    &&& encode_utf8((#[trigger] after[j]).0).len() <= 65535
                                    &&& value_id(after[j].1) != 0
                                    &&& wf(after[j].1)
                                } by {
                                    if after[j] != kv {
                                        let m = choose|m: int|
                                            0 <= m < before.len() && before[m] == after[j];
                                        assert(wf(before[m].1));
                                    }
                                }
                            }
                            pos = r;
                        },
                        Err(e) => {
                            return Err(e);
                        },
                    }
                },
                Err(e) => {
                    return Err(e);
                },
            }
        }
    } else {
        Err(DecodeError::UnknownId(id))
    }
}


/// Decodes a named root tag at the start of `b`.
pub fn decode_named(b: &[u8]) -> (r: Result<(String, Tag), DecodeError>)
    ensures
        match r {
            Ok((name, t)) => dec_named(b@, 0) is Ok && dec_named(b@, 0)->Ok_0.0 == (name@, t@)
                && wf(t@) && encode_utf8(name@).len() <= 65535,
            Err(e) => dec_named(b@, 0) == Err::<((Seq<char>, Value), int), DecodeError>(e),
        },
{
    if b.len() == 0 {
        return Err(DecodeError::Truncated);
    }
    let id = b[0];
    if id == 0 {
        proof {
            assert(encode_utf8(Seq::<char>::empty()) =~= Seq::<u8>::empty());
        }
        return Ok((String::new(), Tag::End));
    }
    match read_str(b, 1) {
        Ok((name, q)) => match decode_payload(b, q, id) {
            Ok((t, r)) => Ok((name, t)),
            Err(e) => Err(e),
        },
        Err(e) => Err(e),
    }
}

} // verus!
