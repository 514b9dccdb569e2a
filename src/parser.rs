use vstd::prelude::*;
use crate::kind::Kind;
use crate::literal::{Class, Scalar, classify, classify_token};
use crate::nbt::Nbt;
use crate::reader::{
    ParseError, Reader, chars_of, quote_char, run_end, scan_quoted, unquoted_char, is_white,
    lemma_run_end_bounds, lemma_scan_quoted_progress,
};
use crate::tag::{
    Tag, Value, compound_insert, value_kind, values_of, lemma_values_of, entries_of,
    keys_unique, lemma_insert_keeps_unique,
};

verus! {

/// The conversions between floating-point values and their decimal text,
/// which the caller supplies.
pub trait FloatText {
    /// The bits of the `f32` that a decimal literal reads as, if any.
    fn parse_float(&self, text: &str) -> Option<u32>;

    /// The bits of the `f64` that a decimal literal reads as, if any.
    fn parse_double(&self, text: &str) -> Option<u64>;

    /// The decimal text of the `f32` with these bits.
    fn show_float(&self, bits: u32) -> String;

    /// The decimal text of the `f64` with these bits.
    fn show_double(&self, bits: u64) -> String;
}

/// The tag that an unquoted token `s` reads as, given the class of `s`; a
/// float or double literal whose conversion fails reads as text.
pub open spec fn token_value(s: Seq<char>, v: Value) -> bool {
    match classify(s) {
        Class::Byte(x) => v == Value::Byte(x),
        Class::Short(x) => v == Value::Short(x),
        Class::Int(x) => v == Value::Int(x),
        Class::Long(x) => v == Value::Long(x),
        Class::Float(_) => v is Float || v == Value::String(s),
        Class::Double(_) => v is Double || v == Value::String(s),
        Class::Text => v == Value::String(s),
    }
}

/// Every element of a list has the kind of the first.
pub open spec fn homogeneous(s: Seq<Value>) -> bool {
    forall|i: int| 0 <= i < s.len() ==> value_kind(#[trigger] s[i]) == value_kind(s[0])
}

/// A tree as the parser builds it: no `End` anywhere, every list of one
/// kind, every compound with unique keys.
pub open spec fn parsed_wf(v: Value) -> bool
    decreases v,
{
    match v {
        Value::End => false,
        Value::List(s) => homogeneous(s) && forall|i: int|
            0 <= i < s.len() ==> parsed_wf(#[trigger] s[i]),
        Value::Compound(es) => keys_unique(es) && forall|i: int|
            0 <= i < es.len() ==> parsed_wf((#[trigger] es[i]).1),
        _ => true,
    }
}

proof fn lemma_parsed_wf_list(s: Seq<Value>)
    requires
        homogeneous(s),
        forall|i: int| 0 <= i < s.len() ==> parsed_wf(#[trigger] s[i]),
    ensures
        parsed_wf(Value::List(s)),
{
    let v = Value::List(s);
    assert forall|i: int| 0 <= i < s.len() implies decreases_to!(v => #[trigger] s[i]) by {
        assert(decreases_to!(v => v->List_0));
        assert(decreases_to!(s => s[i]));
    }
}

proof fn lemma_parsed_wf_compound(es: Seq<(Seq<char>, Value)>)
    requires
        keys_unique(es),
        forall|i: int| 0 <= i < es.len() ==> parsed_wf((#[trigger] es[i]).1),
    ensures
        parsed_wf(Value::Compound(es)),
{
    let v = Value::Compound(es);
    assert forall|i: int| 0 <= i < es.len() implies decreases_to!(v => (#[trigger] es[i]).1) by {
        assert(decreases_to!(v => v->Compound_0));
        assert(decreases_to!(es => es[i]));
        assert(decreases_to!(es[i] => es[i].1));
    }
}

/// The position after the whitespace at `p`.
pub open spec fn ws_end(t: Seq<char>, p: int) -> int {
    run_end(t, p, |c: char| is_white(c))
}

/// What a scalar at `q` (after whitespace) reads as: a quoted string, or an
/// unquoted token and the tag it stands for.
pub open spec fn scalar_outcome(t: Seq<char>, q: int, r: Result<Tag, ParseError>) -> bool {
    if q >= t.len() {
        r == Err::<Tag, ParseError>(ParseError::Insufficient)
    } else if quote_char(t[q]) {
        match scan_quoted(t, q + 1, t[q], Seq::empty(), false) {
            Ok((s, _)) => r matches Ok(v) && v@ == Value::String(s),
            Err((e, _)) => r == Err::<Tag, ParseError>(e),
        }
    } else {
        let e = run_end(t, q, |c: char| unquoted_char(c));
        if e == q {
            r == Err::<Tag, ParseError>(ParseError::MissingValue)
        } else {
            r matches Ok(v) && token_value(t.subrange(q, e), v@)
        }
    }
}

/// What reading a value at `p` gives: after whitespace, a compound, a list
/// or typed array, or a scalar as `scalar_outcome` says.
pub open spec fn value_outcome(t: Seq<char>, p: int, r: Result<Tag, ParseError>) -> bool {
    let q = ws_end(t, p);
    if q >= t.len() {
        r == Err::<Tag, ParseError>(ParseError::MissingValue)
    } else if t[q] == '{' {
        r matches Ok(v) ==> v@ is Compound
    } else if t[q] == '[' {
        r matches Ok(v) ==> (v@ is List || v@ is ByteArray || v@ is IntArray || v@ is LongArray)
    } else {
        scalar_outcome(t, q, r)
    }
}

/// The outcome of a production: a value and the position after it, an
/// error, or `Unknown` where it depends on the caller's float conversions.
pub enum Parsed {
    Done(Value, int),
    Failed(ParseError),
    Unknown,
}

/// `r` is what parsing the whole text `s` from its start gives.
pub open spec fn parse_outcome(s: Seq<char>, r: Result<Tag, ParseError>) -> bool {
    match p_value(s, 0) {
        Parsed::Done(v, _) => r matches Ok(t) && t@ == v,
        Parsed::Failed(e) => r == Err::<Tag, ParseError>(e),
        Parsed::Unknown => true,
    }
}

/// `r` and the final position agree with the outcome `s`.
pub open spec fn agrees(r: Result<Tag, ParseError>, pos: int, s: Parsed) -> bool {
    match s {
        Parsed::Done(v, e) => r matches Ok(t) && t@ == v && pos == e,
        Parsed::Failed(e) => r == Err::<Tag, ParseError>(e),
        Parsed::Unknown => true,
    }
}

/// Skipping whitespace from `p`, then reading the character `c`; on success
/// `v` is the result.
pub open spec fn close(t: Seq<char>, p: int, c: char, v: Value) -> Parsed {
    let w = ws_end(t, p);
    if w >= t.len() {
        Parsed::Failed(ParseError::Insufficient)
    } else if t[w] != c {
        Parsed::Failed(ParseError::Unexpected { expected: c, found: t[w] })
    } else {
        Parsed::Done(v, w + 1)
    }
}

/// Whether a `,` follows after whitespace at `p`, and where the next item
/// starts.
pub open spec fn separator(t: Seq<char>, p: int) -> (bool, int) {
    let s0 = ws_end(t, p);
    if s0 < t.len() && t[s0] == ',' {
        (true, ws_end(t, s0 + 1))
    } else {
        (false, s0)
    }
}

/// A compound key at `p`, after whitespace: quoted or unquoted.
pub open spec fn key_at(t: Seq<char>, p: int) -> Result<(Seq<char>, int), ParseError> {
    let k = ws_end(t, p);
    if k >= t.len() {
        Err(ParseError::MissingKey)
    } else if quote_char(t[k]) {
        match scan_quoted(t, k + 1, t[k], Seq::empty(), false) {
            Ok((s, e)) => Ok((s, e)),
            Err((e, _)) => Err(e),
        }
    } else {
        let e = run_end(t, k, |c: char| unquoted_char(c));
        Ok((t.subrange(k, e), e))
    }
}

/// A scalar at `q`, where no whitespace is.
pub open spec fn p_scalar(t: Seq<char>, q: int) -> Parsed {
    if quote_char(t[q]) {
        match scan_quoted(t, q + 1, t[q], Seq::empty(), false) {
            Ok((s, e)) => Parsed::Done(Value::String(s), e),
            Err((e, _)) => Parsed::Failed(e),
        }
    } else {
        let e = run_end(t, q, |c: char| unquoted_char(c));
        let tok = t.subrange(q, e);
        if e == q {
            Parsed::Failed(ParseError::MissingValue)
        } else {
            match classify(tok) {
                Class::Byte(x) => Parsed::Done(Value::Byte(x), e),
                Class::Short(x) => Parsed::Done(Value::Short(x), e),
                Class::Int(x) => Parsed::Done(Value::Int(x), e),
                Class::Long(x) => Parsed::Done(Value::Long(x), e),
                Class::Text => Parsed::Done(Value::String(tok), e),
                _ => Parsed::Unknown,
            }
        }
    }
}

/// A value at `p`.
pub open spec fn p_value(t: Seq<char>, p: int) -> Parsed
    decreases t.len() - p, 3int,
{
    if p < 0 || p > t.len() {
        Parsed::Unknown
    } else {
        let q = ws_end(t, p);
        if q < p || q > t.len() {
            Parsed::Unknown
        } else if q == t.len() {
            Parsed::Failed(ParseError::MissingValue)
        } else if t[q] == '{' {
            p_struct(t, q)
        } else if t[q] == '[' {
            p_list(t, q)
        } else {
            p_scalar(t, q)
        }
    }
}

/// A compound at `p`.
pub open spec fn p_struct(t: Seq<char>, p: int) -> Parsed
    decreases t.len() - p, 2int,
{
    let w = ws_end(t, p);
    if p < 0 || w < p || w > t.len() {
        Parsed::Unknown
    } else if w == t.len() {
        Parsed::Failed(ParseError::Insufficient)
    } else if t[w] != '{' {
        Parsed::Failed(ParseError::Unexpected { expected: '{', found: t[w] })
    } else {
        let first = ws_end(t, w + 1);
        if first < w + 1 || first > t.len() {
            Parsed::Unknown
        } else {
            p_entries(t, first, Seq::empty())
        }
    }
}

/// The entries of a compound from `p` on, inserted into `acc`.
pub open spec fn p_entries(t: Seq<char>, p: int, acc: Seq<(Seq<char>, Value)>) -> Parsed
    decreases t.len() - p, 1int,
{
    if p < 0 || p > t.len() {
        Parsed::Unknown
    } else if p == t.len() {
        Parsed::Failed(ParseError::Insufficient)
    } else if t[p] == '}' {
        close(t, p, '}', Value::Compound(acc))
    } else {
        match key_at(t, p) {
            Err(e) => Parsed::Failed(e),
            Ok((k, e1)) => {
                let c1 = ws_end(t, e1);
                if k.len() == 0 {
                    Parsed::Failed(ParseError::MissingKey)
                } else if c1 < p || c1 > t.len() {
                    Parsed::Unknown
                } else if c1 == t.len() {
                    Parsed::Failed(ParseError::Insufficient)
                } else if t[c1] != ':' {
                    Parsed::Failed(ParseError::Unexpected { expected: ':', found: t[c1] })
                } else {
                    match p_value(t, c1 + 1) {
                        Parsed::Done(v, e2) => {
                            let acc2 = crate::tag::entries_insert(acc, k, v);
                            let (sep, s) = separator(t, e2);
                            if !sep {
                                close(t, s, '}', Value::Compound(acc2))
                            } else if s >= t.len() {
                                Parsed::Failed(ParseError::ExpectedClosure)
                            } else if s <= p {
                                Parsed::Unknown
                            } else {
                                p_entries(t, s, acc2)
                            }
                        },
                        other => other,
                    }
                }
            },
        }
    }
}

/// A list or typed array at `p`.
pub open spec fn p_list(t: Seq<char>, p: int) -> Parsed
    decreases t.len() - p, 2int,
{
    if 0 <= p && t.len() - p >= 3 && !quote_char(t[p + 1]) && t[p + 2] == ';' {
        p_array(t, p)
    } else {
        p_list_tag(t, p)
    }
}

/// The element kind that a typed array's letter names.
pub open spec fn array_kind(c: char) -> Option<Kind> {
    if c == 'B' {
        Some(Kind::Byte)
    } else if c == 'L' {
        Some(Kind::Long)
    } else if c == 'I' {
        Some(Kind::Int)
    } else {
        None
    }
}

/// The typed array of kind `k` holding the scalars `s`.
pub open spec fn array_value(k: Kind, s: Seq<Value>) -> Value {
    if k == Kind::Byte {
        Value::ByteArray(s.map_values(|v: Value| v->Byte_0))
    } else if k == Kind::Long {
        Value::LongArray(s.map_values(|v: Value| v->Long_0))
    } else {
        Value::IntArray(s.map_values(|v: Value| v->Int_0))
    }
}

/// A typed array `[B;...]`, `[I;...]` or `[L;...]` at `p`.
pub open spec fn p_array(t: Seq<char>, p: int) -> Parsed
    decreases t.len() - p, 1int,
{
    let w = ws_end(t, p);
    if p < 0 || w < p || w > t.len() {
        Parsed::Unknown
    } else if w == t.len() {
        Parsed::Failed(ParseError::Insufficient)
    } else if t[w] != '[' {
        Parsed::Failed(ParseError::Unexpected { expected: '[', found: t[w] })
    } else if w + 1 >= t.len() {
        Parsed::Failed(ParseError::Insufficient)
    } else {
        let after = if w + 2 < t.len() {
            w + 3
        } else {
            w + 2
        };
        let first = ws_end(t, after);
        if first < after || first > t.len() {
            Parsed::Unknown
        } else if first == t.len() {
            Parsed::Failed(ParseError::MissingValue)
        } else {
            match array_kind(t[w + 1]) {
                Some(k) => p_arr_elems(t, first, k, Seq::empty()),
                None => Parsed::Failed(ParseError::UnknownArrayType),
            }
        }
    }
}

/// The elements of a typed array of kind `k` from `p` on, after `acc`.
pub open spec fn p_arr_elems(t: Seq<char>, p: int, k: Kind, acc: Seq<Value>) -> Parsed
    decreases t.len() - p, 4int,
{
    if p < 0 || p > t.len() {
        Parsed::Unknown
    } else if p == t.len() {
        Parsed::Failed(ParseError::Insufficient)
    } else if t[p] == ']' {
        close(t, p, ']', array_value(k, acc))
    } else {
        match p_value(t, p) {
            Parsed::Done(v, e2) => {
                if value_kind(v) != k {
                    Parsed::Failed(ParseError::MixedTags)
                } else {
                    let acc2 = acc.push(v);
                    let (sep, s) = separator(t, e2);
                    if !sep {
                        close(t, s, ']', array_value(k, acc2))
                    } else if s >= t.len() {
                        Parsed::Failed(ParseError::ExpectedClosure)
                    } else if s <= p {
                        Parsed::Unknown
                    } else {
                        p_arr_elems(t, s, k, acc2)
                    }
                }
            },
            other => other,
        }
    }
}

/// A list at `p`.
pub open spec fn p_list_tag(t: Seq<char>, p: int) -> Parsed
    decreases t.len() - p, 1int,
{
    let w = ws_end(t, p);
    if p < 0 || w < p || w > t.len() {
        Parsed::Unknown
    } else if w == t.len() {
        Parsed::Failed(ParseError::Insufficient)
    } else if t[w] != '[' {
        Parsed::Failed(ParseError::Unexpected { expected: '[', found: t[w] })
    } else {
        let first = ws_end(t, w + 1);
        if first < w + 1 || first > t.len() {
            Parsed::Unknown
        } else if first == t.len() {
            Parsed::Failed(ParseError::MissingValue)
        } else {
            p_elems(t, first, Kind::End, Seq::empty())
        }
    }
}

/// The elements of a list from `p` on, after `acc`, all of kind `kind`
/// once there is one.
pub open spec fn p_elems(t: Seq<char>, p: int, kind: Kind, acc: Seq<Value>) -> Parsed
    decreases t.len() - p, 4int,
{
    if p < 0 || p > t.len() {
        Parsed::Unknown
    } else if p == t.len() {
        Parsed::Failed(ParseError::Insufficient)
    } else if t[p] == ']' {
        close(t, p, ']', Value::List(acc))
    } else {
        match p_value(t, p) {
            Parsed::Done(v, e2) => {
                if kind != Kind::End && kind != value_kind(v) {
                    Parsed::Failed(ParseError::MixedTypes)
                } else {
                    let acc2 = acc.push(v);
                    let (sep, s) = separator(t, e2);
                    if !sep {
                        close(t, s, ']', Value::List(acc2))
                    } else if s >= t.len() {
                        Parsed::Failed(ParseError::ExpectedClosure)
                    } else if s <= p {
                        Parsed::Unknown
                    } else {
                        p_elems(t, s, value_kind(v), acc2)
                    }
                }
            },
            other => other,
        }
    }
}

proof fn lemma_ws_end_fixed(t: Seq<char>, p: int)
    requires
        0 <= p <= t.len(),
    ensures
        ws_end(t, ws_end(t, p)) == ws_end(t, p),
{
    lemma_run_end_bounds(t, p, |c: char| is_white(c));
}

/// The typed array of kind `k` made of the scalar tags `items`.
fn array_of(k: Kind, items: &Vec<Tag>) -> (r: Tag)
    requires
        k == Kind::Byte || k == Kind::Long || k == Kind::Int,
        forall|i: int| 0 <= i < items@.len() ==> value_kind(#[trigger] items@[i]@) == k,
    ensures
        r@ == array_value(k, values_of(items@)),
        r@ is ByteArray || r@ is IntArray || r@ is LongArray,
{
    proof {
        lemma_values_of(items@);
    }
    let ghost vals = values_of(items@);
    if k == Kind::Byte {
        let mut out: Vec<i8> = Vec::new();
        let mut i: usize = 0;
        while i < items.len()
            invariant
                i <= items@.len(),
                vals == values_of(items@),
                vals.len() == items@.len(),
                forall|j: int| 0 <= j < items@.len() ==> #[trigger] vals[j] == items@[j]@,
                forall|j: int| 0 <= j < items@.len() ==> value_kind(#[trigger] items@[j]@) == k,
                k == Kind::Byte,
                out@ == vals.subrange(0, i as int).map_values(|v: Value| v->Byte_0),
            decreases items@.len() - i,
        {
            assert(value_kind(items@[i as int]@) == k);
            match &items[i] {
                Tag::Byte(x) => out.push(*x),
                _ => {
                    assert(false);
                },
            }
            i += 1;
            assert(out@ =~= vals.subrange(0, i as int).map_values(|v: Value| v->Byte_0));
        }
        assert(vals.subrange(0, vals.len() as int) =~= vals);
        Tag::ByteArray(out)
    } else if k == Kind::Long {
        let mut out: Vec<i64> = Vec::new();
        let mut i: usize = 0;
        while i < items.len()
            invariant
                i <= items@.len(),
                vals == values_of(items@),
                vals.len() == items@.len(),
                forall|j: int| 0 <= j < items@.len() ==> #[trigger] vals[j] == items@[j]@,
                forall|j: int| 0 <= j < items@.len() ==> value_kind(#[trigger] items@[j]@) == k,
                k == Kind::Long,
                out@ == vals.subrange(0, i as int).map_values(|v: Value| v->Long_0),
            decreases items@.len() - i,
        {
            assert(value_kind(items@[i as int]@) == k);
            match &items[i] {
                Tag::Long(x) => out.push(*x),
                _ => {
                    assert(false);
                },
            }
            i += 1;
            assert(out@ =~= vals.subrange(0, i as int).map_values(|v: Value| v->Long_0));
        }
        assert(vals.subrange(0, vals.len() as int) =~= vals);
        Tag::LongArray(out)
    } else {
        let mut out: Vec<i32> = Vec::new();
        let mut i: usize = 0;
        while i < items.len()
            invariant
                i <= items@.len(),
                vals == values_of(items@),
                vals.len() == items@.len(),
                forall|j: int| 0 <= j < items@.len() ==> #[trigger] vals[j] == items@[j]@,
                forall|j: int| 0 <= j < items@.len() ==> value_kind(#[trigger] items@[j]@) == k,
                k == Kind::Int,
                out@ == vals.subrange(0, i as int).map_values(|v: Value| v->Int_0),
            decreases items@.len() - i,
        {
            assert(value_kind(items@[i as int]@) == k);
            match &items[i] {
                Tag::Int(x) => out.push(*x),
                _ => {
                    assert(false);
                },
            }
            i += 1;
            assert(out@ =~= vals.subrange(0, i as int).map_values(|v: Value| v->Int_0));
        }
        assert(vals.subrange(0, vals.len() as int) =~= vals);
        Tag::IntArray(out)
    }
}

/// A recursive-descent parser of the text notation.
pub struct Parser {
    reader: Reader,
}

impl Parser {
    pub closed spec fn text(&self) -> Seq<char> {
        self.reader.text()
    }

    pub closed spec fn pos(&self) -> int {
        self.reader.pos()
    }

    pub open spec fn inv(&self) -> bool {
        0 <= self.pos() <= self.text().len()
    }

    pub fn new(s: &str) -> (r: Parser)
        ensures
            r.text() == s@,
            r.pos() == 0,
            r.inv(),
    {
        Parser { reader: Reader::new(s) }
    }

    /// Reads the token `s` as a scalar.
    pub fn parse_type<F: FloatText>(s: &str, ft: &F) -> (r: Tag)
        ensures
            token_value(s@, r@),
    {
        let chars = chars_of(s);
        match classify_token(&chars) {
            Scalar::Byte(x) => Tag::Byte(x),
            Scalar::Short(x) => Tag::Short(x),
            Scalar::Int(x) => Tag::Int(x),
            Scalar::Long(x) => Tag::Long(x),
            Scalar::Float(t) => match ft.parse_float(t.as_str()) {
                Some(b) => Tag::Float(b),
                None => Tag::String(String::from_str(s)),
            },
            Scalar::Double(t) => match ft.parse_double(t.as_str()) {
                Some(b) => Tag::Double(b),
                None => Tag::String(String::from_str(s)),
            },
            Scalar::Text => Tag::String(String::from_str(s)),
        }
    }

    fn skip_ws(&mut self)
        requires
            old(self).inv(),
        ensures
            final(self).text() == old(self).text(),
            final(self).inv(),
            final(self).pos() == run_end(old(self).text(), old(self).pos(), |c: char| is_white(c)),
            old(self).pos() <= final(self).pos(),
    {
        proof {
            lemma_run_end_bounds(self.text(), self.pos(), |c: char| is_white(c));
        }
        let _ = self.reader.skip_whitespace();
    }

    /// Skips whitespace, then reads the character `c`.
    fn expect(&mut self, c: char) -> (r: Result<(), ParseError>)
        requires
            old(self).inv(),
        ensures
            final(self).text() == old(self).text(),
            final(self).inv(),
            old(self).pos() <= final(self).pos(),
            r is Ok ==> old(self).pos() < final(self).pos(),
            ({
                let t = old(self).text();
                let w = ws_end(t, old(self).pos());
                &&& w >= t.len() ==> r == Err::<(), ParseError>(ParseError::Insufficient)
                &&& w < t.len() && t[w] != c ==> r == Err::<(), ParseError>(
                    ParseError::Unexpected { expected: c, found: t[w] },
                )
                &&& w < t.len() && t[w] == c ==> r is Ok && final(self).pos() == w + 1
            }),
    {
        self.skip_ws();
        self.reader.expect(c)
    }

    fn read_key(&mut self) -> (r: Result<String, ParseError>)
        requires
            old(self).inv(),
        ensures
            final(self).text() == old(self).text(),
            final(self).inv(),
            old(self).pos() <= final(self).pos(),
            match key_at(old(self).text(), old(self).pos()) {
                Ok((k, e)) => r matches Ok(s) && s@ == k && final(self).pos() == e,
                Err(e) => r == Err::<String, ParseError>(e),
            },
    {
        self.skip_ws();
        if self.reader.done() {
            return Err(ParseError::MissingKey);
        }
        proof {
            let t = self.text();
            let p = self.pos();
            lemma_run_end_bounds(t, p, |c: char| unquoted_char(c));
            lemma_scan_quoted_progress(t, p + 1, t[p], Seq::empty(), false);
        }
        self.reader.read_string()
    }

    /// Reads a quoted string or an unquoted scalar token.
    fn read_typed_value<F: FloatText>(&mut self, ft: &F) -> (r: Result<Tag, ParseError>)
        requires
            old(self).inv(),
        ensures
            final(self).text() == old(self).text(),
            final(self).inv(),
            r is Ok ==> old(self).pos() < final(self).pos(),
            r matches Ok(t) ==> parsed_wf(t@),
            scalar_outcome(old(self).text(), ws_end(old(self).text(), old(self).pos()), r),
            ws_end(old(self).text(), old(self).pos()) < old(self).text().len() ==> agrees(
                r,
                final(self).pos(),
                p_scalar(old(self).text(), ws_end(old(self).text(), old(self).pos())),
            ),
    {
        self.skip_ws();
        let start = self.reader.position();
        let c = self.reader.peek()?;
        if Reader::is_quote(c) {
            proof {
                lemma_scan_quoted_progress(self.text(), self.pos() + 1, c, Seq::empty(), false);
            }
            let s = self.reader.read_quoted_string()?;
            Ok(Tag::String(s))
        } else {
            proof {
                lemma_run_end_bounds(self.text(), self.pos(), |c: char| unquoted_char(c));
            }
            let s = self.reader.read_unquoted_string()?;
            if self.reader.position() == start {
                self.reader.set_position(start);
                return Err(ParseError::MissingValue);
            }
            Ok(Parser::parse_type(s.as_str(), ft))
        }
    }

    /// Skips whitespace and a `,` with the whitespace after it; tells whether
    /// there was a `,`.
    fn has_separator(&mut self) -> (r: Result<bool, ParseError>)
        requires
            old(self).inv(),
        ensures
            final(self).text() == old(self).text(),
            final(self).inv(),
            old(self).pos() <= final(self).pos(),
            r == Ok::<bool, ParseError>(separator(old(self).text(), old(self).pos()).0),
            final(self).pos() == separator(old(self).text(), old(self).pos()).1,
    {
        self.skip_ws();
        if !self.reader.done() && self.reader.peek()? == ',' {
            self.reader.skip();
            self.skip_ws();
            Ok(true)
        } else {
            Ok(false)
        }
    }

    /// Reads a value: a compound, a list or typed array, or a scalar.
    pub fn read_value<F: FloatText>(&mut self, ft: &F) -> (r: Result<Tag, ParseError>)
        requires
            old(self).inv(),
        ensures
            final(self).text() == old(self).text(),
            final(self).inv(),
            r is Ok ==> old(self).pos() < final(self).pos(),
            r matches Ok(t) ==> parsed_wf(t@),
            value_outcome(old(self).text(), old(self).pos(), r),
            agrees(r, final(self).pos(), p_value(old(self).text(), old(self).pos())),
        decreases old(self).text().len() - old(self).pos(), 3int,
    {
        self.skip_ws();
        proof {
            lemma_ws_end_fixed(self.text(), old(self).pos());
            lemma_run_end_bounds(self.text(), old(self).pos(), |c: char| is_white(c));
        }
        if self.reader.done() {
            return Err(ParseError::MissingValue);
        }
        let c = self.reader.peek()?;
        if c == '{' {
            self.read_struct(ft)
        } else if c == '[' {
            self.read_list(ft)
        } else {
            self.read_typed_value(ft)
        }
    }

    /// Reads a compound `{key: value, ...}`; a repeated key keeps its first
    /// position and takes the last value.
    pub fn read_struct<F: FloatText>(&mut self, ft: &F) -> (r: Result<Tag, ParseError>)
        requires
            old(self).inv(),
        ensures
            final(self).text() == old(self).text(),
            final(self).inv(),
            r is Ok ==> old(self).pos() < final(self).pos(),
            r matches Ok(t) ==> t@ is Compound && parsed_wf(t@),
            agrees(r, final(self).pos(), p_struct(old(self).text(), old(self).pos())),
        decreases old(self).text().len() - old(self).pos(), 2int,
    {
        let ghost entry = self.pos();
        let ghost t = self.text();
        let ghost target = p_struct(t, entry);
        proof {
            lemma_run_end_bounds(t, entry, |c: char| is_white(c));
        }
        self.expect('{')?;
        proof {
            lemma_run_end_bounds(t, self.pos(), |c: char| is_white(c));
        }
        self.skip_ws();
        let mut m: Vec<(String, Tag)> = Vec::new();
        assert(entries_of(m@) =~= Seq::<(Seq<char>, Value)>::empty());
        let ghost mut rem = p_entries(t, self.pos(), entries_of(m@));
        let mut more = true;
        assert(target is Unknown || target == rem);
        while more && self.reader.peek()? != '}'
            invariant
                self.text() == old(self).text(),
                self.inv(),
                entry == old(self).pos(),
                entry < self.pos(),
                keys_unique(entries_of(m@)),
                forall|i: int|
                    0 <= i < entries_of(m@).len() ==> parsed_wf((#[trigger] entries_of(m@)[i]).1),
                t == self.text(),
                target == p_struct(t, entry),
                target is Unknown || target == rem,
                more ==> rem == p_entries(t, self.pos(), entries_of(m@)),
                !more ==> rem == close(t, self.pos(), '}', Value::Compound(entries_of(m@))),
            decreases self.text().len() - self.pos(),
        {
            let start = self.reader.position();
            proof {
                let k = ws_end(t, start as int);
                lemma_run_end_bounds(t, start as int, |c: char| is_white(c));
                if k < t.len() {
                    lemma_run_end_bounds(t, k, |c: char| unquoted_char(c));
                    lemma_scan_quoted_progress(t, k + 1, t[k], Seq::empty(), false);
                }
            }
            let key = self.read_key()?;
            proof {
                lemma_run_end_bounds(t, self.pos(), |c: char| is_white(c));
            }
            if key.as_str().unicode_len() == 0 {
                self.reader.set_position(start);
                return Err(ParseError::MissingKey);
            }
            self.expect(':')?;
            let ghost vpos = self.pos();
            let value = self.read_value(ft)?;
            proof {
                lemma_run_end_bounds(t, self.pos(), |c: char| is_white(c));
                let s0 = ws_end(t, self.pos());
                if s0 < t.len() {
                    lemma_run_end_bounds(t, s0 + 1, |c: char| is_white(c));
                }
            }
            let ghost before = entries_of(m@);
            let ghost kv = (key@, value@);
            compound_insert(&mut m, key, value);
            proof {
                lemma_insert_keeps_unique(before, kv.0, kv.1);
                let after = entries_of(m@);
                assert forall|i: int| 0 <= i < after.len() implies parsed_wf(
                    (#[trigger] after[i]).1,
                ) by {
                    if after[i] != kv {
                        let j = choose|j: int| 0 <= j < before.len() && before[j] == after[i];
                        assert(parsed_wf(before[j].1));
                    }
                }
            }
            let ghost e2 = self.pos();
            if !self.has_separator()? {
                more = false;
                proof {
                    rem = close(t, self.pos(), '}', Value::Compound(entries_of(m@)));
                }
            } else {
                if self.reader.done() {
                    return Err(ParseError::ExpectedClosure);
                }
                proof {
                    rem = p_entries(t, self.pos(), entries_of(m@));
                }
            }
        }
        proof {
            lemma_run_end_bounds(t, self.pos(), |c: char| is_white(c));
        }
        self.expect('}')?;
        proof {
            lemma_parsed_wf_compound(entries_of(m@));
        }
        Ok(Tag::Compound(m))
    }

    /// Reads a typed array `[B;...]`, `[I;...]` or `[L;...]`.
    pub fn read_array_tag<F: FloatText>(&mut self, ft: &F) -> (r: Result<Tag, ParseError>)
        requires
            old(self).inv(),
        ensures
            final(self).text() == old(self).text(),
            final(self).inv(),
            r is Ok ==> old(self).pos() < final(self).pos(),
            r matches Ok(t) ==> (t@ is ByteArray || t@ is IntArray || t@ is LongArray) && parsed_wf(t@),
            agrees(r, final(self).pos(), p_array(old(self).text(), old(self).pos())),
        decreases old(self).text().len() - old(self).pos(), 1int,
    {
        let ghost entry = self.pos();
        let ghost t = self.text();
        let ghost target = p_array(t, entry);
        proof {
            lemma_run_end_bounds(t, entry, |c: char| is_white(c));
        }
        self.expect('[')?;
        let start = self.reader.position();
        let letter = self.reader.read()?;
        self.reader.skip();
        proof {
            lemma_run_end_bounds(t, self.pos(), |c: char| is_white(c));
        }
        self.skip_ws();
        if self.reader.done() {
            self.reader.set_position(start);
            return Err(ParseError::MissingValue);
        }
        let k = if letter == 'B' {
            Kind::Byte
        } else if letter == 'L' {
            Kind::Long
        } else if letter == 'I' {
            Kind::Int
        } else {
            return Err(ParseError::UnknownArrayType);
        };
        assert(array_kind(letter) == Some(k));
        let mut items: Vec<Tag> = Vec::new();
        proof {
            lemma_values_of(items@);
            assert(values_of(items@) =~= Seq::<Value>::empty());
        }
        let ghost mut rem = p_arr_elems(t, self.pos(), k, values_of(items@));
        let mut more = true;
        while more && self.reader.peek()? != ']'
            invariant
                self.text() == old(self).text(),
                self.inv(),
                entry == old(self).pos(),
                entry < self.pos(),
                k == Kind::Byte || k == Kind::Long || k == Kind::Int,
                forall|i: int| 0 <= i < items@.len() ==> value_kind(#[trigger] items@[i]@) == k,
                t == self.text(),
                target == p_array(t, entry),
                target is Unknown || target == rem,
                more ==> rem == p_arr_elems(t, self.pos(), k, values_of(items@)),
                !more ==> rem == close(t, self.pos(), ']', array_value(k, values_of(items@))),
            decreases self.text().len() - self.pos(),
        {
            let at = self.reader.position();
            let item = self.read_value(ft)?;
            proof {
                lemma_run_end_bounds(t, self.pos(), |c: char| is_white(c));
                let s0 = ws_end(t, self.pos());
                if s0 < t.len() {
                    lemma_run_end_bounds(t, s0 + 1, |c: char| is_white(c));
                }
            }
            if item.kind() != k {
                self.reader.set_position(at);
                return Err(ParseError::MixedTags);
            }
            let ghost vs = items@;
            items.push(item);
            proof {
                lemma_values_of(items@);
                lemma_values_of(vs);
                assert(values_of(items@) =~= values_of(vs).push(items@[vs.len() as int]@));
            }
            if !self.has_separator()? {
                more = false;
                proof {
                    rem = close(t, self.pos(), ']', array_value(k, values_of(items@)));
                }
            } else {
                if self.reader.done() {
                    return Err(ParseError::ExpectedClosure);
                }
                proof {
                    rem = p_arr_elems(t, self.pos(), k, values_of(items@));
                }
            }
        }
        proof {
            lemma_run_end_bounds(t, self.pos(), |c: char| is_white(c));
        }
        self.expect(']')?;
        Ok(array_of(k, &items))
    }

    /// Reads a list `[value, ...]` whose elements all have the first one's kind.
    pub fn read_list_tag<F: FloatText>(&mut self, ft: &F) -> (r: Result<Tag, ParseError>)
        requires
            old(self).inv(),
        ensures
            final(self).text() == old(self).text(),
            final(self).inv(),
            r is Ok ==> old(self).pos() < final(self).pos(),
            r matches Ok(t) ==> t@ is List && parsed_wf(t@),
            agrees(r, final(self).pos(), p_list_tag(old(self).text(), old(self).pos())),
        decreases old(self).text().len() - old(self).pos(), 1int,
    {
        let ghost entry = self.pos();
        let ghost t = self.text();
        let ghost target = p_list_tag(t, entry);
        proof {
            lemma_run_end_bounds(t, entry, |c: char| is_white(c));
        }
        self.expect('[')?;
        proof {
            lemma_run_end_bounds(t, self.pos(), |c: char| is_white(c));
        }
        self.skip_ws();
        if self.reader.done() {
            return Err(ParseError::MissingValue);
        }
        let mut kind = Kind::End;
        let mut v: Vec<Tag> = Vec::new();
        proof {
            lemma_values_of(v@);
            assert(values_of(v@) =~= Seq::<Value>::empty());
        }
        let ghost mut rem = p_elems(t, self.pos(), kind, values_of(v@));
        let mut more = true;
        while more && self.reader.peek()? != ']'
            invariant
                self.text() == old(self).text(),
                self.inv(),
                entry == old(self).pos(),
                entry < self.pos(),
                v@.len() == 0 <==> kind == Kind::End,
                forall|i: int| 0 <= i < v@.len() ==> value_kind(#[trigger] v@[i]@) == kind,
                forall|i: int| 0 <= i < v@.len() ==> parsed_wf(#[trigger] v@[i]@),
                t == self.text(),
                target == p_list_tag(t, entry),
                target is Unknown || target == rem,
                more ==> rem == p_elems(t, self.pos(), kind, values_of(v@)),
                !more ==> rem == close(t, self.pos(), ']', Value::List(values_of(v@))),
            decreases self.text().len() - self.pos(),
        {
            let at = self.reader.position();
            let item = self.read_value(ft)?;
            proof {
                lemma_run_end_bounds(t, self.pos(), |c: char| is_white(c));
                let s0 = ws_end(t, self.pos());
                if s0 < t.len() {
                    lemma_run_end_bounds(t, s0 + 1, |c: char| is_white(c));
                }
            }
            let k = item.kind();
            if kind == Kind::End {
                kind = k;
            } else if kind != k {
                self.reader.set_position(at);
                return Err(ParseError::MixedTypes);
            }
            let ghost vs = v@;
            v.push(item);
            proof {
                lemma_values_of(v@);
                lemma_values_of(vs);
                assert(values_of(v@) =~= values_of(vs).push(v@[vs.len() as int]@));
            }
            if !self.has_separator()? {
                more = false;
                proof {
                    rem = close(t, self.pos(), ']', Value::List(values_of(v@)));
                }
            } else {
                if self.reader.done() {
                    return Err(ParseError::ExpectedClosure);
                }
                proof {
                    rem = p_elems(t, self.pos(), kind, values_of(v@));
                }
            }
        }
        proof {
            lemma_run_end_bounds(t, self.pos(), |c: char| is_white(c));
        }
        self.expect(']')?;
        proof {
            lemma_values_of(v@);
            let vals = values_of(v@);
            assert forall|i: int| 0 <= i < vals.len() implies value_kind(#[trigger] vals[i])
                == value_kind(vals[0]) by {
                assert(vals[i] == v@[i]@);
                assert(vals[0] == v@[0]@);
            }
            assert forall|i: int| 0 <= i < vals.len() implies parsed_wf(#[trigger] vals[i]) by {
                assert(vals[i] == v@[i]@);
            }
            lemma_parsed_wf_list(vals);
        }
        Ok(Tag::List(v))
    }

    /// Reads a typed array when the text after `[` is a letter and `;`, else
    /// a list.
    pub fn read_list<F: FloatText>(&mut self, ft: &F) -> (r: Result<Tag, ParseError>)
        requires
            old(self).inv(),
        ensures
            final(self).text() == old(self).text(),
            final(self).inv(),
            r is Ok ==> old(self).pos() < final(self).pos(),
            r matches Ok(t) ==> (t@ is List || t@ is ByteArray || t@ is IntArray || t@ is LongArray)
                && parsed_wf(t@),
            agrees(r, final(self).pos(), p_list(old(self).text(), old(self).pos())),
        decreases old(self).text().len() - old(self).pos(), 2int,
    {
        if self.reader.has_remaining(3) && !Reader::is_quote(self.reader.peek_nth(1)?)
            && self.reader.peek_nth(2)? == ';' {
            self.read_array_tag(ft)
        } else {
            self.read_list_tag(ft)
        }
    }
}

impl Nbt {
    /// Parses a tag from its text notation.
    pub fn parse<F: FloatText>(s: &str, ft: &F) -> (r: Result<Tag, ParseError>)
        ensures
            r matches Ok(t) ==> parsed_wf(t@),
            value_outcome(s@, 0, r),
            parse_outcome(s@, r),
    {
        let mut parser = Parser::new(s);
        parser.read_value(ft)
    }
}

} // verus!
