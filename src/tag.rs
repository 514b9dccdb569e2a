use vstd::prelude::*;
use crate::kind::Kind;
use vstd::utf8::encode_utf8;

verus! {

/// A node of a tag tree.
///
/// `Float` and `Double` hold the IEEE-754 bit patterns of their values. A
/// `Compound` is an ordered sequence of entries whose keys are unique; its
/// order is the order in which the keys were first inserted.
#[derive(Debug)]
pub enum Tag {
    End,
    Byte(i8),
    Short(i16),
    Int(i32),
    Long(i64),
    Float(u32),
    Double(u64),
    ByteArray(Vec<i8>),
    String(String),
    List(Vec<Tag>),
    Compound(Vec<(String, Tag)>),
    IntArray(Vec<i32>),
    LongArray(Vec<i64>),
}

impl Clone for Tag {
    fn clone(&self) -> (r: Tag)
        ensures
            r@ == self@,
    {
        self.deep_clone()
    }
}

impl PartialEq for Tag {
    /// Equal trees; floats and doubles compare by their bits.
    fn eq(&self, other: &Tag) -> (r: bool)
        ensures
            r == (self@ == other@),
        decreases self,
    {
        match (self, other) {
            (Tag::End, Tag::End) => true,
            (Tag::Byte(a), Tag::Byte(b)) => *a == *b,
            (Tag::Short(a), Tag::Short(b)) => *a == *b,
            (Tag::Int(a), Tag::Int(b)) => *a == *b,
            (Tag::Long(a), Tag::Long(b)) => *a == *b,
            (Tag::Float(a), Tag::Float(b)) => *a == *b,
            (Tag::Double(a), Tag::Double(b)) => *a == *b,
            (Tag::ByteArray(a), Tag::ByteArray(b)) => seq_eq_i8(a, b),
            (Tag::IntArray(a), Tag::IntArray(b)) => seq_eq_i32(a, b),
            (Tag::LongArray(a), Tag::LongArray(b)) => seq_eq_i64(a, b),
            (Tag::String(a), Tag::String(b)) => *a == *b,
            (Tag::List(a), Tag::List(b)) => {
                proof {
                    lemma_values_of(a@);
                    lemma_values_of(b@);
                }
                if a.len() != b.len() {
                    assert(values_of(a@).len() != values_of(b@).len());
                    return false;
                }
                let mut i: usize = 0;
                while i < a.len()
                    invariant
                        i <= a@.len() == b@.len(),
                        *self == Tag::List(*a),
                        *other == Tag::List(*b),
                        forall|j: int| 0 <= j < i ==> #[trigger] a@[j]@ == b@[j]@,
                    decreases a@.len() - i,
                {
                    proof {
                        assert(decreases_to!(*self => (*self)->List_0));
                        assert(decreases_to!(*a => a@));
                        assert(decreases_to!(a@ => a@[i as int]));
                    }
                    if !a[i].eq(&b[i]) {
                        proof {
                            lemma_values_of(a@);
                            lemma_values_of(b@);
                            assert(values_of(a@)[i as int] != values_of(b@)[i as int]);
                        }
                        return false;
                    }
                    i += 1;
                }
                proof {
                    lemma_values_of(a@);
                    lemma_values_of(b@);
                    assert forall|j: int| 0 <= j < a@.len() implies values_of(a@)[j] == values_of(
                        b@,
                    )[j] by {
                        assert(a@[j]@ == b@[j]@);
                    }
                    assert(values_of(a@) =~= values_of(b@));
                }
                true
            },
            (Tag::Compound(a), Tag::Compound(b)) => {
                proof {
                    lemma_entries_of(a@);
                    lemma_entries_of(b@);
                }
                if a.len() != b.len() {
                    assert(entries_of(a@).len() != entries_of(b@).len());
                    return false;
                }
                let mut i: usize = 0;
                while i < a.len()
                    invariant
                        i <= a@.len() == b@.len(),
                        *self == Tag::Compound(*a),
                        *other == Tag::Compound(*b),
                        forall|j: int|
                            0 <= j < i ==> (#[trigger] a@[j]).0@ == b@[j].0@ && a@[j].1@ == b@[j].1@,
                    decreases a@.len() - i,
                {
                    proof {
                        assert(decreases_to!(*self => (*self)->Compound_0));
                        assert(decreases_to!(*a => a@));
                        assert(decreases_to!(a@ => a@[i as int]));
                        assert(decreases_to!(a@[i as int] => a@[i as int].1));
                    }
                    if a[i].0 != b[i].0 || !a[i].1.eq(&b[i].1) {
                        proof {
                            lemma_entries_of(a@);
                            lemma_entries_of(b@);
                            assert(entries_of(a@)[i as int] != entries_of(b@)[i as int]);
                        }
                        return false;
                    }
                    i += 1;
                }
                proof {
                    lemma_entries_of(a@);
                    lemma_entries_of(b@);
                    assert forall|j: int| 0 <= j < a@.len() implies entries_of(a@)[j] == entries_of(
                        b@,
                    )[j] by {
                        assert(a@[j].0@ == b@[j].0@);
                    }
                    assert(entries_of(a@) =~= entries_of(b@));
                }
                true
            },
            _ => false,
        }
    }
}

impl vstd::std_specs::cmp::PartialEqSpecImpl for Tag {
    open spec fn obeys_eq_spec() -> bool {
        true
    }

    open spec fn eq_spec(&self, other: &Tag) -> bool {
        self@ == other@
    }
}

fn seq_eq_i8(a: &Vec<i8>, b: &Vec<i8>) -> (r: bool)
    ensures
        r == (a@ == b@),
{
    if a.len() != b.len() {
        return false;
    }
    let mut i: usize = 0;
    while i < a.len()
        invariant
            i <= a@.len() == b@.len(),
            forall|j: int| 0 <= j < i ==> a@[j] == b@[j],
        decreases a@.len() - i,
    {
        if a[i] != b[i] {
            return false;
        }
        i += 1;
    }
    assert(a@ =~= b@);
    true
}

fn seq_eq_i32(a: &Vec<i32>, b: &Vec<i32>) -> (r: bool)
    ensures
        r == (a@ == b@),
{
    if a.len() != b.len() {
        return false;
    }
    let mut i: usize = 0;
    while i < a.len()
        invariant
            i <= a@.len() == b@.len(),
            forall|j: int| 0 <= j < i ==> a@[j] == b@[j],
        decreases a@.len() - i,
    {
        if a[i] != b[i] {
            return false;
        }
        i += 1;
    }
    assert(a@ =~= b@);
    true
}

fn seq_eq_i64(a: &Vec<i64>, b: &Vec<i64>) -> (r: bool)
    ensures
        r == (a@ == b@),
{
    if a.len() != b.len() {
        return false;
    }
    let mut i: usize = 0;
    while i < a.len()
        invariant
            i <= a@.len() == b@.len(),
            forall|j: int| 0 <= j < i ==> a@[j] == b@[j],
        decreases a@.len() - i,
    {
        if a[i] != b[i] {
            return false;
        }
        i += 1;
    }
    assert(a@ =~= b@);
    true
}

/// The mathematical value of a tag tree.
pub enum Value {
    End,
    Byte(i8),
    Short(i16),
    Int(i32),
    Long(i64),
    Float(u32),
    Double(u64),
    ByteArray(Seq<i8>),
    String(Seq<char>),
    List(Seq<Value>),
    Compound(Seq<(Seq<char>, Value)>),
    IntArray(Seq<i32>),
    LongArray(Seq<i64>),
}

pub open spec fn value_of(t: Tag) -> Value
    decreases t,
{
    match t {
        Tag::End => Value::End,
        Tag::Byte(x) => Value::Byte(x),
        Tag::Short(x) => Value::Short(x),
        Tag::Int(x) => Value::Int(x),
        Tag::Long(x) => Value::Long(x),
        Tag::Float(x) => Value::Float(x),
        Tag::Double(x) => Value::Double(x),
        Tag::ByteArray(v) => Value::ByteArray(v@),
        Tag::String(s) => Value::String(s@),
        Tag::List(v) => Value::List(values_of(v@)),
        Tag::Compound(v) => Value::Compound(entries_of(v@)),
        Tag::IntArray(v) => Value::IntArray(v@),
        Tag::LongArray(v) => Value::LongArray(v@),
    }
}

pub open spec fn values_of(s: Seq<Tag>) -> Seq<Value>
    decreases s,
{
    if s.len() == 0 {
        Seq::empty()
    } else {
        values_of(s.subrange(0, s.len() - 1)).push(value_of(s[s.len() - 1]))
    }
}

pub open spec fn entries_of(s: Seq<(String, Tag)>) -> Seq<(Seq<char>, Value)>
    decreases s,
{
    if s.len() == 0 {
        Seq::empty()
    } else {
        entries_of(s.subrange(0, s.len() - 1)).push(
            (s[s.len() - 1].0@, value_of(s[s.len() - 1].1)),
        )
    }
}

impl View for Tag {
    type V = Value;

    open spec fn view(&self) -> Value {
        value_of(*self)
    }
}

pub proof fn lemma_values_of(s: Seq<Tag>)
    ensures
        values_of(s).len() == s.len(),
        forall|i: int| 0 <= i < s.len() ==> #[trigger] values_of(s)[i] == value_of(s[i]),
    decreases s.len(),
{
    if s.len() > 0 {
        lemma_values_of(s.subrange(0, s.len() - 1));
    }
}

pub proof fn lemma_values_of_update(s: Seq<Tag>, i: int, t: Tag)
    requires
        0 <= i < s.len(),
    ensures
        values_of(s.update(i, t)) == values_of(s).update(i, t@),
{
    lemma_values_of(s);
    lemma_values_of(s.update(i, t));
    assert(values_of(s.update(i, t)) =~= values_of(s).update(i, t@));
}

pub proof fn lemma_entries_of_update(s: Seq<(String, Tag)>, i: int, x: (String, Tag))
    requires
        0 <= i < s.len(),
    ensures
        entries_of(s.update(i, x)) == entries_of(s).update(i, (x.0@, x.1@)),
{
    lemma_entries_of(s);
    lemma_entries_of(s.update(i, x));
    assert(entries_of(s.update(i, x)) =~= entries_of(s).update(i, (x.0@, x.1@)));
}

pub proof fn lemma_entries_of(s: Seq<(String, Tag)>)
    ensures
        entries_of(s).len() == s.len(),
        forall|i: int|
            0 <= i < s.len() ==> #[trigger] entries_of(s)[i] == (s[i].0@, value_of(s[i].1)),
    decreases s.len(),
{
    if s.len() > 0 {
        lemma_entries_of(s.subrange(0, s.len() - 1));
    }
}


/// The wire id of a value's kind.
pub open spec fn value_id(v: Value) -> u8 {
    match v {
        Value::End => 0,
        Value::Byte(_) => 1,
        Value::Short(_) => 2,
        Value::Int(_) => 3,
        Value::Long(_) => 4,
        Value::Float(_) => 5,
        Value::Double(_) => 6,
        Value::ByteArray(_) => 7,
        Value::String(_) => 8,
        Value::List(_) => 9,
        Value::Compound(_) => 10,
        Value::IntArray(_) => 11,
        Value::LongArray(_) => 12,
    }
}

/// The element id of a list: that of its first element, or 0 when empty.
pub open spec fn list_elem_id(s: Seq<Value>) -> u8 {
    if s.len() == 0 {
        0
    } else {
        value_id(s[0])
    }
}

pub open spec fn value_kind(v: Value) -> Kind {
    match v {
        Value::End => Kind::End,
        Value::Byte(_) => Kind::Byte,
        Value::Short(_) => Kind::Short,
        Value::Int(_) => Kind::Int,
        Value::Long(_) => Kind::Long,
        Value::Float(_) => Kind::Float,
        Value::Double(_) => Kind::Double,
        Value::ByteArray(_) => Kind::ByteArray,
        Value::String(_) => Kind::String,
        Value::List(s) => Kind::List(list_elem_id(s)),
        Value::Compound(_) => Kind::Compound,
        Value::IntArray(_) => Kind::IntArray,
        Value::LongArray(_) => Kind::LongArray,
    }
}

/// The keys of `es` are pairwise distinct.
pub open spec fn keys_unique(es: Seq<(Seq<char>, Value)>) -> bool {
    forall|i: int, j: int| 0 <= i < j < es.len() ==> es[i].0 != es[j].0
}

/// `i` is the first position of key `k` in `es`.
pub open spec fn first_key_at(es: Seq<(Seq<char>, Value)>, k: Seq<char>, i: int) -> bool {
    &&& 0 <= i < es.len()
    &&& es[i].0 == k
    &&& forall|j: int| 0 <= j < i ==> es[j].0 != k
}

pub open spec fn has_key(es: Seq<(Seq<char>, Value)>, k: Seq<char>) -> bool {
    exists|i: int| 0 <= i < es.len() && es[i].0 == k
}

/// Insertion into an order-preserving map: an existing key keeps its position
/// and takes the new value; a new key goes to the end.
pub open spec fn entries_insert(es: Seq<(Seq<char>, Value)>, k: Seq<char>, v: Value) -> Seq<
    (Seq<char>, Value),
>
    decreases es.len(),
{
    if es.len() == 0 {
        seq![(k, v)]
    } else if es[0].0 == k {
        es.update(0, (k, v))
    } else {
        seq![es[0]] + entries_insert(es.drop_first(), k, v)
    }
}

pub proof fn lemma_entries_insert_found(es: Seq<(Seq<char>, Value)>, k: Seq<char>, v: Value, i: int)
    requires
        first_key_at(es, k, i),
    ensures
        entries_insert(es, k, v) == es.update(i, (k, v)),
    decreases es.len(),
{
    if i > 0 {
        assert(es.drop_first()[i - 1] == es[i]);
        lemma_entries_insert_found(es.drop_first(), k, v, i - 1);
        assert(entries_insert(es, k, v) =~= es.update(i, (k, v)));
    }
}

/// Inserting a key that is already present changes no key's position: the
/// keys come in the same order as before.
pub proof fn lemma_reinsert_keeps_order(es: Seq<(Seq<char>, Value)>, k: Seq<char>, v: Value)
    requires
        has_key(es, k),
    ensures
        entries_insert(es, k, v).len() == es.len(),
        forall|i: int| 0 <= i < es.len() ==> #[trigger] entries_insert(es, k, v)[i].0 == es[i].0,
    decreases es.len(),
{
    if es[0].0 != k {
        let j = choose|j: int| 0 <= j < es.len() && es[j].0 == k;
        assert(es.drop_first()[j - 1] == es[j]);
        lemma_reinsert_keeps_order(es.drop_first(), k, v);
        let r = entries_insert(es, k, v);
        assert forall|i: int| 0 <= i < es.len() implies #[trigger] r[i].0 == es[i].0 by {
            if i > 0 {
                assert(r[i] == entries_insert(es.drop_first(), k, v)[i - 1]);
                assert(es.drop_first()[i - 1] == es[i]);
            }
        }
    }
}

/// `wf` of a list or compound, one level down.
pub proof fn lemma_wf_unfold(v: Value)
    ensures
        v is List ==> (wf(v) <==> {
            let s = v->List_0;
            &&& s.len() <= MAX_LEN
            &&& forall|i: int|
                0 <= i < s.len() ==> {
                    &&& value_id(#[trigger] s[i]) == list_elem_id(s)
                    &&& value_id(s[i]) != 0
                    &&& wf(s[i])
                }
        }),
        v is Compound ==> (wf(v) <==> {
            let es = v->Compound_0;
            &&& keys_unique(es)
            &&& forall|i: int|
                0 <= i < es.len() ==> {
                    &&& encode_utf8((#[trigger] es[i]).0).len() <= MAX_SHORT_LEN
                    &&& value_id(es[i].1) != 0
                    &&& wf(es[i].1)
                }
        }),
{
    if v is List {
        let s = v->List_0;
        assert forall|i: int| 0 <= i < s.len() implies decreases_to!(v => #[trigger] s[i]) by {
            assert(decreases_to!(v => v->List_0));
            assert(decreases_to!(s => s[i]));
        }
    }
    if v is Compound {
        let es = v->Compound_0;
        assert forall|i: int| 0 <= i < es.len() implies decreases_to!(v => (#[trigger] es[i]).1) by {
            assert(decreases_to!(v => v->Compound_0));
            assert(decreases_to!(es => es[i]));
            assert(decreases_to!(es[i] => es[i].1));
        }
    }
}

pub proof fn lemma_wf_list(s: Seq<Value>)
    requires
        s.len() <= MAX_LEN,
        forall|i: int|
            0 <= i < s.len() ==> {
                &&& value_id(#[trigger] s[i]) == list_elem_id(s)
                &&& value_id(s[i]) != 0
                &&& wf(s[i])
            },
    ensures
        wf(Value::List(s)),
{
    let v = Value::List(s);
    assert forall|i: int| 0 <= i < s.len() implies decreases_to!(v => #[trigger] s[i]) by {
        assert(decreases_to!(v => v->List_0));
        assert(decreases_to!(s => s[i]));
    }
}

pub proof fn lemma_wf_compound(es: Seq<(Seq<char>, Value)>)
    requires
        keys_unique(es),
        forall|i: int|
            0 <= i < es.len() ==> {
                &&& encode_utf8((#[trigger] es[i]).0).len() <= MAX_SHORT_LEN
                &&& value_id(es[i].1) != 0
                &&& wf(es[i].1)
            },
    ensures
        wf(Value::Compound(es)),
{
    let v = Value::Compound(es);
    assert forall|i: int| 0 <= i < es.len() implies decreases_to!(v => (#[trigger] es[i]).1) by {
        assert(decreases_to!(v => v->Compound_0));
        assert(decreases_to!(es => es[i]));
        assert(decreases_to!(es[i] => es[i].1));
    }
}

/// Insertion keeps keys unique, and every entry it yields is the new one or
/// was there before.
pub proof fn lemma_insert_keeps_unique(es: Seq<(Seq<char>, Value)>, k: Seq<char>, v: Value)
    requires
        keys_unique(es),
    ensures
        keys_unique(entries_insert(es, k, v)),
        forall|i: int|
            0 <= i < entries_insert(es, k, v).len() ==> #[trigger] entries_insert(es, k, v)[i] == (
            k,
            v,
        ) || exists|j: int| 0 <= j < es.len() && es[j] == entries_insert(es, k, v)[i],
    decreases es.len(),
{
    let r = entries_insert(es, k, v);
    if es.len() == 0 {
    } else if es[0].0 == k {
        assert forall|i: int| 0 <= i < r.len() implies #[trigger] r[i] == (k, v) || exists|j: int|
            0 <= j < es.len() && es[j] == r[i] by {
            if i > 0 {
                assert(es[i] == r[i]);
            }
        }
    } else {
        let rest = es.drop_first();
        assert(keys_unique(rest)) by {
            assert forall|i: int, j: int| 0 <= i < j < rest.len() implies rest[i].0 != rest[j].0 by {
                assert(rest[i] == es[i + 1]);
                assert(rest[j] == es[j + 1]);
            }
        }
        lemma_insert_keeps_unique(rest, k, v);
        let rr = entries_insert(rest, k, v);
        assert(r == seq![es[0]] + rr);
        assert forall|i: int| 0 <= i < r.len() implies #[trigger] r[i] == (k, v) || exists|j: int|
            0 <= j < es.len() && es[j] == r[i] by {
            if i == 0 {
                assert(es[0] == r[0]);
            } else {
                assert(r[i] == rr[i - 1]);
                if rr[i - 1] != (k, v) {
                    let j = choose|j: int| 0 <= j < rest.len() && rest[j] == rr[i - 1];
                    assert(es[j + 1] == r[i]);
                }
            }
        }
        assert forall|i: int, j: int| 0 <= i < j < r.len() implies r[i].0 != r[j].0 by {
            if i == 0 {
                assert(r[j] == rr[j - 1]);
                if rr[j - 1] != (k, v) {
                    let m = choose|m: int| 0 <= m < rest.len() && rest[m] == rr[j - 1];
                    assert(es[m + 1] == r[j]);
                }
            } else {
                assert(r[i] == rr[i - 1]);
                assert(r[j] == rr[j - 1]);
            }
        }
    }
}

pub proof fn lemma_entries_insert_absent(es: Seq<(Seq<char>, Value)>, k: Seq<char>, v: Value)
    requires
        !has_key(es, k),
    ensures
        entries_insert(es, k, v) == es.push((k, v)),
    decreases es.len(),
{
    if es.len() > 0 {
        assert(es[0].0 != k);
        assert(!has_key(es.drop_first(), k)) by {
            if has_key(es.drop_first(), k) {
                let j = choose|j: int| 0 <= j < es.drop_first().len() && es.drop_first()[j].0 == k;
                assert(es[j + 1].0 == k);
            }
        }
        lemma_entries_insert_absent(es.drop_first(), k, v);
        assert(entries_insert(es, k, v) =~= es.push((k, v)));
    }
}


/// The largest length that the wire format's `u16` prefixes can hold.
pub const MAX_SHORT_LEN: u64 = 65535;

/// The largest length that the wire format's `i32` prefixes can hold.
pub const MAX_LEN: u64 = 2147483647;

/// A well-formed tree: no `End` below the root, lists of one kind, compound
/// keys unique, and every length within what the wire format can state.
pub open spec fn wf(v: Value) -> bool
    decreases v,
{
    match v {
        Value::ByteArray(s) => s.len() <= MAX_LEN,
        Value::String(s) => encode_utf8(s).len() <= MAX_SHORT_LEN,
        Value::List(s) => {
            &&& s.len() <= MAX_LEN
            &&& forall|i: int|
                0 <= i < s.len() ==> {
                    &&& value_id(#[trigger] s[i]) == list_elem_id(s)
                    &&& value_id(s[i]) != 0
                    &&& wf(s[i])
                }
        },
        Value::Compound(es) => {
            &&& keys_unique(es)
            &&& forall|i: int|
                0 <= i < es.len() ==> {
                    &&& encode_utf8((#[trigger] es[i]).0).len() <= MAX_SHORT_LEN
                    &&& value_id(es[i].1) != 0
                    &&& wf(es[i].1)
                }
        },
        Value::IntArray(s) => s.len() <= MAX_LEN,
        Value::LongArray(s) => s.len() <= MAX_LEN,
        _ => true,
    }
}


/// The first position of `k` among the keys of `es`.
fn find_key(es: &Vec<(String, Tag)>, k: &String) -> (r: Option<usize>)
    ensures
        match r {
            Some(i) => first_key_at(entries_of(es@), k@, i as int),
            None => !has_key(entries_of(es@), k@),
        },
{
    proof {
        lemma_entries_of(es@);
    }
    let ghost ents = entries_of(es@);
    let mut i: usize = 0;
    while i < es.len()
        invariant
            i <= es@.len(),
            ents == entries_of(es@),
            ents.len() == es@.len(),
            forall|j: int| 0 <= j < es@.len() ==> #[trigger] ents[j] == (es@[j].0@, es@[j].1@),
            forall|j: int| 0 <= j < i ==> ents[j].0 != k@,
        decreases es@.len() - i,
    {
        if es[i].0 == *k {
            return Some(i);
        }
        i += 1;
    }
    None
}

proof fn lemma_lookup_first(es: Seq<(Seq<char>, Value)>, k: Seq<char>, i: int)
    requires
        first_key_at(es, k, i),
    ensures
        lookup(es, k) == Some(es[i].1),
    decreases i,
{
    if i > 0 {
        assert(es.drop_first()[i - 1] == es[i]);
        lemma_lookup_first(es.drop_first(), k, i - 1);
    }
}

proof fn lemma_lookup_absent(es: Seq<(Seq<char>, Value)>, k: Seq<char>)
    requires
        !has_key(es, k),
    ensures
        lookup(es, k) is None,
    decreases es.len(),
{
    if es.len() > 0 {
        assert(es[0].0 != k);
        assert(!has_key(es.drop_first(), k)) by {
            if has_key(es.drop_first(), k) {
                let j = choose|j: int| 0 <= j < es.drop_first().len() && es.drop_first()[j].0 == k;
                assert(es[j + 1].0 == k);
            }
        }
        lemma_lookup_absent(es.drop_first(), k);
    }
}

impl Tag {
    /// The wire id of this tag's kind.
    pub fn id(&self) -> (r: u8)
        ensures
            r == value_id(self@),
            r <= 12,
    {
        match self {
            Tag::End => 0,
            Tag::Byte(_) => 1,
            Tag::Short(_) => 2,
            Tag::Int(_) => 3,
            Tag::Long(_) => 4,
            Tag::Float(_) => 5,
            Tag::Double(_) => 6,
            Tag::ByteArray(_) => 7,
            Tag::String(_) => 8,
            Tag::List(_) => 9,
            Tag::Compound(_) => 10,
            Tag::IntArray(_) => 11,
            Tag::LongArray(_) => 12,
        }
    }

    /// The kind of this tag; a list's element kind is read from its first
    /// element only.
    pub fn kind(&self) -> (r: Kind)
        ensures
            r == value_kind(self@),
    {
        match self {
            Tag::End => Kind::End,
            Tag::Byte(_) => Kind::Byte,
            Tag::Short(_) => Kind::Short,
            Tag::Int(_) => Kind::Int,
            Tag::Long(_) => Kind::Long,
            Tag::Float(_) => Kind::Float,
            Tag::Double(_) => Kind::Double,
            Tag::ByteArray(_) => Kind::ByteArray,
            Tag::String(_) => Kind::String,
            Tag::List(v) => {
                proof {
                    lemma_values_of(v@);
                }
                if v.len() == 0 {
                    Kind::List(0)
                } else {
                    Kind::List(v[0].id())
                }
            },
            Tag::Compound(_) => Kind::Compound,
            Tag::IntArray(_) => Kind::IntArray,
            Tag::LongArray(_) => Kind::LongArray,
        }
    }
}


/// Inserts `key` into an order-preserving compound: an existing key keeps its
/// position and takes the new value, a new key is appended.
pub fn compound_insert(es: &mut Vec<(String, Tag)>, key: String, value: Tag)
    ensures
        entries_of(final(es)@) == entries_insert(entries_of(old(es)@), key@, value@),
{
    proof {
        lemma_entries_of(es@);
    }
    let ghost ents = entries_of(es@);
    let mut i: usize = 0;
    while i < es.len()
        invariant
            i <= es@.len(),
            es@ == old(es)@,
            ents == entries_of(es@),
            ents.len() == es@.len(),
            forall|j: int| 0 <= j < es@.len() ==> #[trigger] ents[j] == (es@[j].0@, es@[j].1@),
            forall|j: int| 0 <= j < i ==> ents[j].0 != key@,
        decreases es@.len() - i,
    {
        if es[i].0 == key {
            let ghost kv = key@;
            let ghost vv = value@;
            es.set(i, (key, value));
            proof {
                lemma_entries_of(es@);
                assert(first_key_at(ents, kv, i as int));
                lemma_entries_insert_found(ents, kv, vv, i as int);
                assert(entries_of(es@) =~= ents.update(i as int, (kv, vv)));
            }
            return;
        }
        i += 1;
    }
    let ghost kv = key@;
    let ghost vv = value@;
    es.push((key, value));
    proof {
        lemma_entries_of(es@);
        lemma_entries_insert_absent(ents, kv, vv);
        assert(entries_of(es@) =~= ents.push((kv, vv)));
    }
}


/// One step of a path into a tag tree.
pub enum Segment {
    /// A key of a compound.
    Key(String),
    /// A position in a list.
    Position(usize),
}

/// Why a path step or a narrowing does not apply.
#[derive(Debug, Clone, Copy, PartialEq, Eq, Structural)]
pub enum TagError {
    /// The tag cannot be indexed by this kind of segment.
    NotIndexable,
    /// The position is past the end of the list.
    OutOfBounds,
    /// The tag is not of the kind asked for.
    Mismatch,
}

/// The value at the first occurrence of `k`.
pub open spec fn lookup(es: Seq<(Seq<char>, Value)>, k: Seq<char>) -> Option<Value>
    decreases es.len(),
{
    if es.len() == 0 {
        None
    } else if es[0].0 == k {
        Some(es[0].1)
    } else {
        lookup(es.drop_first(), k)
    }
}

/// The child that a segment addresses, if any.
pub open spec fn child(v: Value, seg: Segment) -> Option<Value> {
    match (v, seg) {
        (Value::Compound(es), Segment::Key(k)) => lookup(es, k@),
        (Value::List(s), Segment::Position(i)) => if i < s.len() {
            Some(s[i as int])
        } else {
            None
        },
        _ => None,
    }
}

impl Tag {
    /// The child at `seg`: a key of a compound or a position in a list.
    pub fn get(&self, seg: &Segment) -> (r: Option<&Tag>)
        ensures
            match r {
                Some(t) => child(self@, *seg) == Some(t@),
                None => child(self@, *seg) is None,
            },
    {
        match (self, seg) {
            (Tag::Compound(es), Segment::Key(k)) => {
                proof {
                    lemma_entries_of(es@);
                }
                let ghost ents = entries_of(es@);
                let mut i: usize = 0;
                assert(ents.subrange(0, ents.len() as int) =~= ents);
                while i < es.len()
                    invariant
                        i <= es@.len(),
                        ents == entries_of(es@),
                        ents.len() == es@.len(),
                        forall|j: int|
                            0 <= j < es@.len() ==> #[trigger] ents[j] == (es@[j].0@, es@[j].1@),
                        lookup(ents.subrange(i as int, ents.len() as int), k@) == lookup(ents, k@),
                        self@ == Value::Compound(ents),
                        *seg == Segment::Key(*k),
                    decreases es@.len() - i,
                {
                    let ghost sub = ents.subrange(i as int, ents.len() as int);
                    assert(sub[0] == ents[i as int]);
                    if es[i].0 == *k {
                        return Some(&es[i].1);
                    }
                    assert(sub.drop_first() =~= ents.subrange(i + 1, ents.len() as int));
                    i += 1;
                }
                None
            },
            (Tag::List(v), Segment::Position(i)) => {
                proof {
                    lemma_values_of(v@);
                }
                if *i < v.len() {
                    Some(&v[*i])
                } else {
                    None
                }
            },
            _ => None,
        }
    }

    /// Sets the child at `seg`. A key of a compound is inserted when absent
    /// and keeps its position when present; a list position must exist.
    pub fn insert(&mut self, seg: &Segment, value: Tag) -> (r: Result<(), TagError>)
        ensures
            old(self)@ is Compound && seg is Key ==> r is Ok && final(self)@ == Value::Compound(
                entries_insert(old(self)@->Compound_0, seg->Key_0@, value@),
            ),
            old(self)@ is List && seg is Position && seg->Position_0 < old(self)@->List_0.len()
                ==> r is Ok && final(self)@ == Value::List(
                old(self)@->List_0.update(seg->Position_0 as int, value@),
            ),
            old(self)@ is List && seg is Position && seg->Position_0 >= old(self)@->List_0.len()
                ==> r == Err::<(), TagError>(TagError::OutOfBounds) && final(self)@ == old(self)@,
            !(old(self)@ is Compound && seg is Key) && !(old(self)@ is List && seg is Position)
                ==> r == Err::<(), TagError>(TagError::NotIndexable) && final(self)@ == old(self)@,
    {
        let mut t = Tag::End;
        std::mem::swap(self, &mut t);
        let (next, r) = match (t, seg) {
            (Tag::Compound(mut es), Segment::Key(k)) => {
                compound_insert(&mut es, k.clone(), value);
                (Tag::Compound(es), Ok(()))
            },
            (Tag::List(mut v), Segment::Position(i)) => {
                proof {
                    lemma_values_of(v@);
                }
                if *i < v.len() {
                    let ghost old_v = v@;
                    v.set(*i, value);
                    proof {
                        lemma_values_of(old_v);
                        lemma_values_of(v@);
                        assert(values_of(v@) =~= values_of(old_v).update(*i as int, value@));
                    }
                    (Tag::List(v), Ok(()))
                } else {
                    (Tag::List(v), Err(TagError::OutOfBounds))
                }
            },
            (other, _) => (other, Err(TagError::NotIndexable)),
        };
        *self = next;
        r
    }

    /// The child at `seg`, to change in place, when there is one.
    pub fn get_mut(&mut self, seg: &Segment) -> (r: Option<&mut Tag>)
        ensures
            match r {
                Some(c) => child(old(self)@, *seg) == Some((*c)@) && match (old(self)@, *seg) {
                    (Value::Compound(es), Segment::Key(k)) => final(self)@ == Value::Compound(
                        entries_insert(es, k@, (*final(c))@),
                    ),
                    (Value::List(s), Segment::Position(i)) => final(self)@ == Value::List(
                        s.update(i as int, (*final(c))@),
                    ),
                    _ => false,
                },
                None => child(old(self)@, *seg) is None && final(self)@ == old(self)@,
            },
    {
        let present = self.get(seg).is_some();
        if !present {
            return None;
        }
        match self.get_or_insert(seg) {
            Ok(c) => Some(c),
            Err(_) => None,
        }
    }

    /// The child at `seg`, to assign through: a key of a compound, added with
    /// the value `End` when absent, or an existing position of a list.
    pub fn get_or_insert(&mut self, seg: &Segment) -> (r: Result<&mut Tag, TagError>)
        ensures
            match (old(self)@, *seg) {
                (Value::Compound(es), Segment::Key(k)) => r matches Ok(c) && (*c)@ == match lookup(
                    es,
                    k@,
                ) {
                    Some(v) => v,
                    None => Value::End,
                } && final(self)@ == Value::Compound(entries_insert(es, k@, (*final(c))@)),
                (Value::List(s), Segment::Position(i)) => if i < s.len() {
                    r matches Ok(c) && (*c)@ == s[i as int] && final(self)@ == Value::List(
                        s.update(i as int, (*final(c))@),
                    )
                } else {
                    r == Err::<&mut Tag, TagError>(TagError::OutOfBounds) && final(self)@ == old(self)@
                },
                _ => r == Err::<&mut Tag, TagError>(TagError::NotIndexable) && final(self)@ == old(self)@,
            },
    {
        match seg {
            Segment::Key(k) => self.key_slot(k.as_str()),
            Segment::Position(i) => self.list_slot(*i),
        }
    }

    /// The child at a position of a list, to assign through.
    pub fn list_slot(&mut self, i: usize) -> (r: Result<&mut Tag, TagError>)
        ensures
            match old(self)@ {
                Value::List(s) => if i < s.len() {
                    r matches Ok(c) && (*c)@ == s[i as int] && final(self)@ == Value::List(
                        s.update(i as int, (*final(c))@),
                    )
                } else {
                    r == Err::<&mut Tag, TagError>(TagError::OutOfBounds) && final(self)@ == old(self)@
                },
                _ => r == Err::<&mut Tag, TagError>(TagError::NotIndexable) && final(self)@ == old(self)@,
            },
    {
        let fits = match &*self {
            Tag::List(v) => {
                proof {
                    lemma_values_of(v@);
                }
                if i < v.len() {
                    0u8
                } else {
                    1u8
                }
            },
            _ => 2u8,
        };
        if fits == 1 {
            return Err(TagError::OutOfBounds);
        }
        if fits == 2 {
            return Err(TagError::NotIndexable);
        }
        match self {
            Tag::List(v) => {
                let ghost old_v = v@;
                proof {
                    lemma_values_of(old_v);
                }
                let c = &mut v[i];
                proof {
                    lemma_values_of_update(old_v, i as int, *final(c));
                }
                Ok(c)
            },
            _ => Err(TagError::NotIndexable),
        }
    }

    /// The child at a key of a compound, to assign through; an absent key is
    /// first added at the end with the value `End`.
    pub fn key_slot(&mut self, key: &str) -> (r: Result<&mut Tag, TagError>)
        ensures
            match old(self)@ {
                Value::Compound(es) => r matches Ok(c) && (*c)@ == match lookup(es, key@) {
                    Some(v) => v,
                    None => Value::End,
                } && final(self)@ == Value::Compound(entries_insert(es, key@, (*final(c))@)),
                _ => r == Err::<&mut Tag, TagError>(TagError::NotIndexable) && final(self)@ == old(self)@,
            },
    {
        let is_compound = match &*self {
            Tag::Compound(_) => true,
            _ => false,
        };
        if !is_compound {
            return Err(TagError::NotIndexable);
        }
        match self {
            Tag::Compound(es) => {
                let ghost old_es = es@;
                proof {
                    lemma_entries_of(old_es);
                }
                let ghost ents = entries_of(old_es);
                let k = String::from_str(key);
                match find_key(es, &k) {
                    Some(i) => {
                        let e = &mut es[i];
                        let c = &mut e.1;
                        proof {
                            lemma_lookup_first(ents, k@, i as int);
                            lemma_entries_insert_found(ents, k@, (*final(c))@, i as int);
                            lemma_entries_of_update(old_es, i as int, (old_es[i as int].0, *final(c)));
                        }
                        return Ok(c);
                    },
                    None => {},
                }
                let ghost kv = k@;
                es.push((k, Tag::End));
                let ghost pushed = es@;
                proof {
                    lemma_entries_of(pushed);
                    assert(entries_of(pushed) =~= ents.push((kv, Value::End)));
                }
                let n = es.len() - 1;
                let e = &mut es[n];
                let c = &mut e.1;
                proof {
                    lemma_lookup_absent(ents, key@);
                    lemma_entries_insert_absent(ents, key@, (*final(c))@);
                    lemma_entries_of_update(pushed, n as int, (pushed[n as int].0, *final(c)));
                    assert(ents.push((kv, Value::End)).update(n as int, (kv, (*final(c))@)) =~= ents.push(
                        (kv, (*final(c))@),
                    ));
                }
                Ok(c)
            },
            _ => Err(TagError::NotIndexable),
        }
    }

    /// A copy of the whole subtree.
    pub fn deep_clone(&self) -> (r: Tag)
        ensures
            r@ == self@,
        decreases self,
    {
        match self {
            Tag::End => Tag::End,
            Tag::Byte(x) => Tag::Byte(*x),
            Tag::Short(x) => Tag::Short(*x),
            Tag::Int(x) => Tag::Int(*x),
            Tag::Long(x) => Tag::Long(*x),
            Tag::Float(x) => Tag::Float(*x),
            Tag::Double(x) => Tag::Double(*x),
            Tag::ByteArray(v) => Tag::ByteArray(v.clone()),
            Tag::String(s) => Tag::String(s.clone()),
            Tag::IntArray(v) => Tag::IntArray(v.clone()),
            Tag::LongArray(v) => Tag::LongArray(v.clone()),
            Tag::List(v) => {
                proof {
                    lemma_values_of(v@);
                }
                let mut out: Vec<Tag> = Vec::new();
                let mut i: usize = 0;
                while i < v.len()
                    invariant
                        i <= v@.len(),
                        *self == Tag::List(*v),
                        out@.len() == i,
                        forall|j: int| 0 <= j < i ==> #[trigger] out@[j]@ == v@[j]@,
                    decreases v@.len() - i,
                {
                    proof {
                        assert(decreases_to!(*self => (*self)->List_0));
                        assert(decreases_to!(*v => v@));
                        assert(decreases_to!(v@ => v@[i as int]));
                    }
                    out.push(v[i].deep_clone());
                    i += 1;
                }
                proof {
                    lemma_values_of(out@);
                    lemma_values_of(v@);
                    assert(out@.len() == v@.len());
                    assert forall|j: int| 0 <= j < v@.len() implies values_of(out@)[j] == values_of(
                        v@,
                    )[j] by {
                        assert(out@[j]@ == v@[j]@);
                    }
                    assert(values_of(out@) =~= values_of(v@));
                }
                Tag::List(out)
            },
            Tag::Compound(es) => {
                proof {
                    lemma_entries_of(es@);
                }
                let mut out: Vec<(String, Tag)> = Vec::new();
                let mut i: usize = 0;
                while i < es.len()
                    invariant
                        i <= es@.len(),
                        *self == Tag::Compound(*es),
                        out@.len() == i,
                        forall|j: int|
                            0 <= j < i ==> (#[trigger] out@[j]).0@ == es@[j].0@ && out@[j].1@
                                == es@[j].1@,
                    decreases es@.len() - i,
                {
                    proof {
                        assert(decreases_to!(*self => (*self)->Compound_0));
                        assert(decreases_to!(*es => es@));
                        assert(decreases_to!(es@ => es@[i as int]));
                        assert(decreases_to!(es@[i as int] => es@[i as int].1));
                    }
                    let e = &es[i];
                    out.push((e.0.clone(), e.1.deep_clone()));
                    i += 1;
                }
                proof {
                    lemma_entries_of(out@);
                    lemma_entries_of(es@);
                    assert(entries_of(out@) =~= entries_of(es@));
                }
                Tag::Compound(out)
            },
        }
    }

    /// Whether this tree is well-formed, as `Nbt::encode` needs it.
    pub fn is_well_formed(&self) -> (r: bool)
        ensures
            r == wf(self@),
        decreases self,
    {
        proof {
            lemma_wf_unfold(self@);
        }
        match self {
            Tag::String(s) => s.as_str().as_bytes().len() <= 65535,
            Tag::ByteArray(v) => v.len() <= 2147483647,
            Tag::IntArray(v) => v.len() <= 2147483647,
            Tag::LongArray(v) => v.len() <= 2147483647,
            Tag::List(v) => {
                proof {
                    lemma_values_of(v@);
                }
                let ghost vals = values_of(v@);
                if v.len() > 2147483647 {
                    return false;
                }
                if v.len() == 0 {
                    return true;
                }
                let id = v[0].id();
                let mut i: usize = 0;
                while i < v.len()
                    invariant
                        i <= v@.len(),
                        0 < v@.len() <= 2147483647,
                        *self == Tag::List(*v),
                        vals == values_of(v@),
                        vals.len() == v@.len(),
                        forall|j: int| 0 <= j < v@.len() ==> #[trigger] vals[j] == v@[j]@,
                        id == value_id(vals[0]),
                        list_elem_id(vals) == id,
                        self@ == Value::List(vals),
                        wf(self@) <==> forall|j: int|
                            0 <= j < vals.len() ==> {
                                &&& value_id(#[trigger] vals[j]) == list_elem_id(vals)
                                &&& value_id(vals[j]) != 0
                                &&& wf(vals[j])
                            },
                        forall|j: int|
                            0 <= j < i ==> {
                                &&& value_id(#[trigger] vals[j]) == id
                                &&& id != 0
                                &&& wf(vals[j])
                            },
                    decreases v@.len() - i,
                {
                    proof {
                        assert(decreases_to!(*self => (*self)->List_0));
                        assert(decreases_to!(*v => v@));
                        assert(decreases_to!(v@ => v@[i as int]));
                    }
                    let e = &v[i];
                    if e.id() != id || id == 0 || !e.is_well_formed() {
                        assert(!({
                            &&& value_id(vals[i as int]) == list_elem_id(vals)
                            &&& value_id(vals[i as int]) != 0
                            &&& wf(vals[i as int])
                        }));
                        return false;
                    }
                    i += 1;
                }
                true
            },
            Tag::Compound(es) => {
                proof {
                    lemma_entries_of(es@);
                }
                let ghost ents = entries_of(es@);
                let mut i: usize = 0;
                while i < es.len()
                    invariant
                        i <= es@.len(),
                        *self == Tag::Compound(*es),
                        ents == entries_of(es@),
                        ents.len() == es@.len(),
                        forall|j: int|
                            0 <= j < es@.len() ==> #[trigger] ents[j] == (es@[j].0@, es@[j].1@),
                        self@ == Value::Compound(ents),
                        wf(self@) <==> (keys_unique(ents) && forall|j: int|
                            0 <= j < ents.len() ==> {
                                &&& encode_utf8((#[trigger] ents[j]).0).len() <= MAX_SHORT_LEN
                                &&& value_id(ents[j].1) != 0
                                &&& wf(ents[j].1)
                            }),
                        forall|j: int|
                            0 <= j < i ==> {
                                &&& encode_utf8((#[trigger] ents[j]).0).len() <= MAX_SHORT_LEN
                                &&& value_id(ents[j].1) != 0
                                &&& wf(ents[j].1)
                            },
                        forall|j: int, k: int| 0 <= j < k < i ==> ents[j].0 != ents[k].0,
                    decreases es@.len() - i,
                {
                    proof {
                        assert(decreases_to!(*self => (*self)->Compound_0));
                        assert(decreases_to!(*es => es@));
                        assert(decreases_to!(es@ => es@[i as int]));
                        assert(decreases_to!(es@[i as int] => es@[i as int].1));
                    }
                    let e = &es[i];
                    assert(ents[i as int] == (e.0@, e.1@));
                    if e.0.as_str().as_bytes().len() > 65535 || e.1.id() == 0
                        || !e.1.is_well_formed() {
                        return false;
                    }
                    let mut j: usize = 0;
                    while j < i
                        invariant
                            j <= i < es@.len(),
                            ents == entries_of(es@),
                            ents.len() == es@.len(),
                            forall|m: int|
                                0 <= m < es@.len() ==> #[trigger] ents[m] == (es@[m].0@, es@[m].1@),
                            forall|m: int| 0 <= m < j ==> ents[m].0 != ents[i as int].0,
                            self@ == Value::Compound(ents),
                            wf(self@) ==> keys_unique(ents),
                        decreases i - j,
                    {
                        if es[j].0 == es[i].0 {
                            assert(ents[j as int].0 == ents[i as int].0);
                            assert(!keys_unique(ents));
                            return false;
                        }
                        j += 1;
                    }
                    i += 1;
                }
                true
            },
            _ => true,
        }
    }

    pub fn as_byte(&self) -> (r: Result<i8, TagError>)
        ensures
            match self@ {
                Value::Byte(x) => r == Ok::<i8, TagError>(x),
                _ => r == Err::<i8, TagError>(TagError::Mismatch),
            },
    {
        match self {
            Tag::Byte(x) => Ok(*x),
            _ => Err(TagError::Mismatch),
        }
    }

    pub fn as_short(&self) -> (r: Result<i16, TagError>)
        ensures
            match self@ {
                Value::Short(x) => r == Ok::<i16, TagError>(x),
                _ => r == Err::<i16, TagError>(TagError::Mismatch),
            },
    {
        match self {
            Tag::Short(x) => Ok(*x),
            _ => Err(TagError::Mismatch),
        }
    }

    pub fn as_int(&self) -> (r: Result<i32, TagError>)
        ensures
            match self@ {
                Value::Int(x) => r == Ok::<i32, TagError>(x),
                _ => r == Err::<i32, TagError>(TagError::Mismatch),
            },
    {
        match self {
            Tag::Int(x) => Ok(*x),
            _ => Err(TagError::Mismatch),
        }
    }

    pub fn as_long(&self) -> (r: Result<i64, TagError>)
        ensures
            match self@ {
                Value::Long(x) => r == Ok::<i64, TagError>(x),
                _ => r == Err::<i64, TagError>(TagError::Mismatch),
            },
    {
        match self {
            Tag::Long(x) => Ok(*x),
            _ => Err(TagError::Mismatch),
        }
    }
}

} // verus!
