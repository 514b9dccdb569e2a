use vstd::prelude::*;
use crate::parser::FloatText;
use crate::reader::{Reader, chars_of, push_char, quote_char, unquoted_char};
use crate::tag::{Tag, Value, values_of, entries_of, lemma_values_of, lemma_entries_of};

verus! {

/// Why a tag has no text form.
#[derive(Debug, Clone, Copy, PartialEq, Eq, Structural)]
pub enum PrintError {
    /// `End` is not a value.
    End,
}

pub open spec fn digit_char(d: nat) -> char {
    ((d + 48) as u8) as char
}

/// Decimal digits of `n`.
pub open spec fn nat_text(n: nat) -> Seq<char>
    decreases n,
{
    if n < 10 {
        seq![digit_char(n)]
    } else {
        nat_text(n / 10).push(digit_char(n % 10))
    }
}

/// Decimal text of `v`, with a leading `-` when negative.
pub open spec fn int_text(v: int) -> Seq<char> {
    if v < 0 {
        seq!['-'] + nat_text((-v) as nat)
    } else {
        nat_text(v as nat)
    }
}

/// The first quote character of `s`, if any.
pub open spec fn first_quote(s: Seq<char>) -> Option<char>
    decreases s.len(),
{
    if s.len() == 0 {
        None
    } else if quote_char(s[0]) {
        Some(s[0])
    } else {
        first_quote(s.drop_first())
    }
}

/// The quote that a string is printed with: the one that does not occur
/// first in it, `"` when it holds no quote.
pub open spec fn chosen_quote(s: Seq<char>) -> char {
    match first_quote(s) {
        Some(c) => if c == '"' {
            '\''
        } else {
            '"'
        },
        None => '"',
    }
}

/// `s` with a backslash before each backslash and each `q`.
pub open spec fn escaped(s: Seq<char>, q: char) -> Seq<char>
    decreases s.len(),
{
    if s.len() == 0 {
        Seq::empty()
    } else {
        let c = s.last();
        escaped(s.drop_last(), q) + if c == '\\' || c == q {
            seq!['\\', c]
        } else {
            seq![c]
        }
    }
}

pub open spec fn quoted(s: Seq<char>) -> Seq<char> {
    let q = chosen_quote(s);
    seq![q] + escaped(s, q) + seq![q]
}

/// A key that prints without quotes: `[A-Za-z0-9._+-]+`.
pub open spec fn simple_key(s: Seq<char>) -> bool {
    s.len() > 0 && forall|i: int| 0 <= i < s.len() ==> unquoted_char(#[trigger] s[i])
}

pub open spec fn key_text(s: Seq<char>) -> Seq<char> {
    if simple_key(s) {
        s
    } else {
        quoted(s)
    }
}

pub open spec fn ints_of_i8(s: Seq<i8>) -> Seq<int> {
    s.map_values(|x: i8| x as int)
}

pub open spec fn ints_of_i32(s: Seq<i32>) -> Seq<int> {
    s.map_values(|x: i32| x as int)
}

pub open spec fn ints_of_i64(s: Seq<i64>) -> Seq<int> {
    s.map_values(|x: i64| x as int)
}

/// Comma-separated integers, each followed by `suffix`.
pub open spec fn ints_text(s: Seq<int>, suffix: Seq<char>) -> Seq<char>
    decreases s.len(),
{
    if s.len() == 0 {
        Seq::empty()
    } else if s.len() == 1 {
        int_text(s[0]) + suffix
    } else {
        ints_text(s.drop_last(), suffix) + seq![','] + int_text(s.last()) + suffix
    }
}

/// The text form of a value; `End`, floats and doubles have none here (see
/// `printable`).
pub open spec fn snbt(v: Value) -> Seq<char>
    decreases v, 1int,
{
    match v {
        Value::Byte(x) => int_text(x as int) + seq!['b'],
        Value::Short(x) => int_text(x as int) + seq!['s'],
        Value::Int(x) => int_text(x as int),
        Value::Long(x) => int_text(x as int) + seq!['L'],
        Value::String(s) => quoted(s),
        Value::List(s) => seq!['['] + list_text(s) + seq![']'],
        Value::Compound(es) => seq!['{'] + entries_text(es) + seq!['}'],
        Value::ByteArray(s) => seq!['[', 'B', ';'] + ints_text(ints_of_i8(s), seq!['b']) + seq![']'],
        Value::IntArray(s) => seq!['[', 'I', ';'] + ints_text(ints_of_i32(s), Seq::empty()) + seq![']'],
        Value::LongArray(s) => seq!['[', 'L', ';'] + ints_text(ints_of_i64(s), seq!['L']) + seq![']'],
        _ => Seq::empty(),
    }
}

pub open spec fn list_text(s: Seq<Value>) -> Seq<char>
    decreases s, 0int,
{
    if s.len() == 0 {
        Seq::empty()
    } else if s.len() == 1 {
        snbt(s[0])
    } else {
        list_text(s.subrange(0, s.len() - 1)) + seq![','] + snbt(s[s.len() - 1])
    }
}

pub open spec fn entry_text(e: (Seq<char>, Value)) -> Seq<char>
    decreases e, 0int,
{
    key_text(e.0) + seq![':'] + snbt(e.1)
}

pub open spec fn entries_text(es: Seq<(Seq<char>, Value)>) -> Seq<char>
    decreases es, 0int,
{
    if es.len() == 0 {
        Seq::empty()
    } else if es.len() == 1 {
        entry_text(es[0])
    } else {
        entries_text(es.subrange(0, es.len() - 1)) + seq![','] + entry_text(es[es.len() - 1])
    }
}


/// A value with a text form that this module states: no `End`, float or
/// double anywhere in it.
pub open spec fn printable(v: Value) -> bool
    decreases v,
{
    match v {
        Value::End | Value::Float(_) | Value::Double(_) => false,
        Value::List(s) => forall|i: int| 0 <= i < s.len() ==> printable(#[trigger] s[i]),
        Value::Compound(es) => forall|i: int| 0 <= i < es.len() ==> printable((#[trigger] es[i]).1),
        _ => true,
    }
}

/// `End` occurs somewhere in the value.
pub open spec fn has_end(v: Value) -> bool
    decreases v,
{
    match v {
        Value::End => true,
        Value::List(s) => exists|i: int| 0 <= i < s.len() && has_end(#[trigger] s[i]),
        Value::Compound(es) => exists|i: int| 0 <= i < es.len() && has_end((#[trigger] es[i]).1),
        _ => false,
    }
}

proof fn lemma_printable_has_no_end(v: Value)
    requires
        printable(v),
    ensures
        !has_end(v),
    decreases v,
{
    match v {
        Value::List(s) => {
            assert forall|i: int| 0 <= i < s.len() implies !has_end(#[trigger] s[i]) by {
                lemma_printable_has_no_end(s[i]);
            }
        },
        Value::Compound(es) => {
            assert forall|i: int| 0 <= i < es.len() implies !has_end((#[trigger] es[i]).1) by {
                lemma_printable_has_no_end(es[i].1);
            }
        },
        _ => {},
    }
}

proof fn lemma_children(v: Value)
    ensures
        v is List ==> (printable(v) ==> forall|i: int|
            0 <= i < v->List_0.len() ==> printable(#[trigger] v->List_0[i])),
        v is List ==> forall|i: int|
            0 <= i < v->List_0.len() && has_end(#[trigger] v->List_0[i]) ==> has_end(v),
        v is Compound ==> (printable(v) ==> forall|i: int|
            0 <= i < v->Compound_0.len() ==> printable((#[trigger] v->Compound_0[i]).1)),
        v is Compound ==> forall|i: int|
            0 <= i < v->Compound_0.len() && has_end((#[trigger] v->Compound_0[i]).1) ==> has_end(v),
{
    if v is List {
        let s = v->List_0;
        assert forall|i: int| 0 <= i < s.len() implies decreases_to!(v => #[trigger] s[i]) by {
            assert(decreases_to!(v => v->List_0));
            assert(decreases_to!(s => s[i]));
        }
    }
    if v is Compound {
        let es = v->Compound_0;
        assert forall|i: int| 0 <= i < es.len() implies decreases_to!(v => (#[trigger] es[i]).1) by {
            assert(decreases_to!(v => v->Compound_0));
            assert(decreases_to!(es => es[i]));
            assert(decreases_to!(es[i] => es[i].1));
        }
    }
}

fn push_nat(out: &mut String, n: u64)
    ensures
        final(out)@ == old(out)@ + nat_text(n as nat),
    decreases n,
{
    if n >= 10 {
        push_nat(out, n / 10);
    }
    push_char(out, ((n % 10 + 48) as u8) as char);
    assert(final(out)@ =~= old(out)@ + nat_text(n as nat));
}

fn push_int(out: &mut String, v: i64)
    ensures
        final(out)@ == old(out)@ + int_text(v as int),
{
    if v < 0 {
        push_char(out, '-');
        let m: u64 = if v == -9223372036854775807 - 1 {
            9223372036854775808
        } else {
            (-v) as u64
        };
        push_nat(out, m);
        assert(final(out)@ =~= old(out)@ + int_text(v as int));
    } else {
        push_nat(out, v as u64);
    }
}

fn push_str(out: &mut String, s: &str)
    ensures
        final(out)@ == old(out)@ + s@,
{
    let ghost start = out@;
    for c in it: s.chars()
        invariant
            out@ == start + it.seq().take(it.index() as int),
    {
        push_char(out, c);
        assert(out@ =~= start + it.seq().take(it.index() as int + 1));
    }
    assert(out@ =~= start + s@);
}

/// Appends `s` quoted and escaped.
fn push_quoted(out: &mut String, s: &str)
    ensures
        final(out)@ == old(out)@ + quoted(s@),
{
    let chars = chars_of(s);
    let q = match first_quote_of(&chars) {
        Some(c) => if c == '"' {
            '\''
        } else {
            '"'
        },
        None => '"',
    };
    assert(q == chosen_quote(s@));
    let ghost start = out@;
    push_char(out, q);
    let mut j: usize = 0;
    while j < chars.len()
        invariant
            j <= chars@.len(),
            chars@ == s@,
            out@ == start + seq![q] + escaped(chars@.subrange(0, j as int), q),
        decreases chars@.len() - j,
    {
        let c = chars[j];
        if c == '\\' || c == q {
            push_char(out, '\\');
        }
        push_char(out, c);
        assert(chars@.subrange(0, j + 1).drop_last() =~= chars@.subrange(0, j as int));
        j += 1;
    }
    push_char(out, q);
    assert(chars@.subrange(0, chars@.len() as int) =~= chars@);
    assert(final(out)@ =~= old(out)@ + quoted(s@));
}

fn first_quote_of(chars: &Vec<char>) -> (r: Option<char>)
    ensures
        r == first_quote(chars@),
{
    let mut i: usize = 0;
    assert(chars@.subrange(0, chars@.len() as int) =~= chars@);
    while i < chars.len()
        invariant
            i <= chars@.len(),
            first_quote(chars@.subrange(i as int, chars@.len() as int)) == first_quote(chars@),
        decreases chars@.len() - i,
    {
        let c = chars[i];
        assert(chars@.subrange(i as int, chars@.len() as int)[0] == c);
        if c == '"' || c == '\'' {
            return Some(c);
        }
        assert(chars@.subrange(i as int, chars@.len() as int).drop_first() =~= chars@.subrange(
            i + 1,
            chars@.len() as int,
        ));
        i += 1;
    }
    None
}

fn is_simple_key(s: &str) -> (r: bool)
    ensures
        r == simple_key(s@),
{
    let chars = chars_of(s);
    let mut i: usize = 0;
    while i < chars.len()
        invariant
            i <= chars@.len(),
            chars@ == s@,
            forall|j: int| 0 <= j < i ==> unquoted_char(#[trigger] s@[j]),
        decreases chars@.len() - i,
    {
        if !Reader::is_allowed_in_unquoted_string(chars[i]) {
            return false;
        }
        i += 1;
    }
    chars.len() > 0
}


fn push_i8s(out: &mut String, v: &Vec<i8>, suffix: &str)
    ensures
        final(out)@ == old(out)@ + ints_text(ints_of_i8(v@), suffix@),
{
    let ghost start = out@;
    let ghost all = ints_of_i8(v@);
    let mut i: usize = 0;
    while i < v.len()
        invariant
            i <= v@.len(),
            all == ints_of_i8(v@),
            out@ == start + ints_text(all.subrange(0, i as int), suffix@),
        decreases v@.len() - i,
    {
        if i > 0 {
            push_char(out, ',');
        }
        push_int(out, v[i] as i64);
        push_str(out, suffix);
        assert(all.subrange(0, i + 1).drop_last() =~= all.subrange(0, i as int));
        assert(out@ =~= start + ints_text(all.subrange(0, i + 1), suffix@));
        i += 1;
    }
    assert(all.subrange(0, v@.len() as int) =~= all);
}

fn push_i32s(out: &mut String, v: &Vec<i32>, suffix: &str)
    ensures
        final(out)@ == old(out)@ + ints_text(ints_of_i32(v@), suffix@),
{
    let ghost start = out@;
    let ghost all = ints_of_i32(v@);
    let mut i: usize = 0;
    while i < v.len()
        invariant
            i <= v@.len(),
            all == ints_of_i32(v@),
            out@ == start + ints_text(all.subrange(0, i as int), suffix@),
        decreases v@.len() - i,
    {
        if i > 0 {
            push_char(out, ',');
        }
        push_int(out, v[i] as i64);
        push_str(out, suffix);
        assert(all.subrange(0, i + 1).drop_last() =~= all.subrange(0, i as int));
        assert(out@ =~= start + ints_text(all.subrange(0, i + 1), suffix@));
        i += 1;
    }
    assert(all.subrange(0, v@.len() as int) =~= all);
}

fn push_i64s(out: &mut String, v: &Vec<i64>, suffix: &str)
    ensures
        final(out)@ == old(out)@ + ints_text(ints_of_i64(v@), suffix@),
{
    let ghost start = out@;
    let ghost all = ints_of_i64(v@);
    let mut i: usize = 0;
    while i < v.len()
        invariant
            i <= v@.len(),
            all == ints_of_i64(v@),
            out@ == start + ints_text(all.subrange(0, i as int), suffix@),
        decreases v@.len() - i,
    {
        if i > 0 {
            push_char(out, ',');
        }
        push_int(out, v[i] as i64);
        push_str(out, suffix);
        assert(all.subrange(0, i + 1).drop_last() =~= all.subrange(0, i as int));
        assert(out@ =~= start + ints_text(all.subrange(0, i + 1), suffix@));
        i += 1;
    }
    assert(all.subrange(0, v@.len() as int) =~= all);
}

fn write_snbt<F: FloatText>(out: &mut String, t: &Tag, ft: &F) -> (r: Result<(), PrintError>)
    ensures
        r is Err <==> has_end(t@),
        printable(t@) ==> final(out)@ == old(out)@ + snbt(t@),
    decreases t,
{
    let ghost start = out@;
    proof {
        if printable(t@) {
            lemma_printable_has_no_end(t@);
        }
    }
    match t {
        Tag::End => Err(PrintError::End),
        Tag::Byte(x) => {
            push_int(out, *x as i64);
            push_char(out, 'b');
            Ok(())
        },
        Tag::Short(x) => {
            push_int(out, *x as i64);
            push_char(out, 's');
            Ok(())
        },
        Tag::Int(x) => {
            push_int(out, *x as i64);
            Ok(())
        },
        Tag::Long(x) => {
            push_int(out, *x);
            push_char(out, 'L');
            Ok(())
        },
        Tag::Float(b) => {
            let text = ft.show_float(*b);
            push_str(out, text.as_str());
            push_char(out, 'f');
            Ok(())
        },
        Tag::Double(b) => {
            let text = ft.show_double(*b);
            push_str(out, text.as_str());
            push_char(out, 'd');
            Ok(())
        },
        Tag::String(s) => {
            push_quoted(out, s.as_str());
            Ok(())
        },
        Tag::ByteArray(v) => {
            push_str(out, "[B;");
            push_i8s(out, v, "b");
            push_char(out, ']');
            proof {
                reveal_strlit("[B;");
                assert("[B;"@ =~= seq!['[', 'B', ';']);
                reveal_strlit("b");
                assert("b"@ =~= seq!['b']);
                assert(out@ =~= start + snbt(t@));
            }
            Ok(())
        },
        Tag::IntArray(v) => {
            push_str(out, "[I;");
            push_i32s(out, v, "");
            push_char(out, ']');
            proof {
                reveal_strlit("[I;");
                assert("[I;"@ =~= seq!['[', 'I', ';']);
                reveal_strlit("");
                assert(""@ =~= Seq::<char>::empty());
                assert(out@ =~= start + snbt(t@));
            }
            Ok(())
        },
        Tag::LongArray(v) => {
            push_str(out, "[L;");
            push_i64s(out, v, "L");
            push_char(out, ']');
            proof {
                reveal_strlit("[L;");
                assert("[L;"@ =~= seq!['[', 'L', ';']);
                reveal_strlit("L");
                assert("L"@ =~= seq!['L']);
                assert(out@ =~= start + snbt(t@));
            }
            Ok(())
        },
        Tag::List(v) => {
            proof {
                lemma_values_of(v@);
            }
            let ghost vals = values_of(v@);
            assert(t@ == Value::List(vals));
            proof {
                lemma_children(t@);
            }
            push_char(out, '[');
            let ghost mid = out@;
            let mut i: usize = 0;
            while i < v.len()
                invariant
                    i <= v@.len(),
                    *t == Tag::List(*v),
                    vals == values_of(v@),
                    vals.len() == v@.len(),
                    forall|j: int| 0 <= j < v@.len() ==> #[trigger] vals[j] == v@[j]@,
                    forall|j: int| 0 <= j < i ==> !has_end(#[trigger] vals[j]),
                    forall|j: int| 0 <= j < vals.len() && has_end(#[trigger] vals[j]) ==> has_end(t@),
                    printable(t@) ==> forall|j: int| 0 <= j < vals.len() ==> printable(#[trigger] vals[j]),
                    printable(t@) ==> !has_end(t@),
                    t@ == Value::List(vals),
                    printable(t@) ==> out@ == mid + list_text(vals.subrange(0, i as int)),
                decreases v@.len() - i,
            {
                if i > 0 {
                    push_char(out, ',');
                }
                proof {
                    assert(decreases_to!(*t => (*t)->List_0));
                    assert(decreases_to!(*v => v@));
                    assert(decreases_to!(v@ => v@[i as int]));
                    assert(t@ == Value::List(vals));
                    if printable(t@) {
                        assert(printable(vals[i as int]));
                    }
                }
                let ghost before = out@;
                match write_snbt(out, &v[i], ft) {
                    Ok(()) => {},
                    Err(e) => {
                        assert(has_end(vals[i as int]));
                        return Err(e);
                    },
                }
                proof {
                    let sub = vals.subrange(0, i + 1);
                    assert(sub.subrange(0, i as int) =~= vals.subrange(0, i as int));
                    assert(sub[i as int] == vals[i as int]);
                    if printable(t@) {
                        assert(out@ =~= mid + list_text(vals.subrange(0, i + 1)));
                    }
                }
                i += 1;
            }
            push_char(out, ']');
            proof {
                assert(vals.subrange(0, vals.len() as int) =~= vals);
                if printable(t@) {
                    assert(out@ =~= start + snbt(t@));
                }
            }
            Ok(())
        },
        Tag::Compound(es) => {
            proof {
                lemma_entries_of(es@);
            }
            let ghost ents = entries_of(es@);
            assert(t@ == Value::Compound(ents));
            proof {
                lemma_children(t@);
            }
            push_char(out, '{');
            let ghost mid = out@;
            let mut i: usize = 0;
            while i < es.len()
                invariant
                    i <= es@.len(),
                    *t == Tag::Compound(*es),
                    ents == entries_of(es@),
                    ents.len() == es@.len(),
                    forall|j: int|
                        0 <= j < es@.len() ==> #[trigger] ents[j] == (es@[j].0@, es@[j].1@),
                    forall|j: int| 0 <= j < i ==> !has_end((#[trigger] ents[j]).1),
                    forall|j: int| 0 <= j < ents.len() && has_end((#[trigger] ents[j]).1) ==> has_end(t@),
                    printable(t@) ==> forall|j: int| 0 <= j < ents.len() ==> printable((#[trigger] ents[j]).1),
                    printable(t@) ==> !has_end(t@),
                    t@ == Value::Compound(ents),
                    printable(t@) ==> out@ == mid + entries_text(ents.subrange(0, i as int)),
                decreases es@.len() - i,
            {
                if i > 0 {
                    push_char(out, ',');
                }
                let ghost b0 = out@;
                let e = &es[i];
                assert(ents[i as int] == (e.0@, e.1@));
                if is_simple_key(e.0.as_str()) {
                    push_str(out, e.0.as_str());
                } else {
                    push_quoted(out, e.0.as_str());
                }
                push_char(out, ':');
                assert(out@ =~= b0 + key_text(e.0@) + seq![':']);
                proof {
                    assert(decreases_to!(*t => (*t)->Compound_0));
                    assert(decreases_to!(*es => es@));
                    assert(decreases_to!(es@ => es@[i as int]));
                    assert(decreases_to!(es@[i as int] => es@[i as int].1));
                    assert(t@ == Value::Compound(ents));
                    if printable(t@) {
                        assert(printable(ents[i as int].1));
                    }
                }
                match write_snbt(out, &e.1, ft) {
                    Ok(()) => {},
                    Err(x) => {
                        assert(has_end(e.1@));
                        assert(ents[i as int].1 == e.1@);
                        assert(has_end(ents[i as int].1));
                        return Err(x);
                    },
                }
                proof {
                    let sub = ents.subrange(0, i + 1);
                    assert(sub.subrange(0, i as int) =~= ents.subrange(0, i as int));
                    assert(sub[i as int] == ents[i as int]);
                    if printable(t@) {
                        assert(out@ =~= b0 + entry_text(ents[i as int]));
                        assert(out@ =~= mid + entries_text(ents.subrange(0, i + 1)));
                    }
                }
                i += 1;
            }
            push_char(out, '}');
            proof {
                assert(ents.subrange(0, ents.len() as int) =~= ents);
                if printable(t@) {
                    assert(out@ =~= start + snbt(t@));
                }
            }
            Ok(())
        },
    }
}

impl Tag {
    /// The text form of this tag; `End`, at the root or below it, has none.
    pub fn to_snbt<F: FloatText>(&self, ft: &F) -> (r: Result<String, PrintError>)
        ensures
            r is Err <==> has_end(self@),
            printable(self@) ==> (r matches Ok(s) && s@ == snbt(self@)),
    {
        let mut out = String::new();
        proof {
            if printable(self@) {
                lemma_printable_has_no_end(self@);
            }
        }
        match write_snbt(&mut out, self, ft) {
            Ok(()) => Ok(out),
            Err(e) => Err(e),
        }
    }
}

} // verus!
