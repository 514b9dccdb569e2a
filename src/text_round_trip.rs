use vstd::prelude::*;
use crate::literal::{
    classify, int_shape, int_value, digits_value, is_digit, all_digits, lower,
};
use crate::parser::{
    parse_outcome, ws_end, homogeneous, Parsed, p_value, p_elems, p_entries, p_scalar, close, key_at,
};
use crate::printer::{
    nat_text, int_text, digit_char, snbt, escaped, chosen_quote, list_text, entries_text,
    entry_text, key_text, simple_key,
};
use crate::reader::{ParseError, is_white, quote_char, unquoted_char, run_end, scan_quoted};
use crate::tag::{
    Tag, Value, value_kind, keys_unique, has_key, entries_insert, lemma_entries_insert_absent,
};
use crate::kind::Kind;

verus! {

proof fn lemma_nat_text(n: nat)
    ensures
        nat_text(n).len() >= 1,
        all_digits(nat_text(n)),
        digits_value(nat_text(n)) == n,
        nat_text(n)[0] != '0' || nat_text(n).len() == 1,
    decreases n,
{
    let d = digit_char(n % 10);
    assert(d as u32 == (n % 10) + 48);
    if n < 10 {
        assert(nat_text(n).drop_last() =~= Seq::<char>::empty());
        assert(digits_value(nat_text(n)) == digits_value(Seq::<char>::empty()) * 10 + n);
    } else {
        lemma_nat_text(n / 10);
        let s = nat_text(n);
        assert(s.drop_last() =~= nat_text(n / 10));
        assert(all_digits(s)) by {
            assert forall|i: int| 0 <= i < s.len() implies is_digit(#[trigger] s[i]) by {
                if i < s.len() - 1 {
                    assert(s[i] == nat_text(n / 10)[i]);
                }
            }
        }
        assert(s[0] == nat_text(n / 10)[0]);
        if nat_text(n / 10).len() == 1 {
            assert(nat_text(n / 10)[0] != '0') by {
                if nat_text(n / 10)[0] == '0' {
                    let t = nat_text(n / 10);
                    assert(t.drop_last() =~= Seq::<char>::empty());
                    assert(t.last() == '0');
                    assert(digits_value(t) == digits_value(t.drop_last()) * 10 + 0);
                }
            }
        }
    }
}

proof fn lemma_int_text(v: int)
    ensures
        int_shape(int_text(v)),
        int_value(int_text(v)) == v,
        int_text(v).len() >= 1,
        forall|i: int|
            0 <= i < int_text(v).len() ==> unquoted_char(#[trigger] int_text(v)[i]) && !is_white(
                int_text(v)[i],
            ),
        is_digit(int_text(v).last()),
        int_text(v)[0] != '{' && int_text(v)[0] != '[' && !quote_char(int_text(v)[0]),
{
    let m: nat = if v < 0 {
        (-v) as nat
    } else {
        v as nat
    };
    lemma_nat_text(m);
    let s = int_text(v);
    let t = nat_text(m);
    if v < 0 {
        assert(s.subrange(1, s.len() as int) =~= t);
        assert(s[0] == '-');
        assert forall|i: int| 0 <= i < s.len() implies unquoted_char(#[trigger] s[i]) && !is_white(
            s[i],
        ) by {
            if i > 0 {
                assert(s[i] == t[i - 1]);
                assert(is_digit(t[i - 1]));
            }
        }
        assert(s.last() == t.last());
        assert(is_digit(t[t.len() - 1]));
    } else {
        assert(s.subrange(0, s.len() as int) =~= t);
        assert forall|i: int| 0 <= i < s.len() implies unquoted_char(#[trigger] s[i]) && !is_white(
            s[i],
        ) by {
            assert(is_digit(t[i]));
        }
        assert(is_digit(t[t.len() - 1]));
        assert(is_digit(t[0]));
    }
}

/// The class of a printed integer with its suffix letter.
proof fn lemma_classify_int(v: int, suffix: char)
    requires
        suffix == 'b' || suffix == 'l' || suffix == 's',
    ensures
        ({
            let s = int_text(v) + seq![if suffix == 'l' {
                'L'
            } else {
                suffix
            }];
            classify(s) == crate::literal::int_class(v, suffix)
        }),
{
    lemma_int_text(v);
    let letter = if suffix == 'l' {
        'L'
    } else {
        suffix
    };
    let s = int_text(v) + seq![letter];
    assert(s.drop_last() =~= int_text(v));
    assert(s.last() == letter);
    assert(lower(letter) == suffix);
}

pub open spec fn escape_one(c: char, q: char) -> Seq<char> {
    if c == '\\' || c == q {
        seq!['\\', c]
    } else {
        seq![c]
    }
}

proof fn lemma_escaped_front(s: Seq<char>, q: char)
    requires
        s.len() > 0,
    ensures
        escaped(s, q) == escape_one(s[0], q) + escaped(s.drop_first(), q),
    decreases s.len(),
{
    if s.len() == 1 {
        assert(s.drop_last() =~= Seq::<char>::empty());
        assert(s.drop_first() =~= Seq::<char>::empty());
        assert(escaped(s, q) =~= escape_one(s[0], q) + escaped(s.drop_first(), q));
    } else {
        lemma_escaped_front(s.drop_last(), q);
        assert(s.drop_last().drop_first() =~= s.drop_first().drop_last());
        assert(s.drop_first().last() == s.last());
        assert(escaped(s, q) =~= escape_one(s[0], q) + escaped(s.drop_first(), q));
    }
}

proof fn lemma_scan_escaped(t: Seq<char>, p: int, q: char, acc: Seq<char>, s: Seq<char>)
    requires
        0 <= p,
        p + escaped(s, q).len() + 1 <= t.len(),
        t.subrange(p, p + escaped(s, q).len() + 1) == escaped(s, q) + seq![q],
        q != '\\',
    ensures
        scan_quoted(t, p, q, acc, false) == Ok::<(Seq<char>, int), (ParseError, int)>(
            (acc + s, p + escaped(s, q).len() + 1),
        ),
    decreases s.len(),
{
    let w = escaped(s, q) + seq![q];
    assert(forall|i: int| 0 <= i < w.len() ==> t[p + i] == #[trigger] w[i]) by {
        assert forall|i: int| 0 <= i < w.len() implies t[p + i] == #[trigger] w[i] by {
            assert(t.subrange(p, p + w.len())[i] == t[p + i]);
        }
    }
    if s.len() == 0 {
        assert(escaped(s, q) =~= Seq::<char>::empty());
        assert(w[0] == q);
        assert(t[p] == w[0]);
        assert(acc + s =~= acc);
    } else {
        lemma_escaped_front(s, q);
        let e = escape_one(s[0], q);
        let rest = s.drop_first();
        let k = e.len() as int;
        assert(w =~= e + (escaped(rest, q) + seq![q]));
        assert(t.subrange(p + k, p + k + escaped(rest, q).len() + 1) =~= escaped(rest, q) + seq![q])
            by {
            assert forall|i: int| 0 <= i < escaped(rest, q).len() + 1 implies t.subrange(
                p + k,
                p + k + escaped(rest, q).len() + 1,
            )[i] == (escaped(rest, q) + seq![q])[i] by {
                assert(t[p + k + i] == w[k + i]);
            }
        }
        lemma_scan_escaped(t, p + k, q, acc.push(s[0]), rest);
        assert(acc.push(s[0]) + rest =~= acc + s);
        assert(t[p] == w[0]);
        assert(w[0] == e[0]);
        if s[0] == '\\' || s[0] == q {
            assert(t[p + 1] == w[1]);
            assert(w[1] == e[1]);
            assert(scan_quoted(t, p, q, acc, false) == scan_quoted(t, p + 1, q, acc, true));
            assert(scan_quoted(t, p + 1, q, acc, true) == scan_quoted(
                t,
                p + 2,
                q,
                acc.push(s[0]),
                false,
            ));
        } else {
            assert(scan_quoted(t, p, q, acc, false) == scan_quoted(
                t,
                p + 1,
                q,
                acc.push(s[0]),
                false,
            ));
        }
    }
}

proof fn lemma_chosen_quote(s: Seq<char>)
    ensures
        quote_char(chosen_quote(s)),
{
}

/// `x` stands in `t` at `p`.
pub open spec fn at_text(t: Seq<char>, p: int, x: Seq<char>) -> bool {
    0 <= p && p + x.len() <= t.len() && t.subrange(p, p + x.len()) == x
}

proof fn lemma_at_text_split(t: Seq<char>, p: int, x: Seq<char>, y: Seq<char>)
    requires
        at_text(t, p, x + y),
    ensures
        at_text(t, p, x),
        at_text(t, p + x.len(), y),
{
    let w = t.subrange(p, p + x.len() + y.len());
    assert(w == x + y);
    assert(t.subrange(p, p + x.len()) =~= w.subrange(0, x.len() as int));
    assert(w.subrange(0, x.len() as int) =~= x);
    assert(t.subrange(p + x.len(), p + x.len() + y.len()) =~= w.subrange(
        x.len() as int,
        w.len() as int,
    ));
    assert(w.subrange(x.len() as int, w.len() as int) =~= y);
}

proof fn lemma_at_text_index(t: Seq<char>, p: int, x: Seq<char>, i: int)
    requires
        at_text(t, p, x),
        0 <= i < x.len(),
    ensures
        t[p + i] == x[i],
{
    assert(t.subrange(p, p + x.len())[i] == t[p + i]);
}

proof fn lemma_run_end_exact(t: Seq<char>, q: int, e: int, f: spec_fn(char) -> bool)
    requires
        0 <= q <= e <= t.len(),
        forall|i: int| q <= i < e ==> f(#[trigger] t[i]),
        e == t.len() || !f(t[e]),
    ensures
        run_end(t, q, f) == e,
    decreases e - q,
{
    if q < e {
        lemma_run_end_exact(t, q + 1, e, f);
    }
}

/// The next character after a value, if any, ends it.
pub open spec fn follow_ok(t: Seq<char>, e: int) -> bool {
    e == t.len() || (0 <= e < t.len() && (t[e] == ',' || t[e] == ']' || t[e] == '}'))
}

/// A tree whose text form parses back to it: integers, strings, lists of one
/// kind and compounds with unique non-empty keys, without floats or typed
/// arrays.
pub open spec fn textual(v: Value) -> bool
    decreases v,
{
    match v {
        Value::Byte(_) | Value::Short(_) | Value::Int(_) | Value::Long(_) | Value::String(_) => true,
        Value::List(s) => homogeneous(s) && forall|i: int| 0 <= i < s.len() ==> textual(#[trigger] s[i]),
        Value::Compound(es) => keys_unique(es) && forall|i: int|
            0 <= i < es.len() ==> (#[trigger] es[i]).0.len() > 0 && textual(es[i].1),
        _ => false,
    }
}

proof fn lemma_textual_unfold(v: Value)
    ensures
        v is List ==> (textual(v) <==> (homogeneous(v->List_0) && forall|i: int|
            0 <= i < v->List_0.len() ==> textual(#[trigger] v->List_0[i]))),
        v is Compound ==> (textual(v) <==> (keys_unique(v->Compound_0) && forall|i: int|
            0 <= i < v->Compound_0.len() ==> (#[trigger] v->Compound_0[i]).0.len() > 0 && textual(
                v->Compound_0[i].1,
            ))),
{
    if v is List {
        let s = v->List_0;
        assert forall|i: int| 0 <= i < s.len() implies decreases_to!(v => #[trigger] s[i]) by {
            assert(decreases_to!(v => v->List_0));
            assert(decreases_to!(s => s[i]));
        }
    }
    if v is Compound {
        let es = v->Compound_0;
        assert forall|i: int| 0 <= i < es.len() implies decreases_to!(v => (#[trigger] es[i]).1) by {
            assert(decreases_to!(v => v->Compound_0));
            assert(decreases_to!(es => es[i]));
            assert(decreases_to!(es[i] => es[i].1));
        }
    }
}

proof fn lemma_list_text_front(s: Seq<Value>)
    requires
        s.len() > 0,
    ensures
        list_text(s) == snbt(s[0]) + if s.len() > 1 {
            seq![','] + list_text(s.subrange(1, s.len() as int))
        } else {
            Seq::empty()
        },
    decreases s.len(),
{
    if s.len() == 1 {
        assert(list_text(s) =~= snbt(s[0]));
    } else if s.len() == 2 {
        let init = s.subrange(0, 1);
        assert(list_text(init) == snbt(init[0]));
        let rest = s.subrange(1, 2);
        assert(list_text(rest) == snbt(rest[0]));
        assert(list_text(s) =~= snbt(s[0]) + seq![','] + list_text(rest));
    } else {
        let init = s.subrange(0, s.len() - 1);
        lemma_list_text_front(init);
        let rest = s.subrange(1, s.len() as int);
        assert(init.subrange(1, init.len() as int) =~= rest.subrange(0, rest.len() - 1));
        assert(rest[rest.len() - 1] == s[s.len() - 1]);
        assert(list_text(s) =~= snbt(s[0]) + (seq![','] + list_text(rest)));
    }
}

proof fn lemma_entries_text_front(es: Seq<(Seq<char>, Value)>)
    requires
        es.len() > 0,
    ensures
        entries_text(es) == entry_text(es[0]) + if es.len() > 1 {
            seq![','] + entries_text(es.subrange(1, es.len() as int))
        } else {
            Seq::empty()
        },
    decreases es.len(),
{
    if es.len() == 1 {
        assert(entries_text(es) =~= entry_text(es[0]));
    } else if es.len() == 2 {
        let rest = es.subrange(1, 2);
        assert(entries_text(es.subrange(0, 1)) == entry_text(es[0]));
        assert(entries_text(rest) == entry_text(rest[0]));
        assert(entries_text(es) =~= entry_text(es[0]) + seq![','] + entries_text(rest));
    } else {
        let init = es.subrange(0, es.len() - 1);
        lemma_entries_text_front(init);
        let rest = es.subrange(1, es.len() as int);
        assert(init.subrange(1, init.len() as int) =~= rest.subrange(0, rest.len() - 1));
        assert(rest[rest.len() - 1] == es[es.len() - 1]);
        assert(entries_text(es) =~= entry_text(es[0]) + (seq![','] + entries_text(rest)));
    }
}

/// A character that can open a printed value.
pub open spec fn opener(c: char) -> bool {
    !is_white(c) && c != ',' && c != ']' && c != '}' && c != ';' && c != ':'
}

/// The integer kinds print as one unquoted token.
pub open spec fn int_kind(v: Value) -> bool {
    v is Byte || v is Short || v is Int || v is Long
}

proof fn lemma_int_token(v: Value)
    requires
        int_kind(v),
    ensures
        snbt(v).len() >= 1,
        forall|i: int| 0 <= i < snbt(v).len() ==> unquoted_char(#[trigger] snbt(v)[i]),
        opener(snbt(v)[0]),
        !quote_char(snbt(v)[0]),
        snbt(v)[0] != '{' && snbt(v)[0] != '[',
{
    let n: int = match v {
        Value::Byte(x) => x as int,
        Value::Short(x) => x as int,
        Value::Int(x) => x as int,
        Value::Long(x) => x as int,
        _ => 0,
    };
    lemma_int_text(n);
    let it = int_text(n);
    let s = snbt(v);
    assert forall|i: int| 0 <= i < s.len() implies unquoted_char(#[trigger] s[i]) by {
        if i < it.len() {
            assert(s[i] == it[i]);
        }
    }
    assert(s[0] == it[0]);
}

proof fn lemma_first_char(v: Value)
    requires
        textual(v),
    ensures
        snbt(v).len() >= 1,
        opener(snbt(v)[0]),
        v is List ==> snbt(v)[0] == '[',
        v is Compound ==> snbt(v)[0] == '{',
        v is String ==> quote_char(snbt(v)[0]),
        int_kind(v) ==> !quote_char(snbt(v)[0]) && snbt(v)[0] != '{' && snbt(v)[0] != '[',
        snbt(v).len() >= 2 && !quote_char(snbt(v)[0]) ==> snbt(v)[1] != ';',
    decreases v,
{
    lemma_textual_unfold(v);
    if int_kind(v) {
        lemma_int_token(v);
        if snbt(v).len() >= 2 {
            assert(unquoted_char(snbt(v)[1]));
        }
    } else if v is String {
        lemma_chosen_quote(v->String_0);
    } else if v is List {
        let s = v->List_0;
        if s.len() > 0 {
            assert(decreases_to!(v => v->List_0));
            assert(decreases_to!(s => s[0]));
            lemma_first_char(s[0]);
            lemma_list_text_front(s);
            assert(snbt(v)[1] == snbt(s[0])[0]);
        }
    } else if v is Compound {
        let es = v->Compound_0;
        if es.len() > 0 {
            lemma_entries_text_front(es);
            let k = es[0].0;
            assert(snbt(v)[1] == entry_text(es[0])[0]);
            assert(entry_text(es[0])[0] == key_text(k)[0]);
            if simple_key(k) {
                assert(unquoted_char(k[0]));
            } else {
                lemma_chosen_quote(k);
            }
        }
    }
}


proof fn lemma_ws_none(t: Seq<char>, p: int)
    requires
        0 <= p < t.len(),
        !is_white(t[p]),
    ensures
        ws_end(t, p) == p,
{
    lemma_run_end_exact(t, p, p, |c: char| is_white(c));
}

/// Parsing the text of a value where it stands in `t` gives the value back.
proof fn lemma_parse_value(t: Seq<char>, p: int, v: Value)
    requires
        textual(v),
        at_text(t, p, snbt(v)),
        follow_ok(t, p + snbt(v).len()),
    ensures
        p_value(t, p) == Parsed::Done(v, p + snbt(v).len()),
    decreases v, 1int,
{
    lemma_first_char(v);
    lemma_textual_unfold(v);
    let x = snbt(v);
    let e = p + x.len();
    lemma_at_text_index(t, p, x, 0);
    lemma_ws_none(t, p);
    if int_kind(v) {
        lemma_int_token(v);
        assert forall|i: int| p <= i < e implies unquoted_char(#[trigger] t[i]) by {
            lemma_at_text_index(t, p, x, i - p);
        }
        lemma_run_end_exact(t, p, e, |c: char| unquoted_char(c));
        assert(t.subrange(p, e) == x);
        match v {
            Value::Byte(b) => {
                lemma_classify_int(b as int, 'b');
            },
            Value::Short(b) => {
                lemma_classify_int(b as int, 's');
            },
            Value::Long(b) => {
                lemma_classify_int(b as int, 'l');
            },
            Value::Int(b) => {
                lemma_int_text(b as int);
                assert(x == int_text(b as int));
                assert(lower(x.last()) != 'f' && lower(x.last()) != 'b' && lower(x.last()) != 'l'
                    && lower(x.last()) != 's');
            },
            _ => {},
        }
        assert(p_value(t, p) == p_scalar(t, p));
    } else if v is String {
        let s = v->String_0;
        let q = chosen_quote(s);
        lemma_chosen_quote(s);
        let body = escaped(s, q);
        assert(x == seq![q] + (body + seq![q]));
        lemma_at_text_split(t, p, seq![q], body + seq![q]);
        lemma_scan_escaped(t, p + 1, q, Seq::empty(), s);
        assert(Seq::<char>::empty() + s =~= s);
        assert(p_value(t, p) == p_scalar(t, p));
    } else if v is List {
        let s = v->List_0;
        assert(x == seq!['['] + list_text(s) + seq![']']);
        if s.len() == 0 {
            assert(list_text(s) =~= Seq::<char>::empty());
            lemma_at_text_index(t, p, x, 1);
            lemma_ws_none(t, p + 1);
            assert(t[p + 1] == ']');
            assert(p_elems(t, p + 1, Kind::End, Seq::empty()) == close(
                t,
                p + 1,
                ']',
                Value::List(Seq::empty()),
            ));
            assert(Value::List(Seq::<Value>::empty()) == v) by {
                assert(s =~= Seq::<Value>::empty());
            }
        } else {
            assert(decreases_to!(v => v->List_0));
            lemma_first_char(s[0]);
            lemma_list_text_front(s);
            lemma_at_text_index(t, p, x, 1);
            assert(t[p + 1] == snbt(s[0])[0]);
            lemma_ws_none(t, p + 1);
            if !quote_char(t[p + 1]) && t.len() - p >= 3 {
                lemma_at_text_index(t, p, x, 2);
                if snbt(s[0]).len() >= 2 {
                    assert(t[p + 2] == snbt(s[0])[1]);
                } else {
                    assert(t[p + 2] == ',' || t[p + 2] == ']');
                }
            }
            assert(x == seq!['['] + (list_text(s) + seq![']']));
            lemma_at_text_split(t, p, seq!['['], list_text(s) + seq![']']);
            lemma_parse_elems(t, p + 1, Kind::End, Seq::empty(), s);
            assert(Seq::<Value>::empty() + s =~= s);
        }
    } else {
        let es = v->Compound_0;
        assert(x == seq!['{'] + entries_text(es) + seq!['}']);
        if es.len() == 0 {
            assert(entries_text(es) =~= Seq::<char>::empty());
            lemma_at_text_index(t, p, x, 1);
            lemma_ws_none(t, p + 1);
            assert(t[p + 1] == '}');
            assert(Value::Compound(Seq::<(Seq<char>, Value)>::empty()) == v) by {
                assert(es =~= Seq::<(Seq<char>, Value)>::empty());
            }
        } else {
            assert(decreases_to!(v => v->Compound_0));
            lemma_entries_text_front(es);
            lemma_at_text_index(t, p, x, 1);
            let k = es[0].0;
            assert(t[p + 1] == key_text(k)[0]);
            if simple_key(k) {
                assert(unquoted_char(k[0]));
            } else {
                lemma_chosen_quote(k);
            }
            lemma_ws_none(t, p + 1);
            assert(x == seq!['{'] + (entries_text(es) + seq!['}']));
            lemma_at_text_split(t, p, seq!['{'], entries_text(es) + seq!['}']);
            lemma_parse_entries(t, p + 1, Seq::empty(), es);
            assert(Seq::<(Seq<char>, Value)>::empty() + es =~= es);
        }
    }
}

proof fn lemma_parse_elems(t: Seq<char>, q: int, kind: Kind, acc: Seq<Value>, s: Seq<Value>)
    requires
        s.len() > 0,
        homogeneous(s),
        forall|i: int| 0 <= i < s.len() ==> textual(#[trigger] s[i]),
        kind == Kind::End || kind == value_kind(s[0]),
        at_text(t, q, list_text(s) + seq![']']),
    ensures
        p_elems(t, q, kind, acc) == Parsed::Done(
            Value::List(acc + s),
            q + list_text(s).len() + 1,
        ),
    decreases s, 0int,
{
    let s0 = s[0];
    let rest = s.subrange(1, s.len() as int);
    lemma_list_text_front(s);
    lemma_first_char(s0);
    let tail = if s.len() > 1 {
        seq![','] + list_text(rest)
    } else {
        Seq::<char>::empty()
    };
    assert(list_text(s) + seq![']'] =~= snbt(s0) + (tail + seq![']']));
    lemma_at_text_split(t, q, snbt(s0), tail + seq![']']);
    lemma_at_text_index(t, q, snbt(s0), 0);
    let e0 = q + snbt(s0).len();
    lemma_at_text_index(t, e0, tail + seq![']'], 0);
    lemma_parse_value(t, q, s0);
    lemma_ws_none(t, e0);
    let acc2 = acc.push(s0);
    if s.len() > 1 {
        assert(t[e0] == ',');
        assert(tail + seq![']'] =~= seq![','] + (list_text(rest) + seq![']']));
        lemma_at_text_split(t, e0, seq![','], list_text(rest) + seq![']']);
        assert(rest[0] == s[1]);
        lemma_first_char(rest[0]);
        lemma_list_text_front(rest);
        lemma_at_text_index(t, e0 + 1, list_text(rest) + seq![']'], 0);
        lemma_ws_none(t, e0 + 1);
        assert(homogeneous(rest)) by {
            assert forall|i: int| 0 <= i < rest.len() implies value_kind(#[trigger] rest[i])
                == value_kind(rest[0]) by {
                assert(rest[i] == s[i + 1]);
            }
        }
        assert forall|i: int| 0 <= i < rest.len() implies textual(#[trigger] rest[i]) by {
            assert(rest[i] == s[i + 1]);
        }
        lemma_parse_elems(t, e0 + 1, value_kind(s0), acc2, rest);
        assert(acc2 + rest =~= acc + s);
    } else {
        assert(t[e0] == ']');
        assert(acc2 =~= acc + s);
    }
}

proof fn lemma_parse_entries(
    t: Seq<char>,
    q: int,
    acc: Seq<(Seq<char>, Value)>,
    es: Seq<(Seq<char>, Value)>,
)
    requires
        es.len() > 0,
        keys_unique(es),
        forall|i: int|
            0 <= i < es.len() ==> (#[trigger] es[i]).0.len() > 0 && textual(es[i].1),
        forall|i: int| 0 <= i < es.len() ==> !has_key(acc, (#[trigger] es[i]).0),
        at_text(t, q, entries_text(es) + seq!['}']),
    ensures
        p_entries(t, q, acc) == Parsed::Done(
            Value::Compound(acc + es),
            q + entries_text(es).len() + 1,
        ),
    decreases es, 0int,
{
    let e = es[0];
    let k = e.0;
    let v = e.1;
    let rest = es.subrange(1, es.len() as int);
    lemma_entries_text_front(es);
    let tail = if es.len() > 1 {
        seq![','] + entries_text(rest)
    } else {
        Seq::<char>::empty()
    };
    let kt = key_text(k);
    assert(entries_text(es) + seq!['}'] =~= kt + (seq![':'] + (snbt(v) + (tail + seq!['}']))));
    lemma_at_text_split(t, q, kt, seq![':'] + (snbt(v) + (tail + seq!['}'])));
    let e1 = q + kt.len();
    lemma_at_text_split(t, e1, seq![':'], snbt(v) + (tail + seq!['}']));
    lemma_at_text_split(t, e1 + 1, snbt(v), tail + seq!['}']);
    lemma_at_text_index(t, e1, seq![':'], 0);
    lemma_at_text_index(t, q, kt, 0);
    let e2 = e1 + 1 + snbt(v).len();
    lemma_at_text_index(t, e2, tail + seq!['}'], 0);
    if simple_key(k) {
        assert(kt == k);
        assert(unquoted_char(k[0]));
        assert forall|i: int| q <= i < e1 implies unquoted_char(#[trigger] t[i]) by {
            lemma_at_text_index(t, q, kt, i - q);
        }
        lemma_run_end_exact(t, q, e1, |c: char| unquoted_char(c));
        assert(t.subrange(q, e1) == k);
    } else {
        let qc = chosen_quote(k);
        lemma_chosen_quote(k);
        let body = escaped(k, qc);
        assert(kt == seq![qc] + (body + seq![qc]));
        lemma_at_text_split(t, q, seq![qc], body + seq![qc]);
        lemma_at_text_index(t, q, seq![qc], 0);
        lemma_scan_escaped(t, q + 1, qc, Seq::empty(), k);
        assert(Seq::<char>::empty() + k =~= k);
    }
    lemma_ws_none(t, q);
    lemma_ws_none(t, e1);
    assert(key_at(t, q) == Ok::<(Seq<char>, int), ParseError>((k, e1)));
    assert(decreases_to!(es => es[0]));
    assert(decreases_to!(e => e.1));
    lemma_first_char(v);
    lemma_parse_value(t, e1 + 1, v);
    lemma_ws_none(t, e2);
    lemma_entries_insert_absent(acc, k, v);
    let acc2 = acc.push(e);
    assert(entries_insert(acc, k, v) == acc2);
    if es.len() > 1 {
        assert(t[e2] == ',');
        assert(tail + seq!['}'] =~= seq![','] + (entries_text(rest) + seq!['}']));
        lemma_at_text_split(t, e2, seq![','], entries_text(rest) + seq!['}']);
        lemma_entries_text_front(rest);
        assert(rest[0] == es[1]);
        lemma_at_text_index(t, e2 + 1, entries_text(rest) + seq!['}'], 0);
        let k1 = rest[0].0;
        assert(entry_text(rest[0])[0] == key_text(k1)[0]);
        if simple_key(k1) {
            assert(unquoted_char(k1[0]));
        } else {
            lemma_chosen_quote(k1);
        }
        lemma_ws_none(t, e2 + 1);
        assert(keys_unique(rest)) by {
            assert forall|i: int, j: int| 0 <= i < j < rest.len() implies rest[i].0 != rest[j].0 by {
                assert(rest[i] == es[i + 1]);
                assert(rest[j] == es[j + 1]);
            }
        }
        assert forall|i: int| 0 <= i < rest.len() implies (#[trigger] rest[i]).0.len() > 0
            && textual(rest[i].1) by {
            assert(rest[i] == es[i + 1]);
        }
        assert forall|i: int| 0 <= i < rest.len() implies !has_key(acc2, (#[trigger] rest[i]).0) by {
            assert(rest[i] == es[i + 1]);
            assert(es[0].0 != es[i + 1].0);
            if has_key(acc2, rest[i].0) {
                let j = choose|j: int| 0 <= j < acc2.len() && acc2[j].0 == rest[i].0;
                if j < acc.len() {
                    assert(acc[j].0 == es[i + 1].0);
                }
            }
        }
        lemma_parse_entries(t, e2 + 1, acc2, rest);
        assert(acc2 + rest =~= acc + es);
    } else {
        assert(t[e2] == '}');
        assert(acc2 =~= acc + es);
    }
}

/// Printing a tree of integers, strings, lists of one kind and compounds
/// with unique non-empty keys, and parsing the text, gives the tree back.
pub proof fn lemma_text_round_trip(v: Value, r: Result<Tag, ParseError>)
    requires
        textual(v),
        parse_outcome(snbt(v), r),
    ensures
        r matches Ok(t) && t@ == v,
{
    let x = snbt(v);
    assert(x.subrange(0, x.len() as int) =~= x);
    lemma_parse_value(x, 0, v);
}

} // verus!
