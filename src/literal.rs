use vstd::prelude::*;
use crate::reader::{push_char, run_end, lemma_run_end_bounds};

verus! {

pub open spec fn is_digit(c: char) -> bool {
    '0' <= c && c <= '9'
}

pub open spec fn lower(c: char) -> char {
    if 'A' <= c && c <= 'Z' {
        ((c as u8) + 32) as char
    } else {
        c
    }
}

/// Length of an optional leading sign.
pub open spec fn sign_len(s: Seq<char>) -> int {
    if s.len() > 0 && (s[0] == '+' || s[0] == '-') {
        1
    } else {
        0
    }
}

pub open spec fn all_digits(s: Seq<char>) -> bool {
    forall|i: int| 0 <= i < s.len() ==> is_digit(#[trigger] s[i])
}

/// `[-+]?(0|[1-9][0-9]*)`
pub open spec fn int_shape(s: Seq<char>) -> bool {
    let t = s.subrange(sign_len(s), s.len() as int);
    t.len() > 0 && all_digits(t) && (t[0] != '0' || t.len() == 1)
}

/// `[-+]?(M)(e[-+]?[0-9]+)?` where M is `[0-9]+[.]|[0-9]*[.][0-9]+`, or also
/// `[0-9]+` when `point_optional`; the exponent letter in either case.
pub open spec fn decimal_shape(s: Seq<char>, point_optional: bool) -> bool {
    let t = s.subrange(sign_len(s), s.len() as int);
    let e = run_end(t, 0, |c: char| lower(c) != 'e');
    let m = t.subrange(0, e);
    let x = t.subrange(e, t.len() as int);
    let d = run_end(m, 0, |c: char| is_digit(c));
    let mantissa_ok = if d == m.len() {
        point_optional && d > 0
    } else {
        m[d] == '.' && all_digits(m.subrange(d + 1, m.len() as int)) && (d > 0 || m.len() > d
            + 1)
    };
    let exponent_ok = x.len() == 0 || {
        let y = x.subrange(1, x.len() as int);
        let z = y.subrange(sign_len(y), y.len() as int);
        z.len() > 0 && all_digits(z)
    };
    mantissa_ok && exponent_ok
}

/// `s` is a number of the given shape followed by the suffix letter `f`, in
/// either case.
pub open spec fn suffixed(s: Seq<char>, f: char) -> bool {
    s.len() > 0 && lower(s.last()) == f
}

/// The value of a string of decimal digits.
pub open spec fn digits_value(s: Seq<char>) -> nat
    decreases s.len(),
{
    if s.len() == 0 {
        0
    } else {
        digits_value(s.drop_last()) * 10 + ((s.last() as u32) - ('0' as u32)) as nat
    }
}

/// The value of an integer of `int_shape`.
pub open spec fn int_value(s: Seq<char>) -> int {
    let v = digits_value(s.subrange(sign_len(s), s.len() as int)) as int;
    if sign_len(s) == 1 && s[0] == '-' {
        -v
    } else {
        v
    }
}

pub open spec fn lower_seq(s: Seq<char>) -> Seq<char> {
    s.map_values(|c: char| lower(c))
}

fn lower_char(c: char) -> (r: char)
    ensures
        r == lower(c),
{
    if c >= 'A' && c <= 'Z' {
        ((#[verifier::truncate] (c as u8)) + 32) as char
    } else {
        c
    }
}

fn digit_run(s: &Vec<char>, from: usize) -> (r: usize)
    requires
        from <= s@.len(),
    ensures
        r == run_end(s@, from as int, |c: char| is_digit(c)),
        from <= r <= s@.len(),
{
    let ghost f = |c: char| is_digit(c);
    let mut i = from;
    while i < s.len() && s[i] >= '0' && s[i] <= '9'
        invariant
            from <= i <= s@.len(),
            f == (|c: char| is_digit(c)),
            run_end(s@, i as int, f) == run_end(s@, from as int, f),
        decreases s@.len() - i,
    {
        proof {
            assert(f(s@[i as int]));
        }
        i += 1;
    }
    i
}

proof fn lemma_run_end_shift(t: Seq<char>, k: int, p: int, f: spec_fn(char) -> bool)
    requires
        0 <= k <= t.len(),
        0 <= p <= t.len() - k,
    ensures
        run_end(t.subrange(k, t.len() as int), p, f) == run_end(t, k + p, f) - k,
    decreases t.len() - k - p,
{
    let u = t.subrange(k, t.len() as int);
    if p < u.len() && f(u[p]) {
        lemma_run_end_shift(t, k, p + 1, f);
    }
}

/// Whether `s[from..to]` is all digits.
fn digits_between(s: &Vec<char>, from: usize, to: usize) -> (r: bool)
    requires
        from <= to <= s@.len(),
    ensures
        r == all_digits(s@.subrange(from as int, to as int)),
{
    let mut i = from;
    while i < to
        invariant
            from <= i <= to <= s@.len(),
            forall|j: int| from <= j < i ==> is_digit(#[trigger] s@[j]),
        decreases to - i,
    {
        if !(s[i] >= '0' && s[i] <= '9') {
            assert(!is_digit(s@.subrange(from as int, to as int)[i - from]));
            return false;
        }
        i += 1;
    }
    assert forall|j: int| 0 <= j < to - from implies is_digit(
        #[trigger] s@.subrange(from as int, to as int)[j],
    ) by {
        assert(s@.subrange(from as int, to as int)[j] == s@[from + j]);
    }
    true
}


/// Whether `s` has the shape `[-+]?(0|[1-9][0-9]*)`.
fn int_shape_of(s: &Vec<char>) -> (r: bool)
    ensures
        r == int_shape(s@),
{
    let k: usize = if s.len() > 0 && (s[0] == '+' || s[0] == '-') {
        1
    } else {
        0
    };
    let ghost t = s@.subrange(k as int, s@.len() as int);
    if k == s.len() {
        return false;
    }
    assert(t[0] == s@[k as int]);
    let ok = digits_between(s, k, s.len());
    ok && (s[k] != '0' || s.len() == k + 1)
}

/// Whether `s` has the decimal shape of `decimal_shape`.
#[verifier::rlimit(40)]
fn decimal_shape_of(s: &Vec<char>, point_optional: bool) -> (r: bool)
    ensures
        r == decimal_shape(s@, point_optional),
{
    let k: usize = if s.len() > 0 && (s[0] == '+' || s[0] == '-') {
        1
    } else {
        0
    };
    let ghost t = s@.subrange(k as int, s@.len() as int);
    let ghost fe = |c: char| lower(c) != 'e';
    let ghost fd = |c: char| is_digit(c);
    let mut e = k;
    while e < s.len() && lower_char(s[e]) != 'e'
        invariant
            k <= e <= s@.len(),
            fe == (|c: char| lower(c) != 'e'),
            run_end(s@, e as int, fe) == run_end(s@, k as int, fe),
        decreases s@.len() - e,
    {
        proof {
            assert(fe(s@[e as int]));
        }
        e += 1;
    }
    proof {
        lemma_run_end_shift(s@, k as int, 0, fe);
        assert(run_end(s@, e as int, fe) == e);
    }
    let ghost m = t.subrange(0, e - k);
    let d = digit_run(s, k);
    let d = if d > e {
        e
    } else {
        d
    };
    proof {
        lemma_run_end_bounds(s@, k as int, fd);
        assert(m =~= s@.subrange(k as int, e as int));
        lemma_run_end_shift(s@.subrange(0, e as int), k as int, 0, fd);
        assert(s@.subrange(0, e as int).subrange(k as int, e as int) =~= m);
        lemma_run_end_bounds(s@.subrange(0, e as int), k as int, fd);
        assert(forall|i: int| k <= i < e ==> s@.subrange(0, e as int)[i] == s@[i]);
        if run_end(s@.subrange(0, e as int), k as int, fd) < d {
            let j = run_end(s@.subrange(0, e as int), k as int, fd);
            assert(!fd(s@[j]));
        }
        if d < run_end(s@.subrange(0, e as int), k as int, fd) {
            assert(fd(s@[d as int]));
        }
        assert(run_end(m, 0, fd) == d - k);
    }
    let mantissa_ok = if d == e {
        point_optional && d > k
    } else {
        assert(m[d - k] == s@[d as int]);
        let rest = digits_between(s, d + 1, e);
        assert(m.subrange(d - k + 1, m.len() as int) =~= s@.subrange(d + 1, e as int));
        s[d] == '.' && rest && (d > k || e > d + 1)
    };
    let ghost x = t.subrange(e - k, t.len() as int);
    assert(x =~= s@.subrange(e as int, s@.len() as int));
    let exponent_ok = if e == s.len() {
        true
    } else {
        let ghost y = x.subrange(1, x.len() as int);
        assert(y =~= s@.subrange(e + 1, s@.len() as int));
        let j: usize = if e + 1 < s.len() && (s[e + 1] == '+' || s[e + 1] == '-') {
            e + 2
        } else {
            e + 1
        };
        assert(y.subrange(sign_len(y), y.len() as int) =~= s@.subrange(j as int, s@.len() as int));
        j < s.len() && digits_between(s, j, s.len())
    };
    mantissa_ok && exponent_ok
}


/// The magnitude of the digits `s[from..to]`, when it is at most 2^63.
fn digits_magnitude(s: &Vec<char>, from: usize, to: usize) -> (r: Option<u64>)
    requires
        from <= to <= s@.len(),
        all_digits(s@.subrange(from as int, to as int)),
    ensures
        match r {
            Some(v) => v as int == digits_value(s@.subrange(from as int, to as int)),
            None => digits_value(s@.subrange(from as int, to as int)) > 9223372036854775808,
        },
{
    let mut v: u64 = 0;
    let mut i = from;
    while i < to
        invariant
            from <= i <= to <= s@.len(),
            all_digits(s@.subrange(from as int, to as int)),
            v as int == digits_value(s@.subrange(from as int, i as int)),
            v <= 9223372036854775808,
        decreases to - i,
    {
        assert(s@.subrange(from as int, to as int)[i - from] == s@[i as int]);
        let d = (s[i] as u32 - '0' as u32) as u64;
        assert(s@.subrange(from as int, i + 1).drop_last() =~= s@.subrange(from as int, i as int));
        if v > (9223372036854775808 - d) / 10 {
            proof {
                lemma_digits_value_grows(s@.subrange(from as int, to as int), (i + 1 - from) as int);
                assert(s@.subrange(from as int, to as int).subrange(0, i + 1 - from) =~= s@.subrange(
                    from as int,
                    i + 1,
                ));
            }
            return None;
        }
        v = v * 10 + d;
        i += 1;
    }
    Some(v)
}

proof fn lemma_digits_value_grows(s: Seq<char>, n: int)
    requires
        0 <= n <= s.len(),
        all_digits(s),
    ensures
        digits_value(s.subrange(0, n)) <= digits_value(s),
    decreases s.len(),
{
    if n < s.len() {
        assert(s.drop_last() =~= s.subrange(0, s.len() - 1));
        assert(all_digits(s.drop_last())) by {
            assert forall|i: int| 0 <= i < s.drop_last().len() implies is_digit(
                #[trigger] s.drop_last()[i],
            ) by {
                assert(s.drop_last()[i] == s[i]);
            }
        }
        assert(s.drop_last().subrange(0, n) =~= s.subrange(0, n));
        lemma_digits_value_grows(s.drop_last(), n);
    } else {
        assert(s.subrange(0, n) =~= s);
    }
}

/// What an unquoted token reads as, before any floating-point conversion.
pub enum Class {
    Byte(i8),
    Short(i16),
    Int(i32),
    Long(i64),
    /// A float literal, with the decimal text to convert.
    Float(Seq<char>),
    /// A double literal, with the decimal text to convert.
    Double(Seq<char>),
    /// No number: the token stands as a string.
    Text,
}

pub open spec fn int_class(v: int, suffix: char) -> Class {
    if suffix == 'b' {
        if -128 <= v <= 127 { Class::Byte(v as i8) } else { Class::Text }
    } else if suffix == 's' {
        if -32768 <= v <= 32767 { Class::Short(v as i16) } else { Class::Text }
    } else if suffix == 'l' {
        if -9223372036854775808 <= v <= 9223372036854775807 { Class::Long(v as i64) } else { Class::Text }
    } else {
        if -2147483648 <= v <= 2147483647 { Class::Int(v as i32) } else { Class::Text }
    }
}

/// The class of a token, trying in turn: float `f`, byte `b`, long `l`,
/// short `s`, bare integer, double `d`, bare decimal, then `true` / `false`
/// in any case. A number out of its type's range reads as text.
pub open spec fn classify(s: Seq<char>) -> Class {
    let body = s.drop_last();
    if suffixed(s, 'f') && decimal_shape(body, true) {
        Class::Float(body)
    } else if suffixed(s, 'b') && int_shape(body) {
        int_class(int_value(body), 'b')
    } else if suffixed(s, 'l') && int_shape(body) {
        int_class(int_value(body), 'l')
    } else if suffixed(s, 's') && int_shape(body) {
        int_class(int_value(body), 's')
    } else if int_shape(s) {
        int_class(int_value(s), 'i')
    } else if suffixed(s, 'd') && decimal_shape(body, true) {
        Class::Double(body)
    } else if decimal_shape(s, false) {
        Class::Double(s)
    } else if lower_seq(s) == seq!['t', 'r', 'u', 'e'] {
        Class::Byte(1)
    } else if lower_seq(s) == seq!['f', 'a', 'l', 's', 'e'] {
        Class::Byte(0)
    } else {
        Class::Text
    }
}

/// The executable form of `Class`.
pub enum Scalar {
    Byte(i8),
    Short(i16),
    Int(i32),
    Long(i64),
    Float(String),
    Double(String),
    Text,
}

impl View for Scalar {
    type V = Class;

    open spec fn view(&self) -> Class {
        match self {
            Scalar::Byte(x) => Class::Byte(*x),
            Scalar::Short(x) => Class::Short(*x),
            Scalar::Int(x) => Class::Int(*x),
            Scalar::Long(x) => Class::Long(*x),
            Scalar::Float(t) => Class::Float(t@),
            Scalar::Double(t) => Class::Double(t@),
            Scalar::Text => Class::Text,
        }
    }
}

/// The integer that `s[..n]` reads as, in the range of the type that
/// `suffix` names.
fn int_of(s: &Vec<char>, n: usize, suffix: char) -> (r: Scalar)
    requires
        n <= s@.len(),
        int_shape(s@.subrange(0, n as int)),
    ensures
        r@ == int_class(int_value(s@.subrange(0, n as int)), suffix),
{
    let ghost b = s@.subrange(0, n as int);
    let k: usize = if n > 0 && (s[0] == '+' || s[0] == '-') {
        1
    } else {
        0
    };
    assert(b.subrange(k as int, n as int) =~= s@.subrange(k as int, n as int));
    let neg = k == 1 && s[0] == '-';
    match digits_magnitude(s, k, n) {
        None => {
            return Scalar::Text;
        },
        Some(m) => {
            let (lo, hi): (u64, u64) = if suffix == 'b' {
                (128, 127)
            } else if suffix == 's' {
                (32768, 32767)
            } else if suffix == 'l' {
                (9223372036854775808, 9223372036854775807)
            } else {
                (2147483648, 2147483647)
            };
            if (neg && m > lo) || (!neg && m > hi) {
                return Scalar::Text;
            }
            let v: i64 = if neg {
                if m == 9223372036854775808 {
                    -9223372036854775807 - 1
                } else {
                    -(m as i64)
                }
            } else {
                m as i64
            };
            if suffix == 'b' {
                Scalar::Byte(v as i8)
            } else if suffix == 's' {
                Scalar::Short(v as i16)
            } else if suffix == 'l' {
                Scalar::Long(v)
            } else {
                Scalar::Int(v as i32)
            }
        },
    }
}

/// The string made of `s[from..to]`.
pub(crate) fn string_of(s: &Vec<char>, from: usize, to: usize) -> (r: String)
    requires
        from <= to <= s@.len(),
    ensures
        r@ == s@.subrange(from as int, to as int),
{
    let mut r = String::new();
    let mut i = from;
    while i < to
        invariant
            from <= i <= to <= s@.len(),
            r@ == s@.subrange(from as int, i as int),
        decreases to - i,
    {
        push_char(&mut r, s[i]);
        i += 1;
        assert(r@ =~= s@.subrange(from as int, i as int));
    }
    r
}

fn equals_lower(s: &Vec<char>, w: &str) -> (r: bool)
    requires
        w@.len() <= 8,
    ensures
        r == (lower_seq(s@) == w@),
{
    let n = w.unicode_len();
    if s.len() != n {
        assert(lower_seq(s@).len() != w@.len());
        return false;
    }
    let mut i: usize = 0;
    while i < n
        invariant
            i <= n == s@.len() == w@.len(),
            forall|j: int| 0 <= j < i ==> lower(s@[j]) == w@[j],
        decreases n - i,
    {
        if lower_char(s[i]) != w.get_char(i) {
            assert(lower_seq(s@)[i as int] != w@[i as int]);
            return false;
        }
        i += 1;
    }
    assert(lower_seq(s@) =~= w@);
    true
}

/// Classifies an unquoted token.
#[verifier::rlimit(40)]
pub fn classify_token(s: &Vec<char>) -> (r: Scalar)
    ensures
        r@ == classify(s@),
{
    let n = s.len();
    let last = if n > 0 {
        lower_char(s[n - 1])
    } else {
        ' '
    };
    let ghost body = if n > 0 {
        s@.drop_last()
    } else {
        s@
    };
    let b = if n > 0 {
        n - 1
    } else {
        0
    };
    proof {
        if n > 0 {
            assert(body =~= s@.subrange(0, b as int));
        }
    }
    let mut body_chars: Vec<char> = Vec::new();
    let mut i: usize = 0;
    while i < b
        invariant
            i <= b <= n == s@.len(),
            body_chars@ == s@.subrange(0, i as int),
        decreases b - i,
    {
        body_chars.push(s[i]);
        i += 1;
        assert(body_chars@ =~= s@.subrange(0, i as int));
    }
    if n > 0 && last == 'f' && decimal_shape_of(&body_chars, true) {
        return Scalar::Float(string_of(s, 0, b));
    }
    let body_int = n > 0 && int_shape_of(&body_chars);
    if body_int && (last == 'b' || last == 'l' || last == 's') {
        assert(s@.subrange(0, b as int) =~= body);
        return int_of(s, b, last);
    }
    if int_shape_of(s) {
        assert(s@.subrange(0, n as int) =~= s@);
        return int_of(s, n, 'i');
    }
    if n > 0 && last == 'd' && decimal_shape_of(&body_chars, true) {
        return Scalar::Double(string_of(s, 0, b));
    }
    if decimal_shape_of(s, false) {
        assert(s@.subrange(0, n as int) =~= s@);
        return Scalar::Double(string_of(s, 0, n));
    }
    proof {
        reveal_strlit("true");
        reveal_strlit("false");
        assert("true"@ =~= seq!['t', 'r', 'u', 'e']);
        assert("false"@ =~= seq!['f', 'a', 'l', 's', 'e']);
    }
    if equals_lower(s, "true") {
        return Scalar::Byte(1);
    }
    if equals_lower(s, "false") {
        return Scalar::Byte(0);
    }
    Scalar::Text
}

} // verus!
