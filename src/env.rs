//! Environment variables as configuration: names mapped to paths, texts
//! coerced to typed values.

use vstd::prelude::*;
use vstd::string::StrSliceExecFns;
use vstd::string::StringExecFns;
use crate::source::strings_view;
use crate::text::{split, split_str};
use crate::value::{find_key, get, insert, Table, Val, Value};

verus! {

/// `c` is an ASCII letter.
pub open spec fn is_ascii_letter(c: char) -> bool {
    ('A' <= c && c <= 'Z') || ('a' <= c && c <= 'z')
}

/// `a` and `b` are equal but for the case of ASCII letters.
pub open spec fn chars_eq_ignore_case(a: char, b: char) -> bool {
    a == b || (is_ascii_letter(a) && is_ascii_letter(b) && (a as u32 + 32 == b as u32 || b as u32
        + 32 == a as u32))
}

/// `a` and `b` are equal but for the case of ASCII letters.
pub open spec fn eq_ignore_ascii_case(a: Seq<char>, b: Seq<char>) -> bool {
    a.len() == b.len() && forall|i: int| 0 <= i < a.len() ==> chars_eq_ignore_case(a[i], b[i])
}

/// `c` is an ASCII digit.
pub open spec fn is_digit(c: char) -> bool {
    '0' <= c && c <= '9'
}

/// `s` without a leading `-`.
pub open spec fn unsigned_part(s: Seq<char>) -> Seq<char> {
    if s.len() > 0 && s[0] == '-' {
        s.drop_first()
    } else {
        s
    }
}

/// `s` is an optional `-` followed by one or more ASCII digits.
pub open spec fn integer_like(s: Seq<char>) -> bool {
    let d = unsigned_part(s);
    d.len() > 0 && forall|i: int| 0 <= i < d.len() ==> is_digit(#[trigger] d[i])
}

/// The number that the decimal digits `d` write.
pub open spec fn digits_value(d: Seq<char>) -> nat
    decreases d.len(),
{
    if d.len() == 0 {
        0
    } else {
        digits_value(d.drop_last()) * 10 + (d.last() as u32 - 48) as nat
    }
}

/// The integer that an integer-like text writes.
pub open spec fn integer_of(s: Seq<char>) -> int {
    if s.len() > 0 && s[0] == '-' {
        -(digits_value(unsigned_part(s)) as int)
    } else {
        digits_value(unsigned_part(s)) as int
    }
}

/// `x` fits in an `i64`.
pub open spec fn fits_i64(x: int) -> bool {
    i64::MIN <= x <= i64::MAX
}

/// The typed value for the text `s` of an environment variable, where
/// `float_text` is the canonical text of `s` read as a 64-bit float (`None`
/// when it does not read as one): `true`/`false` in any ASCII case, then an
/// integer that fits 64 bits, then (for a text with a `.`) a float, else the
/// text itself.
pub open spec fn coerce(s: Seq<char>, float_text: Option<Seq<char>>) -> Val {
    if eq_ignore_ascii_case(s, seq!['t', 'r', 'u', 'e']) {
        Val::Bool(true)
    } else if eq_ignore_ascii_case(s, seq!['f', 'a', 'l', 's', 'e']) {
        Val::Bool(false)
    } else if integer_like(s) && fits_i64(integer_of(s)) {
        Val::Int(integer_of(s))
    } else if s.contains('.') && float_text is Some {
        Val::Float(float_text->0)
    } else {
        Val::Str(s)
    }
}

/// Whether `s` equals the lower-case ASCII word `w` but for case.
fn matches_ignore_case(s: &str, w: &str) -> (r: bool)
    ensures
        r == eq_ignore_ascii_case(s@, w@),
{
    let n = s.unicode_len();
    if n != w.unicode_len() {
        return false;
    }
    let mut i: usize = 0;
    while i < n
        invariant
            n == s@.len(),
            n == w@.len(),
            i <= n,
            forall|j: int| 0 <= j < i ==> chars_eq_ignore_case(s@[j], w@[j]),
        decreases n - i,
    {
        let a = s.get_char(i);
        let b = w.get_char(i);
        let a_letter = ('A' <= a && a <= 'Z') || ('a' <= a && a <= 'z');
        let b_letter = ('A' <= b && b <= 'Z') || ('a' <= b && b <= 'z');
        let same = a == b || (a_letter && b_letter && (a as u32 + 32 == b as u32 || b as u32 + 32
            == a as u32));
        if !same {
            return false;
        }
        i = i + 1;
    }
    true
}

/// Whether `s` is an optional `-` followed by one or more ASCII digits.
#[verifier::loop_isolation(false)]
fn looks_like_integer(s: &str) -> (r: bool)
    ensures
        r == integer_like(s@),
{
    let n = s.unicode_len();
    let start: usize = if n > 0 && s.get_char(0) == '-' {
        1
    } else {
        0
    };
    let ghost d = unsigned_part(s@);
    assert(d =~= s@.subrange(start as int, n as int));
    if start == n {
        return false;
    }
    let mut i: usize = start;
    while i < n
        invariant
            start <= i <= n,
            n == s@.len(),
            d =~= s@.subrange(start as int, n as int),
            forall|j: int| 0 <= j < i - start ==> is_digit(#[trigger] d[j]),
        decreases n - i,
    {
        let c = s.get_char(i);
        if !('0' <= c && c <= '9') {
            assert(d[i - start] == c);
            assert(!is_digit(d[i - start]));
            return false;
        }
        i = i + 1;
    }
    true
}

proof fn lemma_digits_value_prefix(d: Seq<char>, i: int)
    requires
        0 <= i <= d.len(),
    ensures
        digits_value(d.take(i)) <= digits_value(d),
    decreases d.len(),
{
    if i < d.len() {
        assert(d.drop_last().take(i) =~= d.take(i));
        lemma_digits_value_prefix(d.drop_last(), i);
    } else {
        assert(d.take(i) =~= d);
    }
}

/// The integer that the integer-like `s` writes, where it fits in an `i64`.
#[verifier::loop_isolation(false)]
fn parse_integer(s: &str) -> (r: Option<i64>)
    requires
        integer_like(s@),
    ensures
        match r {
            Some(x) => fits_i64(integer_of(s@)) && x as int == integer_of(s@),
            None => !fits_i64(integer_of(s@)),
        },
{
    let n = s.unicode_len();
    let negative = s.get_char(0) == '-';
    let start: usize = if negative {
        1
    } else {
        0
    };
    let ghost d = unsigned_part(s@);
    assert(d =~= s@.subrange(start as int, n as int));
    let limit: u64 = 9223372036854775808;
    let mut mag: u64 = 0;
    let mut i: usize = start;
    assert(d.take(0) =~= Seq::<char>::empty());
    while i < n
        invariant
            start <= i <= n,
            n == s@.len(),
            d =~= s@.subrange(start as int, n as int),
            forall|j: int| 0 <= j < d.len() ==> is_digit(#[trigger] d[j]),
            mag as nat == digits_value(d.take(i - start)),
            mag <= limit,
        decreases n - i,
    {
        let c = s.get_char(i);
        assert(d[i - start] == c);
        assert(is_digit(c));
        assert(48 <= c as u32 <= 57);
        let digit = (c as u32 - 48) as u64;
        assert(d.take(i - start + 1).drop_last() =~= d.take(i - start));
        assert(d.take(i - start + 1).last() == c);
        assert(digits_value(d.take(i - start + 1)) == mag * 10 + digit);
        if mag > (limit - digit) / 10 {
            proof {
                assert(digits_value(d.take(i - start + 1)) > limit) by (nonlinear_arith)
                    requires
                        digits_value(d.take(i - start + 1)) == mag * 10 + digit,
                        mag > (limit - digit) / 10,
                        digit <= 9,
                ;
                lemma_digits_value_prefix(d, i - start + 1);
            }
            return None;
        }
        proof {
            assert(mag * 10 + digit <= limit) by (nonlinear_arith)
                requires
                    mag <= (limit - digit) / 10,
                    digit <= 9,
            ;
        }
        mag = mag * 10 + digit;
        i = i + 1;
    }
    assert(d.take(n - start) =~= d);
    if negative {
        if mag == limit {
            Some(-9223372036854775807i64 - 1)
        } else {
            Some(-(mag as i64))
        }
    } else if mag == limit {
        None
    } else {
        Some(mag as i64)
    }
}

/// Whether `s` holds a `.`.
fn has_dot(s: &str) -> (r: bool)
    ensures
        r == s@.contains('.'),
{
    let n = s.unicode_len();
    let mut i: usize = 0;
    while i < n
        invariant
            n == s@.len(),
            i <= n,
            forall|j: int| 0 <= j < i ==> s@[j] != '.',
        decreases n - i,
    {
        if s.get_char(i) == '.' {
            return true;
        }
        i = i + 1;
    }
    false
}

/// The model of an optional string.
pub open spec fn opt_view(o: Option<String>) -> Option<Seq<char>> {
    match o {
        Some(s) => Some(s@),
        None => None,
    }
}

/// The typed value for the text `s` of an environment variable (see `coerce`);
/// `float_text` is the canonical text of `s` read as a 64-bit float, or
/// `None` where it does not read as one.
pub fn coerce_value(s: &str, float_text: Option<String>) -> (r: Value)
    ensures
        r@ == coerce(s@, opt_view(float_text)),
{
    proof {
        reveal_strlit("true");
        reveal_strlit("false");
        assert("true"@ =~= seq!['t', 'r', 'u', 'e']);
        assert("false"@ =~= seq!['f', 'a', 'l', 's', 'e']);
    }
    if matches_ignore_case(s, "true") {
        return Value::Boolean(true);
    }
    if matches_ignore_case(s, "false") {
        return Value::Boolean(false);
    }
    if looks_like_integer(s) {
        if let Some(i) = parse_integer(s) {
            return Value::Integer(i);
        }
    }
    if has_dot(s) {
        if let Some(f) = float_text {
            return Value::Float(f);
        }
    }
    Value::String(String::from_str(s))
}

/// The lower-case form of a text, as `str::to_lowercase` gives it.
pub uninterp spec fn lower_of(s: Seq<char>) -> Seq<char>;

/// Relies on `str::to_lowercase`: its result depends on the characters of
/// `s` alone.
#[verifier::external_body]
fn lowercase(s: &str) -> (r: String)
    ensures
        r@ == lower_of(s@),
{
    s.to_lowercase()
}

/// `t` with `v` inserted at `path`, each segment taken in lower case: an inner
/// segment makes sure a table stands there (replacing anything else) and
/// descends into it; the last one stores `v`, replacing what was there.
pub open spec fn insert_path(t: Seq<(Seq<char>, Val)>, path: Seq<Seq<char>>, v: Val) -> Seq<
    (Seq<char>, Val),
>
    decreases path.len(),
{
    if path.len() == 0 {
        t
    } else if path.len() == 1 {
        insert(t, lower_of(path[0]), v)
    } else {
        let k = lower_of(path[0]);
        let inner = match get(t, k) {
            Some(Val::Table(s)) => s,
            _ => Seq::empty(),
        };
        insert(t, k, Val::Table(insert_path(inner, path.drop_first(), v)))
    }
}

/// Inserts `value` at `path` (see `insert_path`).
pub fn insert_at_path(table: &mut Table, path: &[String], value: Value)
    ensures
        final(table)@ == insert_path(old(table)@, strings_view(path@), value@),
{
    assert(strings_view(path@).subrange(0, path@.len() as int) =~= strings_view(path@));
    insert_from(table, path, 0, value);
}

#[verifier::loop_isolation(false)]
fn insert_from(table: &mut Table, path: &[String], start: usize, value: Value)
    requires
        start <= path@.len(),
    ensures
        final(table)@ == insert_path(
            old(table)@,
            strings_view(path@).subrange(start as int, path@.len() as int),
            value@,
        ),
    decreases path@.len() - start,
{
    let ghost p = strings_view(path@).subrange(start as int, path@.len() as int);
    let ghost t0 = table@;
    if start == path.len() {
        return;
    }
    let key = lowercase(path[start].as_str());
    assert(lower_of(p[0]) == key@);
    let found = find_key(&table.entries, &key);
    if start + 1 == path.len() {
        match found {
            Some(i) => {
                table.entries.set(i, (key, value));
            },
            None => {
                table.entries.push((key, value));
            },
        }
        assert(table@ =~= insert_path(t0, p, value@));
        return;
    }
    let idx: usize = match found {
        Some(i) => {
            let is_table = match &table.entries[i].1 {
                Value::Table(_) => true,
                _ => false,
            };
            if !is_table {
                table.entries.set(i, (key.clone(), Value::Table(Table::new())));
            }
            i
        },
        None => {
            table.entries.push((key.clone(), Value::Table(Table::new())));
            table.entries.len() - 1
        },
    };
    assert(strings_view(path@).subrange(start as int + 1, path@.len() as int) =~= p.drop_first());
    match &mut table.entries[idx].1 {
        Value::Table(nested) => {
            insert_from(nested, path, start + 1, value);
        },
        _ => {},
    }
    assert(table@ =~= insert_path(t0, p, value@));
}

/// An environment variable: its name and text, and the canonical text of
/// its text read as a 64-bit float (`None` where it does not read as one).
#[derive(Debug, Clone)]
pub struct EnvVar {
    pub name: String,
    pub text: String,
    pub float_text: Option<String>,
}

impl EnvVar {
    pub open spec fn view(&self) -> (Seq<char>, Seq<char>, Option<Seq<char>>) {
        (self.name@, self.text@, opt_view(self.float_text))
    }
}

/// The path that the variable `name` maps to under `prefix` and `sep`: the
/// rest of the name after `prefix` and `sep`, cut at each `sep`. Names that
/// do not start with both, or hold nothing after them, map to none.
pub open spec fn env_path(name: Seq<char>, prefix: Seq<char>, sep: Seq<char>) -> Option<
    Seq<Seq<char>>,
> {
    let head = prefix + sep;
    if name.len() > head.len() && name.subrange(0, head.len() as int) == head {
        Some(split(name.subrange(head.len() as int, name.len() as int), sep))
    } else {
        None
    }
}

/// `t` after inserting each variable of `vars` that maps to a path, in order.
pub open spec fn load_env(
    t: Seq<(Seq<char>, Val)>,
    vars: Seq<(Seq<char>, Seq<char>, Option<Seq<char>>)>,
    prefix: Seq<char>,
    sep: Seq<char>,
) -> Seq<(Seq<char>, Val)>
    decreases vars.len(),
{
    if vars.len() == 0 {
        t
    } else {
        let t1 = load_env(t, vars.drop_last(), prefix, sep);
        let v = vars.last();
        match env_path(v.0, prefix, sep) {
            Some(p) => insert_path(t1, p, coerce(v.1, v.2)),
            None => t1,
        }
    }
}

/// The model of a sequence of variables.
pub open spec fn env_views(vars: Seq<EnvVar>) -> Seq<(Seq<char>, Seq<char>, Option<Seq<char>>)> {
    Seq::new(vars.len(), |i: int| vars[i]@)
}

/// Whether `name` starts with `head` (`name` has `n` characters, `head` `h`).
fn starts_with(name: &str, n: usize, head: &str, h: usize) -> (r: bool)
    requires
        n == name@.len(),
        h == head@.len(),
    ensures
        r == (h <= n && name@.subrange(0, h as int) == head@),
{
    if h > n {
        return false;
    }
    let mut i: usize = 0;
    while i < h
        invariant
            i <= h <= n,
            n == name@.len(),
            h == head@.len(),
            forall|j: int| 0 <= j < i ==> name@[j] == head@[j],
        decreases h - i,
    {
        if name.get_char(i) != head.get_char(i) {
            assert(name@.subrange(0, h as int)[i as int] != head@[i as int]);
            return false;
        }
        i = i + 1;
    }
    assert(name@.subrange(0, h as int) =~= head@);
    true
}

/// Inserts into `table` each variable whose name starts with `prefix`
/// followed by `separator`, at the path that the rest of its name gives
/// (see `env_path`), with its text coerced to a typed value (see `coerce`).
pub fn load_env_vars(table: &mut Table, vars: &Vec<EnvVar>, prefix: &str, separator: &str)
    requires
        separator@.len() > 0,
    ensures
        final(table)@ == load_env(old(table)@, env_views(vars@), prefix@, separator@),
{
    let ghost t0 = table@;
    let ghost vs = env_views(vars@);
    let mut head = String::from_str(prefix);
    head.append(separator);
    let h = head.as_str().unicode_len();
    let mut i: usize = 0;
    assert(vs.take(0) =~= Seq::<(Seq<char>, Seq<char>, Option<Seq<char>>)>::empty());
    while i < vars.len()
        invariant
            i <= vars@.len(),
            vs == env_views(vars@),
            head@ == prefix@ + separator@,
            h == head@.len(),
            separator@.len() > 0,
            table@ == load_env(t0, vs.take(i as int), prefix@, separator@),
        decreases vars@.len() - i,
    {
        let var = &vars[i];
        assert(vs.take(i as int + 1).drop_last() =~= vs.take(i as int));
        let name = var.name.as_str();
        let n = name.unicode_len();
        if n > h && starts_with(name, n, head.as_str(), h) {
            let rest = name.substring_char(h, n);
            let path = split_str(rest, separator);
            let ft = match &var.float_text {
                Some(f) => Some(f.clone()),
                None => None,
            };
            let value = coerce_value(var.text.as_str(), ft);
            insert_at_path(table, path.as_slice(), value);
        }
        i = i + 1;
    }
    assert(vs.take(vars@.len() as int) =~= vs);
}

} // verus!
