//! The reference resolver: `${path.to.field}` substitution in string values,
//! repeated until a pass makes no substitution.

use vstd::prelude::*;
use vstd::string::StrSliceExecFns;
use vstd::string::StringExecFns;
use crate::error::{ConfigError, Failure};
use crate::source::strings_view;
use crate::text::{int_text, integer_text, lemma_split_from_nonempty, split, split_str};
use crate::value::{entries_view, find_key, items_view, walk, Table, Val, Value};

verus! {

/// The text of `true` or `false`.
pub open spec fn bool_text(b: bool) -> Seq<char> {
    if b {
        seq!['t', 'r', 'u', 'e']
    } else {
        seq!['f', 'a', 'l', 's', 'e']
    }
}

/// The text that stands for the scalar `v` (found at reference path `p`).
pub open spec fn scalar_text(v: Val, p: Seq<char>) -> Result<Seq<char>, Failure> {
    match v {
        Val::Str(s) => Ok(s),
        Val::Int(i) => Ok(int_text(i)),
        Val::Float(t) => Ok(t),
        Val::Bool(b) => Ok(bool_text(b)),
        Val::Datetime(t) => Ok(t),
        _ => Err(Failure::NonScalar(p)),
    }
}

/// The text that replaces a reference to the dotted path `p`, looked up in `root`.
pub open spec fn lookup_text(root: Seq<(Seq<char>, Val)>, p: Seq<char>) -> Result<Seq<char>, Failure> {
    let parts = split(p, seq!['.']);
    if exists|i: int| 0 <= i < parts.len() && parts[i].len() == 0 {
        Err(Failure::InvalidPath(p))
    } else {
        match walk(Val::Table(root), parts) {
            None => Err(Failure::NotFound(p)),
            Some(v) => scalar_text(v, p),
        }
    }
}

/// The text of a scalar value; tables and arrays have none.
fn value_to_string(value: &Value, path: &str) -> (r: Result<String, ConfigError>)
    ensures
        r is Ok ==> scalar_text(value@, path@) == Ok::<Seq<char>, Failure>(r->Ok_0@),
        r is Err ==> scalar_text(value@, path@) == Err::<Seq<char>, Failure>(r->Err_0@),
{
    match value {
        Value::String(s) => Ok(s.clone()),
        Value::Integer(i) => Ok(integer_text(*i)),
        Value::Float(t) => Ok(String::from_str(t.as_str())),
        Value::Boolean(b) => {
            if *b {
                proof {
                    reveal_strlit("true");
                    assert("true"@ =~= bool_text(true));
                }
                Ok(String::from_str("true"))
            } else {
                proof {
                    reveal_strlit("false");
                    assert("false"@ =~= bool_text(false));
                }
                Ok(String::from_str("false"))
            }
        },
        Value::Datetime(t) => Ok(String::from_str(t.as_str())),
        _ => Err(ConfigError::NonScalarReference(String::from_str(path))),
    }
}

/// Looks up the dotted path `path` in `root` and returns the text of its value.
#[verifier::loop_isolation(false)]
fn lookup_path(root: &Table, path: &str) -> (r: Result<String, ConfigError>)
    ensures
        match r {
            Ok(text) => lookup_text(root@, path@) == Ok::<Seq<char>, Failure>(text@),
            Err(e) => lookup_text(root@, path@) == Err::<Seq<char>, Failure>(e@),
        },
{
    proof {
        reveal_strlit(".");
    }
    let parts = split_str(path, ".");
    let ghost ps = strings_view(parts@);
    proof {
        assert(".".view() =~= seq!['.']);
        lemma_split_from_nonempty(path@, seq!['.'], 0);
    }
    assert(ps == split(path@, seq!['.']));
    let mut i: usize = 0;
    while i < parts.len()
        invariant
            i <= parts@.len(),
            ps == strings_view(parts@),
            forall|j: int| 0 <= j < i ==> ps[j].len() != 0,
        decreases parts@.len() - i,
    {
        if parts[i].as_str().is_empty() {
            assert(ps[i as int].len() == 0);
            return Err(ConfigError::InvalidReferencePath(String::from_str(path)));
        }
        i = i + 1;
    }
    assert(!exists|j: int| 0 <= j < ps.len() && ps[j].len() == 0);
    let mut cur: &Value = match find_key(&root.entries, &parts[0]) {
        Some(idx) => &root.entries[idx].1,
        None => {
            return Err(ConfigError::ReferenceNotFound(String::from_str(path)));
        },
    };
    assert(ps.subrange(1, ps.len() as int) =~= ps.drop_first());
    let mut k: usize = 1;
    while k < parts.len()
        invariant
            1 <= k <= parts@.len(),
            ps == strings_view(parts@),
            walk(Val::Table(root@), ps) == walk(cur@, ps.subrange(k as int, ps.len() as int)),
        decreases parts@.len() - k,
    {
        let ghost rest = ps.subrange(k as int, ps.len() as int);
        assert(rest.drop_first() =~= ps.subrange(k + 1, ps.len() as int));
        match cur {
            Value::Table(t) => match find_key(&t.entries, &parts[k]) {
                Some(idx) => {
                    cur = &t.entries[idx].1;
                },
                None => {
                    return Err(ConfigError::ReferenceNotFound(String::from_str(path)));
                },
            },
            _ => {
                return Err(ConfigError::ReferenceNotFound(String::from_str(path)));
            },
        }
        k = k + 1;
    }
    value_to_string(cur, path)
}

/// `j` is the first position at or after `from` that holds `}`.
pub open spec fn close_at(s: Seq<char>, from: int, j: int) -> bool {
    &&& from <= j < s.len()
    &&& s[j] == '}'
    &&& forall|l: int| from <= l < j ==> s[l] != '}'
}

/// The first position at or after `from` that holds `}`, if any.
pub open spec fn find_close(s: Seq<char>, from: int) -> Option<int> {
    if exists|j: int| close_at(s, from, j) {
        Some(choose|j: int| close_at(s, from, j))
    } else {
        None
    }
}

/// Puts `o` in front of the text of `r` and adds `c` to its count.
pub open spec fn prepend(o: Seq<char>, c: nat, r: Result<(Seq<char>, nat), Failure>) -> Result<
    (Seq<char>, nat),
    Failure,
> {
    match r {
        Ok((x, n)) => Ok((o + x, c + n)),
        Err(e) => Err(e),
    }
}

/// One left-to-right scan of `s` from position `i`: `$$` becomes `$`, a
/// reference `${p}` becomes the text of `p` in `root`, anything else stays.
/// The result is the new text with the number of references replaced, or
/// the first failure met.
pub open spec fn scan(s: Seq<char>, root: Seq<(Seq<char>, Val)>, i: int) -> Result<
    (Seq<char>, nat),
    Failure,
>
    decreases s.len() - i,
{
    if i < 0 || i >= s.len() {
        Ok((Seq::empty(), 0))
    } else if s[i] == '$' && i + 1 < s.len() && s[i + 1] == '$' {
        prepend(seq!['$'], 0, scan(s, root, i + 2))
    } else if s[i] == '$' && i + 1 < s.len() && s[i + 1] == '{' {
        match find_close(s, i + 2) {
            None => Err(Failure::Unclosed),
            Some(j) => match lookup_text(root, s.subrange(i + 2, j)) {
                Err(e) => Err(e),
                Ok(t) => prepend(t, 1, scan(s, root, j + 1)),
            },
        }
    } else {
        prepend(seq![s[i]], 0, scan(s, root, i + 1))
    }
}

proof fn lemma_prepend_prepend(
    o: Seq<char>,
    c: nat,
    x: Seq<char>,
    d: nat,
    r: Result<(Seq<char>, nat), Failure>,
)
    ensures
        prepend(o, c, prepend(x, d, r)) == prepend(o + x, c + d, r),
{
    if let Ok((y, n)) = r {
        assert(o + (x + y) =~= (o + x) + y);
    }
}

/// The position of the first `delim` in `s` at or after `from` (`s` has
/// `n` characters), if any.
fn consume_until(s: &str, n: usize, from: usize, delim: char) -> (r: Option<usize>)
    requires
        n == s@.len(),
        from <= n,
    ensures
        match r {
            Some(j) => from <= j < n && s@[j as int] == delim && forall|l: int|
                from <= l < j ==> s@[l] != delim,
            None => forall|l: int| from <= l < n ==> s@[l] != delim,
        },
{
    let mut j: usize = from;
    while j < n
        invariant
            from <= j <= n,
            n == s@.len(),
            forall|l: int| from <= l < j ==> s@[l] != delim,
        decreases n - j,
    {
        if s.get_char(j) == delim {
            return Some(j);
        }
        j = j + 1;
    }
    None
}

/// Rewrites the references and escapes of `s` in one scan (see `scan`);
/// returns how many references were replaced. On failure `s` is kept.
#[verifier::loop_isolation(false)]
fn resolve_string(s: &mut String, root: &Table) -> (r: Result<usize, ConfigError>)
    ensures
        match r {
            Ok(c) => scan(old(s)@, root@, 0) == Ok::<(Seq<char>, nat), Failure>(
                (final(s)@, c as nat),
            ),
            Err(e) => scan(old(s)@, root@, 0) == Err::<(Seq<char>, nat), Failure>(e@)
                && final(s)@ == old(s)@,
        },
{
    let ghost s0 = s@;
    let src: &str = s.as_str();
    let n = src.unicode_len();
    let mut out = String::new();
    let mut count: usize = 0;
    let mut i: usize = 0;
    assert(out@ =~= Seq::<char>::empty());
    assert(scan(s0, root@, 0) == prepend(out@, 0, scan(s0, root@, 0))) by {
        if let Ok((y, m)) = scan(s0, root@, 0) {
            assert(out@ + y =~= y);
        }
    }
    while i < n
        invariant
            n == s0.len(),
            src@ == s0,
            i <= n,
            count <= i,
            scan(s0, root@, 0) == prepend(out@, count as nat, scan(s0, root@, i as int)),
        decreases n - i,
    {
        let c = src.get_char(i);
        let ghost before = out@;
        if c == '$' && i + 1 < n && src.get_char(i + 1) == '$' {
            out.append(src.substring_char(i, i + 1));
            proof {
                lemma_prepend_prepend(before, count as nat, seq!['$'], 0, scan(s0, root@, i + 2));
                assert(src@.subrange(i as int, i + 1) =~= seq!['$']);
            }
            i = i + 2;
        } else if c == '$' && i + 1 < n && src.get_char(i + 1) == '{' {
            let ghost from = i + 2;
            let j = match consume_until(src, n, i + 2, '}') {
                Some(j) => j,
                None => {
                    assert(!exists|l: int| close_at(s0, from, l));
                    return Err(ConfigError::UnclosedReference);
                },
            };
            proof {
                assert(close_at(s0, from, j as int));
                let k = choose|k: int| close_at(s0, from, k);
                assert(close_at(s0, from, k));
                if k < j {
                    assert(s0[k] != '}');
                } else if j < k {
                    assert(s0[j as int] != '}');
                }
            }
            let text = match lookup_path(root, src.substring_char(i + 2, j)) {
                Ok(t) => t,
                Err(e) => {
                    return Err(e);
                },
            };
            out.append(text.as_str());
            proof {
                lemma_prepend_prepend(before, count as nat, text@, 1, scan(s0, root@, j + 1));
            }
            count = count + 1;
            i = j + 1;
        } else {
            out.append(src.substring_char(i, i + 1));
            proof {
                lemma_prepend_prepend(before, count as nat, seq![c], 0, scan(s0, root@, i + 1));
                assert(src@.subrange(i as int, i + 1) =~= seq![c]);
            }
            i = i + 1;
        }
    }
    assert(scan(s0, root@, i as int) == Ok::<(Seq<char>, nat), Failure>((Seq::empty(), 0)));
    assert(out@ + Seq::<char>::empty() =~= out@);
    *s = out;
    Ok(count)
}

/// One pass over a value: every string reachable from it is scanned against
/// `root` (tables and arrays are walked in order). The result is the new
/// value with the number of references replaced, or the first failure met.
pub open spec fn pass_val(v: Val, root: Seq<(Seq<char>, Val)>) -> Result<(Val, nat), Failure>
    decreases v, 0nat,
{
    match v {
        Val::Str(s) => match scan(s, root, 0) {
            Ok((o, n)) => Ok((Val::Str(o), n)),
            Err(e) => Err(e),
        },
        Val::Table(t) => match pass_entries(t, root, t.len()) {
            Ok((t2, n)) => Ok((Val::Table(t2), n)),
            Err(e) => Err(e),
        },
        Val::Array(a) => match pass_items(a, root, a.len()) {
            Ok((a2, n)) => Ok((Val::Array(a2), n)),
            Err(e) => Err(e),
        },
        _ => Ok((v, 0)),
    }
}

/// One pass over the first `n` entries of a table (see `pass_val`).
pub open spec fn pass_entries(t: Seq<(Seq<char>, Val)>, root: Seq<(Seq<char>, Val)>, n: nat) -> Result<
    (Seq<(Seq<char>, Val)>, nat),
    Failure,
>
    decreases t, n,
{
    if n == 0 || n > t.len() {
        Ok((t, 0))
    } else {
        match pass_entries(t, root, (n - 1) as nat) {
            Err(e) => Err(e),
            Ok((t1, c1)) => match pass_val(t[n - 1].1, root) {
                Err(e) => Err(e),
                Ok((v2, c2)) => Ok((t1.update(n - 1, (t[n - 1].0, v2)), c1 + c2)),
            },
        }
    }
}

/// One pass over the first `n` items of an array (see `pass_val`).
pub open spec fn pass_items(a: Seq<Val>, root: Seq<(Seq<char>, Val)>, n: nat) -> Result<
    (Seq<Val>, nat),
    Failure,
>
    decreases a, n,
{
    if n == 0 || n > a.len() {
        Ok((a, 0))
    } else {
        match pass_items(a, root, (n - 1) as nat) {
            Err(e) => Err(e),
            Ok((a1, c1)) => match pass_val(a[n - 1], root) {
                Err(e) => Err(e),
                Ok((v2, c2)) => Ok((a1.update(n - 1, v2), c1 + c2)),
            },
        }
    }
}

proof fn lemma_items_err_stays(a: Seq<Val>, root: Seq<(Seq<char>, Val)>, m: nat, k: nat)
    requires
        m <= k <= a.len(),
        pass_items(a, root, m) is Err,
    ensures
        pass_items(a, root, k) == pass_items(a, root, m),
    decreases k,
{
    if k > m {
        lemma_items_err_stays(a, root, m, (k - 1) as nat);
    }
}

proof fn lemma_entries_err_stays(t: Seq<(Seq<char>, Val)>, root: Seq<(Seq<char>, Val)>, m: nat, k: nat)
    requires
        m <= k <= t.len(),
        pass_entries(t, root, m) is Err,
    ensures
        pass_entries(t, root, k) == pass_entries(t, root, m),
    decreases k,
{
    if k > m {
        lemma_entries_err_stays(t, root, m, (k - 1) as nat);
    }
}

/// A count as a `usize`, saturating at the largest one.
pub open spec fn capped(c: nat) -> usize {
    if c > usize::MAX {
        usize::MAX
    } else {
        c as usize
    }
}

fn add_capped(a: usize, b: usize, Ghost(x): Ghost<nat>, Ghost(y): Ghost<nat>) -> (r: usize)
    requires
        a == capped(x),
        b == capped(y),
    ensures
        r == capped(x + y),
{
    if a > usize::MAX - b {
        usize::MAX
    } else {
        a + b
    }
}

/// Rewrites every string reachable from `value` in one pass (see `pass_val`).
#[verifier::loop_isolation(false)]
fn resolve_value(value: &mut Value, root: &Table) -> (r: Result<usize, ConfigError>)
    ensures
        match r {
            Ok(c) => pass_val(old(value)@, root@) matches Ok((v2, n)) && v2 == final(value)@ && c
                == capped(n),
            Err(e) => pass_val(old(value)@, root@) == Err::<(Val, nat), Failure>(e@),
        },
    decreases *old(value),
{
    let ghost v0 = *value;
    match value {
        Value::String(s) => {
            resolve_string(s, root)
        },
        Value::Table(t) => {
            assert(decreases_to!(v0 => *t));
            resolve_pass(t, root)
        },
        Value::Array(a) => {
            let ghost a0 = a@;
            let ghost orig = *a;
            assert(decreases_to!(v0 => orig));
            let n = a.len();
            let mut count: usize = 0;
            let mut i: usize = 0;
            while i < n
                invariant
                    n == a@.len(),
                    n == a0.len(),
                    i <= n,
                    forall|j: int| i <= j < n ==> a@[j] == a0[j],
                    pass_items(items_view(a0), root@, i as nat) matches Ok((iv, m))
                        && iv == items_view(a@) && count == capped(m),
                decreases n - i,
            {
                assert(decreases_to!(orig => a0[i as int])) by {
                    assert(decreases_to!(orig => orig@));
                }
                let ghost before = a@;
                let c = match resolve_value(&mut a[i], root) {
                    Ok(c) => c,
                    Err(e) => {
                        proof {
                            lemma_items_err_stays(items_view(a0), root@, (i + 1) as nat, n as nat);
                        }
                        return Err(e);
                    },
                };
                count = add_capped(count, c, Ghost(pass_items(items_view(a0), root@, i as nat)->Ok_0.1), Ghost(pass_val(a0[i as int]@, root@)->Ok_0.1));
                assert(items_view(a@) =~= items_view(before).update(i as int, a@[i as int]@));
                i = i + 1;
            }
            assert(items_view(a0).len() == n);
            Ok(count)
        },
        _ => Ok(0),
    }
}

/// Rewrites every string reachable from `table` in one pass (see `pass_entries`).
#[verifier::loop_isolation(false)]
fn resolve_pass(table: &mut Table, root: &Table) -> (r: Result<usize, ConfigError>)
    ensures
        match r {
            Ok(c) => pass_entries(old(table)@, root@, old(table)@.len()) matches Ok((t2, n)) && t2
                == final(table)@ && c == capped(n),
            Err(e) => pass_entries(old(table)@, root@, old(table)@.len()) == Err::<
                (Seq<(Seq<char>, Val)>, nat),
                Failure,
            >(e@),
        },
    decreases *old(table),
{
    let ghost t0 = table@;
    let ghost orig = table.entries;
    let n = table.entries.len();
    let mut count: usize = 0;
    let mut i: usize = 0;
    while i < n
        invariant
            n == table.entries@.len(),
            n == orig@.len(),
            t0 == entries_view(orig@),
            i <= n,
            forall|j: int| i <= j < n ==> table.entries@[j] == orig@[j],
            pass_entries(t0, root@, i as nat) matches Ok((tv, m)) && tv == table@ && count
                == capped(m),
        decreases n - i,
    {
        assert(decreases_to!(orig => orig@[i as int].1)) by {
            assert(decreases_to!(orig => orig@));
            assert(decreases_to!(orig@ => orig@[i as int]));
        }
        let ghost before = table.entries@;
        let c = match resolve_value(&mut table.entries[i].1, root) {
            Ok(c) => c,
            Err(e) => {
                proof {
                    lemma_entries_err_stays(t0, root@, (i + 1) as nat, n as nat);
                }
                return Err(e);
            },
        };
        count = add_capped(count, c, Ghost(pass_entries(t0, root@, i as nat)->Ok_0.1), Ghost(pass_val(t0[i as int].1, root@)->Ok_0.1));
        assert(table@ =~= entries_view(before).update(i as int, (t0[i as int].0, table.entries@[i as int].1@)));
        i = i + 1;
    }
    Ok(count)
}

/// The most passes that resolution makes before it gives up.
pub const MAX_PASSES: usize = 100;

/// Resolution with at most `k` passes left: each pass scans the tree against
/// a snapshot of the tree as it stood before the pass; a pass without
/// substitution ends it, and running out of passes is a circular reference.
pub open spec fn resolve_from(t: Seq<(Seq<char>, Val)>, k: nat) -> Result<Seq<(Seq<char>, Val)>, Failure>
    decreases k,
{
    if k == 0 {
        Err(Failure::Circular)
    } else {
        match pass_entries(t, t, t.len()) {
            Err(e) => Err(e),
            Ok((t2, n)) => if n == 0 {
                Ok(t2)
            } else {
                resolve_from(t2, (k - 1) as nat)
            },
        }
    }
}

/// The outcome of resolving the references of `t`.
pub open spec fn resolved(t: Seq<(Seq<char>, Val)>) -> Result<Seq<(Seq<char>, Val)>, Failure> {
    resolve_from(t, MAX_PASSES as nat)
}

/// Resolves every `${path}` reference in the string values of `table`, pass
/// after pass, until a pass makes no substitution.
#[verifier::loop_isolation(false)]
pub fn resolve_references(table: &mut Table) -> (r: Result<(), ConfigError>)
    ensures
        match r {
            Ok(()) => resolved(old(table)@) == Ok::<Seq<(Seq<char>, Val)>, Failure>(final(table)@),
            Err(e) => resolved(old(table)@) == Err::<Seq<(Seq<char>, Val)>, Failure>(e@),
        },
{
    let ghost t0 = table@;
    let mut pass: usize = 0;
    while pass < MAX_PASSES
        invariant
            pass <= MAX_PASSES,
            resolved(t0) == resolve_from(table@, (MAX_PASSES - pass) as nat),
        decreases MAX_PASSES - pass,
    {
        let snapshot = table.deep_copy();
        let ghost before = table@;
        let ghost k = (MAX_PASSES - pass) as nat;
        assert(k > 0);
        assert(resolve_from(before, k) == match pass_entries(before, before, before.len()) {
            Err(e) => Err(e),
            Ok((t2, n)) => if n == 0 {
                Ok(t2)
            } else {
                resolve_from(t2, (k - 1) as nat)
            },
        });
        match resolve_pass(table, &snapshot) {
            Err(e) => {
                return Err(e);
            },
            Ok(c) => {
                if c == 0 {
                    return Ok(());
                }
            },
        }
        pass = pass + 1;
    }
    Err(ConfigError::CircularReference)
}

/// `s` holds neither `${` nor `$$`.
pub open spec fn plain_text(s: Seq<char>) -> bool {
    forall|i: int| 0 <= i < s.len() - 1 && #[trigger] s[i] == '$' ==> s[i + 1] != '$' && s[i + 1] != '{'
}

/// Every string reachable from `v` is plain.
pub open spec fn plain_val(v: Val) -> bool
    decreases v,
{
    match v {
        Val::Str(s) => plain_text(s),
        Val::Array(a) => forall|i: int| 0 <= i < a.len() ==> plain_val(#[trigger] a[i]),
        Val::Table(t) => forall|i: int| 0 <= i < t.len() ==> plain_val(#[trigger] t[i].1),
        _ => true,
    }
}

proof fn lemma_scan_plain(s: Seq<char>, root: Seq<(Seq<char>, Val)>, i: int)
    requires
        plain_text(s),
        0 <= i <= s.len(),
    ensures
        scan(s, root, i) == Ok::<(Seq<char>, nat), Failure>((s.subrange(i, s.len() as int), 0)),
    decreases s.len() - i,
{
    if i < s.len() {
        lemma_scan_plain(s, root, i + 1);
        assert(seq![s[i]] + s.subrange(i + 1, s.len() as int) =~= s.subrange(i, s.len() as int));
    } else {
        assert(s.subrange(i, s.len() as int) =~= Seq::<char>::empty());
    }
}

proof fn lemma_pass_val_plain(v: Val, root: Seq<(Seq<char>, Val)>)
    requires
        plain_val(v),
    ensures
        pass_val(v, root) == Ok::<(Val, nat), Failure>((v, 0)),
    decreases v, 0nat,
{
    match v {
        Val::Str(s) => {
            lemma_scan_plain(s, root, 0);
            assert(s.subrange(0, s.len() as int) =~= s);
        },
        Val::Table(t) => {
            lemma_pass_entries_plain(t, root, t.len());
        },
        Val::Array(a) => {
            lemma_pass_items_plain(a, root, a.len());
        },
        _ => {},
    }
}

proof fn lemma_pass_entries_plain(t: Seq<(Seq<char>, Val)>, root: Seq<(Seq<char>, Val)>, n: nat)
    requires
        forall|i: int| 0 <= i < t.len() ==> plain_val(#[trigger] t[i].1),
        n <= t.len(),
    ensures
        pass_entries(t, root, n) == Ok::<(Seq<(Seq<char>, Val)>, nat), Failure>((t, 0)),
    decreases t, n,
{
    if n > 0 {
        lemma_pass_entries_plain(t, root, (n - 1) as nat);
        assert(plain_val(t[n - 1].1));
        lemma_pass_val_plain(t[n - 1].1, root);
        assert(t.update(n - 1, (t[n - 1].0, t[n - 1].1)) =~= t);
    }
}

proof fn lemma_pass_items_plain(a: Seq<Val>, root: Seq<(Seq<char>, Val)>, n: nat)
    requires
        forall|i: int| 0 <= i < a.len() ==> plain_val(#[trigger] a[i]),
        n <= a.len(),
    ensures
        pass_items(a, root, n) == Ok::<(Seq<Val>, nat), Failure>((a, 0)),
    decreases a, n,
{
    if n > 0 {
        lemma_pass_items_plain(a, root, (n - 1) as nat);
        assert(plain_val(a[n - 1]));
        lemma_pass_val_plain(a[n - 1], root);
        assert(a.update(n - 1, a[n - 1]) =~= a);
    }
}

/// A tree whose strings hold neither `${` nor `$$` is already resolved:
/// its first pass makes no substitution and leaves it unchanged, so
/// resolving it succeeds with the tree as it was.
pub proof fn lemma_resolve_plain(t: Seq<(Seq<char>, Val)>)
    requires
        plain_val(Val::Table(t)),
    ensures
        pass_entries(t, t, t.len()) == Ok::<(Seq<(Seq<char>, Val)>, nat), Failure>((t, 0)),
        resolved(t) == Ok::<Seq<(Seq<char>, Val)>, Failure>(t),
{
    let v = Val::Table(t);
    assert(plain_val(v));
    assert(v is Table);
    assert(v->Table_0 == t);
    assert forall|i: int| 0 <= i < t.len() implies plain_val(#[trigger] t[i].1) by {
        assert(plain_val(v->Table_0[i].1));
    }
    lemma_pass_entries_plain(t, t, t.len());
}

} // verus!
