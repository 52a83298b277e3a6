//! The merge engine: deep merge of tables and path-targeted merge.

use vstd::prelude::*;
use crate::value::{
    entries_view, find_key, first_at, get, insert, key_index, lemma_first_at_unique,
    lemma_key_index_push, lemma_key_index_update, unique_keys, walk, wf_val, Table, Val, Value,
};

verus! {

/// Deep merge of the first `n` entries of `overlay` into `base`, in order.
///
/// For each overlay key: where both sides hold a table, the two merge
/// recursively; otherwise the overlay's value replaces the base's value.
pub open spec fn merge_prefix(
    base: Seq<(Seq<char>, Val)>,
    overlay: Seq<(Seq<char>, Val)>,
    n: nat,
) -> Seq<(Seq<char>, Val)>
    decreases overlay, n,
{
    if n == 0 || n > overlay.len() {
        base
    } else {
        let acc = merge_prefix(base, overlay, (n - 1) as nat);
        let k = overlay[n - 1].0;
        let v = overlay[n - 1].1;
        match key_index(acc, k) {
            Some(i) => match (acc[i].1, v) {
                (Val::Table(b), Val::Table(o)) => acc.update(
                    i,
                    (k, Val::Table(merge_prefix(b, o, o.len()))),
                ),
                _ => acc.update(i, (k, v)),
            },
            None => acc.push((k, v)),
        }
    }
}

/// Deep merge of `overlay` into `base`.
pub open spec fn merge_tables(base: Seq<(Seq<char>, Val)>, overlay: Seq<(Seq<char>, Val)>) -> Seq<
    (Seq<char>, Val),
> {
    merge_prefix(base, overlay, overlay.len())
}

/// Deep merge of the single entry `(k, v)` into `t`.
pub open spec fn merge_entry(t: Seq<(Seq<char>, Val)>, k: Seq<char>, v: Val) -> Seq<(Seq<char>, Val)> {
    merge_tables(t, seq![(k, v)])
}

/// Merge of `v` at `path` into `t`: an empty path deep-merges a table at the
/// root (anything else is ignored); a last segment deep-merges or replaces;
/// an inner segment makes sure a table stands there and descends into it.
pub open spec fn merge_path(t: Seq<(Seq<char>, Val)>, path: Seq<Seq<char>>, v: Val) -> Seq<
    (Seq<char>, Val),
>
    decreases path.len(),
{
    if path.len() == 0 {
        match v {
            Val::Table(o) => merge_tables(t, o),
            _ => t,
        }
    } else if path.len() == 1 {
        merge_entry(t, path[0], v)
    } else {
        let inner = match get(t, path[0]) {
            Some(Val::Table(s)) => s,
            _ => Seq::empty(),
        };
        insert(t, path[0], Val::Table(merge_path(inner, path.drop_first(), v)))
    }
}

/// A configuration entry: a value and the path where it applies. An empty
/// path is a contribution of a whole table at the root.
#[derive(Debug)]
pub struct ConfigEntry {
    pub path: Vec<String>,
    pub value: Value,
}

impl ConfigEntry {
    pub open spec fn view(&self) -> (Seq<Seq<char>>, Val) {
        (strings_view(self.path@), self.value@)
    }

    /// An entry that merges a whole table at the root.
    pub fn root(table: Table) -> (r: ConfigEntry)
        ensures
            r@ == (Seq::<Seq<char>>::empty(), Val::Table(table@)),
    {
        let r = ConfigEntry { path: Vec::new(), value: Value::Table(table) };
        assert(r@.0 =~= Seq::<Seq<char>>::empty());
        r
    }

    /// An entry at the given path.
    pub fn at_path(path: Vec<String>, value: Value) -> (r: ConfigEntry)
        ensures
            r.path == path,
            r.value == value,
    {
        ConfigEntry { path, value }
    }
}

/// The model of a sequence of entries.
pub open spec fn entry_views(es: Seq<ConfigEntry>) -> Seq<(Seq<Seq<char>>, Val)> {
    Seq::new(es.len(), |i: int| es[i]@)
}

/// The tree that results from merging `es` into `t`, one after the other.
pub open spec fn merge_all(t: Seq<(Seq<char>, Val)>, es: Seq<(Seq<Seq<char>>, Val)>) -> Seq<
    (Seq<char>, Val),
>
    decreases es.len(),
{
    if es.len() == 0 {
        t
    } else {
        merge_path(merge_all(t, es.drop_last()), es.last().0, es.last().1)
    }
}

/// Folds `tables` into `t` by deep merge, from left to right.
pub open spec fn fold_tables(t: Seq<(Seq<char>, Val)>, tables: Seq<Seq<(Seq<char>, Val)>>) -> Seq<
    (Seq<char>, Val),
>
    decreases tables.len(),
{
    if tables.len() == 0 {
        t
    } else {
        merge_tables(fold_tables(t, tables.drop_last()), tables.last())
    }
}

/// Root-level entries, one for each table.
pub open spec fn root_entries(tables: Seq<Seq<(Seq<char>, Val)>>) -> Seq<(Seq<Seq<char>>, Val)> {
    Seq::new(tables.len(), |i: int| (Seq::<Seq<char>>::empty(), Val::Table(tables[i])))
}

/// Merging a sequence of root-level tables one after the other is the same
/// as deep-merging them pairwise from left to right.
pub proof fn lemma_root_merges_fold(t: Seq<(Seq<char>, Val)>, tables: Seq<Seq<(Seq<char>, Val)>>)
    ensures
        merge_all(t, root_entries(tables)) == fold_tables(t, tables),
    decreases tables.len(),
{
    if tables.len() > 0 {
        assert(root_entries(tables).drop_last() =~= root_entries(tables.drop_last()));
        lemma_root_merges_fold(t, tables.drop_last());
    }
}

/// Merges each entry into `table`, in order.
pub fn merge_entries(table: &mut Table, entries: Vec<ConfigEntry>)
    ensures
        final(table)@ == merge_all(old(table)@, entry_views(entries@)),
{
    let ghost ev = entry_views(entries@);
    let ghost orig = entries@;
    let ghost t0 = table@;
    let mut entries = entries;
    let n = entries.len();
    let mut i: usize = 0;
    assert(ev.take(0) =~= Seq::<(Seq<Seq<char>>, Val)>::empty());
    while i < n
        invariant
            n == entries.len(),
            n == orig.len(),
            ev == entry_views(orig),
            i <= n,
            forall|j: int| i <= j < n ==> entries@[j] == orig[j],
            table@ == merge_all(t0, ev.take(i as int)),
        decreases n - i,
    {
        let mut e = ConfigEntry { path: Vec::new(), value: Value::Boolean(false) };
        entries.set_and_swap(i, &mut e);
        assert(ev.take(i as int + 1).drop_last() =~= ev.take(i as int));
        merge_at_path(table, e.path.as_slice(), e.value);
        i = i + 1;
    }
    assert(ev.take(n as int) =~= ev);
}

/// Deep-merges `overlay` into `base`.
#[verifier::loop_isolation(false)]
pub fn deep_merge(base: &mut Table, overlay: Table)
    ensures
        final(base)@ == merge_tables(old(base)@, overlay@),
    decreases overlay,
{
    let ghost orig = overlay;
    let ghost ov = overlay@;
    let ghost b0 = base@;
    let mut overlay = overlay;
    let n = overlay.entries.len();
    let mut i: usize = 0;
    while i < n
        invariant
            n == overlay.entries.len(),
            n == orig.entries.len(),
            ov == entries_view(orig.entries@),
            i <= n,
            forall|j: int| i <= j < n ==> overlay.entries@[j] == orig.entries@[j],
            base@ == merge_prefix(b0, ov, i as nat),
        decreases n - i,
    {
        let mut item = (String::new(), Value::Boolean(false));
        overlay.entries.set_and_swap(i, &mut item);
        assert(item == orig.entries@[i as int]);
        let ghost acc = base@;
        let (k, v) = item;
        assert(ov[i as int] == (k@, v@));
        match find_key(&base.entries, &k) {
            Some(idx) => {
                let both_tables = match (&base.entries[idx].1, &v) {
                    (Value::Table(_), Value::Table(_)) => true,
                    _ => false,
                };
                if both_tables {
                    match v {
                        Value::Table(ot) => {
                            assert(decreases_to!(orig => ot)) by {
                                let e = orig.entries@[i as int];
                                assert(decreases_to!(orig => orig.entries));
                                assert(decreases_to!(orig.entries => orig.entries@));
                                assert(decreases_to!(orig.entries@ => e));
                                assert(decreases_to!(e => e.1));
                                assert(decreases_to!(e.1 => ot));
                            }
                            match &mut base.entries[idx].1 {
                                Value::Table(bt) => {
                                    deep_merge(bt, ot);
                                },
                                _ => {},
                            }
                        },
                        _ => {},
                    }
                    assert(base@ =~= merge_prefix(b0, ov, (i + 1) as nat));
                } else {
                    base.entries.set(idx, (k, v));
                    assert(base@ =~= merge_prefix(b0, ov, (i + 1) as nat));
                }
            },
            None => {
                base.entries.push((k, v));
                assert(base@ =~= merge_prefix(b0, ov, (i + 1) as nat));
            },
        }
        i = i + 1;
    }
}

/// The model of a sequence of strings.
pub open spec fn strings_view(p: Seq<String>) -> Seq<Seq<char>> {
    Seq::new(p.len(), |i: int| p[i]@)
}

/// Merges `value` into `table` at `path` (see `merge_path`).
pub fn merge_at_path(table: &mut Table, path: &[String], value: Value)
    ensures
        final(table)@ == merge_path(old(table)@, strings_view(path@), value@),
{
    assert(strings_view(path@).subrange(0, path@.len() as int) =~= strings_view(path@));
    merge_from(table, path, 0, value);
}

/// Merges `value` into `table` at the segments of `path` from `start` on.
#[verifier::loop_isolation(false)]
fn merge_from(table: &mut Table, path: &[String], start: usize, value: Value)
    requires
        start <= path@.len(),
    ensures
        final(table)@ == merge_path(
            old(table)@,
            strings_view(path@).subrange(start as int, path@.len() as int),
            value@,
        ),
    decreases path@.len() - start,
{
    let ghost p = strings_view(path@).subrange(start as int, path@.len() as int);
    let ghost t0 = table@;
    if start == path.len() {
        match value {
            Value::Table(overlay) => deep_merge(table, overlay),
            _ => {},
        }
        return;
    }
    let key = path[start].clone();
    assert(p[0] == key@);
    if start + 1 == path.len() {
        let single = Table { entries: vec![(key, value)] };
        assert(single@ =~= seq![(p[0], value@)]);
        deep_merge(table, single);
        return;
    }
    let idx: usize = match find_key(&table.entries, &key) {
        Some(i) => {
            let is_table = match &table.entries[i].1 {
                Value::Table(_) => true,
                _ => false,
            };
            if !is_table {
                table.entries.set(i, (key.clone(), Value::Table(Table::new())));
            }
            i
        },
        None => {
            table.entries.push((key.clone(), Value::Table(Table::new())));
            table.entries.len() - 1
        },
    };
    assert(strings_view(path@).subrange(start as int + 1, path@.len() as int) =~= p.drop_first());
    match &mut table.entries[idx].1 {
        Value::Table(nested) => {
            merge_from(nested, path, start + 1, value);
        },
        _ => {},
    }
    assert(table@ =~= merge_path(t0, p, value@));
}

/// What a deep merge leaves under a key of the overlay that holds `o`, where
/// the base held `b`.
pub open spec fn combine(b: Option<Val>, o: Val) -> Val {
    match (b, o) {
        (Some(Val::Table(bt)), Val::Table(ot)) => Val::Table(merge_tables(bt, ot)),
        _ => o,
    }
}

proof fn lemma_merge_prefix_get(
    b: Seq<(Seq<char>, Val)>,
    o: Seq<(Seq<char>, Val)>,
    n: nat,
    k: Seq<char>,
)
    requires
        unique_keys(o),
        n <= o.len(),
    ensures
        get(merge_prefix(b, o, n), k) == match get(o.take(n as int), k) {
            None => get(b, k),
            Some(ov) => Some(combine(get(b, k), ov)),
        },
    decreases n,
{
    if n == 0 {
        assert(o.take(0) =~= Seq::<(Seq<char>, Val)>::empty());
    } else {
        let m = (n - 1) as nat;
        lemma_merge_prefix_get(b, o, m, k);
        let acc = merge_prefix(b, o, m);
        let k2 = o[m as int].0;
        let v = o[m as int].1;
        assert(o.take(n as int) =~= o.take(m as int).push((k2, v)));
        lemma_key_index_push(o.take(m as int), k2, v, k);
        if k == k2 {
            if let Some(j) = key_index(o.take(m as int), k) {
                assert(first_at(o.take(m as int), k, j));
                assert(o[j].0 == o[m as int].0);
            }
        }
        match key_index(acc, k2) {
            Some(i) => {
                assert(first_at(acc, k2, i));
                let nv = match (acc[i].1, v) {
                    (Val::Table(bt), Val::Table(ot)) => Val::Table(merge_prefix(bt, ot, ot.len())),
                    _ => v,
                };
                lemma_key_index_update(acc, i, k2, nv, k);
            },
            None => {
                lemma_key_index_push(acc, k2, v, k);
            },
        }
    }
}

/// After a deep merge, a key holds what `combine` says where the overlay holds
/// it, and what the base held otherwise.
pub proof fn lemma_merge_get(b: Seq<(Seq<char>, Val)>, o: Seq<(Seq<char>, Val)>, k: Seq<char>)
    requires
        unique_keys(o),
    ensures
        get(merge_tables(b, o), k) == match get(o, k) {
            None => get(b, k),
            Some(ov) => Some(combine(get(b, k), ov)),
        },
{
    lemma_merge_prefix_get(b, o, o.len(), k);
    assert(o.take(o.len() as int) =~= o);
}

/// A value that is not a table replaces whatever the base held at its place,
/// at any depth: reached along the same path in the merged tree, it is found
/// as it stands in the overlay (an array is never merged element by element).
pub proof fn lemma_scalar_overrides(
    base: Seq<(Seq<char>, Val)>,
    overlay: Seq<(Seq<char>, Val)>,
    path: Seq<Seq<char>>,
    v: Val,
)
    requires
        wf_val(Val::Table(overlay)),
        path.len() > 0,
        walk(Val::Table(overlay), path) == Some(v),
        !(v is Table),
    ensures
        walk(Val::Table(merge_tables(base, overlay)), path) == Some(v),
    decreases path.len(),
{
    let k = path[0];
    lemma_merge_get(base, overlay, k);
    let c = get(overlay, k)->0;
    let rest = path.drop_first();
    if path.len() == 1 {
        assert(walk(c, rest) == Some(c));
    } else {
        let ot = c->Table_0;
        let i = key_index(overlay, k)->0;
        assert(first_at(overlay, k, i));
        assert(wf_val(overlay[i].1));
        match get(base, k) {
            Some(Val::Table(bt)) => {
                lemma_scalar_overrides(bt, ot, rest, v);
            },
            _ => {},
        }
    }
}

proof fn lemma_merge_prefix_self(t: Seq<(Seq<char>, Val)>, n: nat)
    requires
        wf_val(Val::Table(t)),
        n <= t.len(),
    ensures
        merge_prefix(t, t, n) == t,
    decreases t, n,
{
    if n > 0 {
        let m = (n - 1) as nat;
        lemma_merge_prefix_self(t, m);
        let k = t[m as int].0;
        assert(first_at(t, k, m as int));
        lemma_first_at_unique(t, k, m as int);
        assert(wf_val(t[m as int].1));
        match t[m as int].1 {
            Val::Table(s) => {
                assert(decreases_to!(t => s)) by {
                    assert(decreases_to!(t => t[m as int]));
                }
                lemma_merge_prefix_self(s, s.len());
            },
            _ => {},
        }
        assert(merge_prefix(t, t, n) =~= t);
    }
}

/// Deep-merging a well-formed table into itself leaves it as it is.
pub proof fn lemma_merge_self(t: Seq<(Seq<char>, Val)>)
    requires
        wf_val(Val::Table(t)),
    ensures
        merge_tables(t, t) == t,
{
    lemma_merge_prefix_self(t, t.len());
}

/// Merging `v` at the path `[a, b]` into an empty tree yields `{a: {b: v}}`.
pub proof fn lemma_path_into_empty(a: Seq<char>, b: Seq<char>, v: Val)
    ensures
        merge_path(Seq::empty(), seq![a, b], v) == seq![(a, Val::Table(seq![(b, v)]))],
{
    let e = Seq::<(Seq<char>, Val)>::empty();
    assert(seq![a, b].drop_first() =~= seq![b]);
    assert(!exists|i: int| first_at(e, a, i));
    assert(!exists|i: int| first_at(e, b, i));
    let inner = merge_path(e, seq![b], v);
    assert(inner == merge_prefix(e, seq![(b, v)], 1));
    assert(merge_prefix(e, seq![(b, v)], 0) == e);
    assert(seq![(b, v)][0] == (b, v));
    assert(key_index(e, b) is None);
    assert(inner == e.push((b, v)));
    assert(inner =~= seq![(b, v)]);
    assert(e.push((a, Val::Table(inner))) =~= seq![(a, Val::Table(seq![(b, v)]))]);
}

} // verus!
