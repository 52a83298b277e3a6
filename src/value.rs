//! The configuration value tree and its mathematical model.

use vstd::prelude::*;
use vstd::string::StringExecFns;

verus! {

/// The mathematical model of a configuration value.
pub enum Val {
    Str(Seq<char>),
    Int(int),
    /// A floating-point number, as its decimal text.
    Float(Seq<char>),
    Bool(bool),
    /// A timestamp, as its RFC 3339 text.
    Datetime(Seq<char>),
    Array(Seq<Val>),
    /// Key/value pairs in order of insertion.
    Table(Seq<(Seq<char>, Val)>),
}

/// A configuration value.
///
/// Floating-point numbers and timestamps are held as their canonical text:
/// the library only ever carries them through or splices them into strings.
#[derive(Debug, PartialEq)]
pub enum Value {
    String(String),
    Integer(i64),
    Float(String),
    Boolean(bool),
    Datetime(String),
    Array(Vec<Value>),
    Table(Table),
}

/// A table: key/value pairs in order of insertion.
#[derive(Debug, PartialEq)]
pub struct Table {
    pub entries: Vec<(String, Value)>,
}

/// The model of a sequence of table entries.
pub open spec fn entries_view(t: Seq<(String, Value)>) -> Seq<(Seq<char>, Val)>
    decreases t,
{
    Seq::new(
        t.len(),
        |i: int|
            if 0 <= i < t.len() {
                (t[i].0@, t[i].1.view())
            } else {
                (Seq::empty(), Val::Bool(false))
            },
    )
}

/// The model of a sequence of values.
pub open spec fn items_view(a: Seq<Value>) -> Seq<Val>
    decreases a,
{
    Seq::new(a.len(), |i: int| if 0 <= i < a.len() { a[i].view() } else { Val::Bool(false) })
}

impl Value {
    pub open spec fn view(&self) -> Val
        decreases self,
    {
        match self {
            Value::String(s) => Val::Str(s@),
            Value::Integer(i) => Val::Int(*i as int),
            Value::Float(s) => Val::Float(s@),
            Value::Boolean(b) => Val::Bool(*b),
            Value::Datetime(s) => Val::Datetime(s@),
            Value::Array(a) => Val::Array(items_view(a@)),
            Value::Table(t) => Val::Table(entries_view(t.entries@)),
        }
    }
}

impl Table {
    pub open spec fn view(&self) -> Seq<(Seq<char>, Val)> {
        entries_view(self.entries@)
    }
}

/// `i` is the first position of key `k` in `t`.
pub open spec fn first_at(t: Seq<(Seq<char>, Val)>, k: Seq<char>, i: int) -> bool {
    &&& 0 <= i < t.len()
    &&& t[i].0 == k
    &&& forall|j: int| 0 <= j < i ==> t[j].0 != k
}

/// The position of the first entry with key `k`, if any.
pub open spec fn key_index(t: Seq<(Seq<char>, Val)>, k: Seq<char>) -> Option<int> {
    if exists|i: int| first_at(t, k, i) {
        Some(choose|i: int| first_at(t, k, i))
    } else {
        None
    }
}

/// The value stored under key `k`, if any.
pub open spec fn get(t: Seq<(Seq<char>, Val)>, k: Seq<char>) -> Option<Val> {
    match key_index(t, k) {
        Some(i) => Some(t[i].1),
        None => None,
    }
}

/// `t` with `v` stored under `k`: in place where `k` is present, else appended.
pub open spec fn insert(t: Seq<(Seq<char>, Val)>, k: Seq<char>, v: Val) -> Seq<(Seq<char>, Val)> {
    match key_index(t, k) {
        Some(i) => t.update(i, (k, v)),
        None => t.push((k, v)),
    }
}

/// No key occurs twice in `t`.
pub open spec fn unique_keys(t: Seq<(Seq<char>, Val)>) -> bool {
    forall|i: int, j: int| 0 <= i < j < t.len() ==> t[i].0 != t[j].0
}

/// Every table in `v`, at any depth, has unique keys.
pub open spec fn wf_val(v: Val) -> bool
    decreases v,
{
    match v {
        Val::Array(a) => forall|i: int| 0 <= i < a.len() ==> wf_val(#[trigger] a[i]),
        Val::Table(t) => unique_keys(t) && forall|i: int| 0 <= i < t.len() ==> wf_val(#[trigger] t[i].1),
        _ => true,
    }
}

/// The value reached from `v` by descending through tables along `path`.
pub open spec fn walk(v: Val, path: Seq<Seq<char>>) -> Option<Val>
    decreases path.len(),
{
    if path.len() == 0 {
        Some(v)
    } else {
        match v {
            Val::Table(t) => match get(t, path[0]) {
                Some(c) => walk(c, path.drop_first()),
                None => None,
            },
            _ => None,
        }
    }
}

pub proof fn lemma_first_at_unique(t: Seq<(Seq<char>, Val)>, k: Seq<char>, i: int)
    requires
        first_at(t, k, i),
    ensures
        key_index(t, k) == Some(i),
{
    let j = choose|j: int| first_at(t, k, j);
    assert(first_at(t, k, j));
    if j < i {
        assert(t[j].0 != k);
    } else if i < j {
        assert(t[i].0 != k);
    }
}

pub proof fn lemma_first_exists(t: Seq<(Seq<char>, Val)>, k: Seq<char>, j: int)
    requires
        0 <= j < t.len(),
        t[j].0 == k,
    ensures
        key_index(t, k) is Some,
    decreases j,
{
    if forall|l: int| 0 <= l < j ==> t[l].0 != k {
        assert(first_at(t, k, j));
    } else {
        let l = choose|l: int| 0 <= l < j && t[l].0 == k;
        lemma_first_exists(t, k, l);
    }
}

pub proof fn lemma_key_index_none(t: Seq<(Seq<char>, Val)>, k: Seq<char>)
    requires
        key_index(t, k) is None,
    ensures
        forall|j: int| 0 <= j < t.len() ==> t[j].0 != k,
{
    assert forall|j: int| 0 <= j < t.len() implies t[j].0 != k by {
        if t[j].0 == k {
            lemma_first_exists(t, k, j);
        }
    }
}

pub proof fn lemma_key_index_same_keys(t: Seq<(Seq<char>, Val)>, u: Seq<(Seq<char>, Val)>, k: Seq<char>)
    requires
        t.len() == u.len(),
        forall|j: int| 0 <= j < t.len() ==> t[j].0 == u[j].0,
    ensures
        key_index(t, k) == key_index(u, k),
{
    if exists|j: int| first_at(t, k, j) {
        let j = choose|j: int| first_at(t, k, j);
        assert(first_at(u, k, j));
        lemma_first_at_unique(u, k, j);
        lemma_first_at_unique(t, k, j);
    } else if exists|j: int| first_at(u, k, j) {
        let j = choose|j: int| first_at(u, k, j);
        assert(first_at(t, k, j));
    }
}

pub proof fn lemma_key_index_update(t: Seq<(Seq<char>, Val)>, i: int, k2: Seq<char>, v: Val, k: Seq<char>)
    requires
        0 <= i < t.len(),
        t[i].0 == k2,
    ensures
        key_index(t.update(i, (k2, v)), k) == key_index(t, k),
        k != k2 ==> get(t.update(i, (k2, v)), k) == get(t, k),
        k == k2 && key_index(t, k) == Some(i) ==> get(t.update(i, (k2, v)), k) == Some(v),
{
    lemma_key_index_same_keys(t, t.update(i, (k2, v)), k);
    if k != k2 {
        if let Some(j) = key_index(t, k) {
            assert(first_at(t, k, j));
            assert(j != i);
        }
    }
}

pub proof fn lemma_key_index_push(t: Seq<(Seq<char>, Val)>, k2: Seq<char>, v: Val, k: Seq<char>)
    ensures
        k != k2 ==> key_index(t.push((k2, v)), k) == key_index(t, k),
        k != k2 ==> get(t.push((k2, v)), k) == get(t, k),
        k == k2 && key_index(t, k) is None ==> key_index(t.push((k2, v)), k) == Some(t.len() as int),
        k == k2 && key_index(t, k) is None ==> get(t.push((k2, v)), k) == Some(v),
        key_index(t, k) is Some ==> key_index(t.push((k2, v)), k) == key_index(t, k),
        key_index(t, k) is Some ==> get(t.push((k2, v)), k) == get(t, k),
{
    let u = t.push((k2, v));
    if exists|j: int| first_at(t, k, j) {
        let j = choose|j: int| first_at(t, k, j);
        assert(first_at(u, k, j));
        lemma_first_at_unique(u, k, j);
        lemma_first_at_unique(t, k, j);
    } else {
        lemma_key_index_none(t, k);
        if k == k2 {
            assert(first_at(u, k, t.len() as int));
            lemma_first_at_unique(u, k, t.len() as int);
        } else if exists|j: int| first_at(u, k, j) {
            let j = choose|j: int| first_at(u, k, j);
            assert(j < t.len());
            assert(t[j].0 == k);
        }
    }
}

/// Finds the first entry with the given key.
pub fn find_key(entries: &Vec<(String, Value)>, key: &String) -> (r: Option<usize>)
    ensures
        match r {
            Some(i) => key_index(entries_view(entries@), key@) == Some(i as int),
            None => key_index(entries_view(entries@), key@) is None,
        },
{
    let ghost t = entries_view(entries@);
    let mut i: usize = 0;
    while i < entries.len()
        invariant
            i <= entries.len(),
            t == entries_view(entries@),
            forall|j: int| 0 <= j < i ==> t[j].0 != key@,
        decreases entries.len() - i,
    {
        if entries[i].0 == *key {
            proof {
                lemma_first_at_unique(t, key@, i as int);
            }
            return Some(i);
        }
        i = i + 1;
    }
    proof {
        assert(!exists|j: int| first_at(t, key@, j));
    }
    None
}

impl Table {
    /// An empty table.
    pub fn new() -> (r: Table)
        ensures
            r@ == Seq::<(Seq<char>, Val)>::empty(),
    {
        let r = Table { entries: Vec::new() };
        assert(r@ =~= Seq::<(Seq<char>, Val)>::empty());
        r
    }
}

impl Value {
    /// A copy of the whole value.
    #[verifier::loop_isolation(false)]
    pub fn deep_copy(&self) -> (r: Value)
        ensures
            r@ == self@,
        decreases self,
    {
        match self {
            Value::String(s) => Value::String(s.clone()),
            Value::Integer(i) => Value::Integer(*i),
            Value::Float(s) => Value::Float(s.clone()),
            Value::Boolean(b) => Value::Boolean(*b),
            Value::Datetime(s) => Value::Datetime(s.clone()),
            Value::Array(a) => {
                let mut out: Vec<Value> = Vec::new();
                let mut i: usize = 0;
                while i < a.len()
                    invariant
                        i <= a@.len(),
                        out@.len() == i,
                        forall|j: int| 0 <= j < i ==> (#[trigger] out@[j])@ == a@[j]@,
                    decreases a@.len() - i,
                {
                    assert(decreases_to!(self => a@[i as int])) by {
                        assert(decreases_to!(self => *a));
                        assert(decreases_to!(*a => a@));
                        assert(decreases_to!(a@ => a@[i as int]));
                    }
                    let c = a[i].deep_copy();
                    out.push(c);
                    i = i + 1;
                }
                let r = Value::Array(out);
                assert(items_view(out@) =~= items_view(a@));
                r
            },
            Value::Table(t) => Value::Table(t.deep_copy()),
        }
    }
}

impl Table {
    /// A copy of the whole table.
    pub fn deep_copy(&self) -> (r: Table)
        ensures
            r@ == self@,
        decreases self,
    {
        let mut out: Vec<(String, Value)> = Vec::new();
        let mut i: usize = 0;
        while i < self.entries.len()
            invariant
                i <= self.entries@.len(),
                out@.len() == i,
                forall|j: int|
                    0 <= j < i ==> (#[trigger] out@[j]).0@ == self.entries@[j].0@ && out@[j].1@
                        == self.entries@[j].1@,
            decreases self.entries@.len() - i,
        {
            assert(decreases_to!(self => self.entries@[i as int].1)) by {
                assert(decreases_to!(self => self.entries));
                assert(decreases_to!(self.entries => self.entries@));
                assert(decreases_to!(self.entries@ => self.entries@[i as int]));
            }
            let k = self.entries[i].0.clone();
            let v = self.entries[i].1.deep_copy();
            out.push((k, v));
            i = i + 1;
        }
        let r = Table { entries: out };
        assert(r@ =~= self@);
        r
    }
}

impl Table {
    /// The value under `key`, if any.
    pub fn get(&self, key: &str) -> (r: Option<&Value>)
        ensures
            match r {
                Some(v) => get(self@, key@) == Some(v@),
                None => get(self@, key@) is None,
            },
    {
        let k = String::from_str(key);
        match find_key(&self.entries, &k) {
            Some(i) => Some(&self.entries[i].1),
            None => None,
        }
    }

    /// Stores `value` under `key`: in place where the key is present, else
    /// at the end.
    pub fn insert(&mut self, key: String, value: Value)
        ensures
            final(self)@ == insert(old(self)@, key@, value@),
    {
        match find_key(&self.entries, &key) {
            Some(i) => {
                self.entries.set(i, (key, value));
            },
            None => {
                self.entries.push((key, value));
            },
        }
        assert(self@ =~= insert(old(self)@, key@, value@));
    }

    /// The number of entries.
    pub fn len(&self) -> (r: usize)
        ensures
            r == self@.len(),
    {
        self.entries.len()
    }

    /// Whether the table has no entry.
    pub fn is_empty(&self) -> (r: bool)
        ensures
            r == (self@.len() == 0),
    {
        self.entries.len() == 0
    }
}

impl Value {
    /// The table, where this is one.
    pub fn as_table(&self) -> (r: Option<&Table>)
        ensures
            match r {
                Some(t) => self@ == Val::Table(t@),
                None => !(self@ is Table),
            },
    {
        match self {
            Value::Table(t) => Some(t),
            _ => None,
        }
    }

    /// The items, where this is an array.
    pub fn as_array(&self) -> (r: Option<&Vec<Value>>)
        ensures
            match r {
                Some(a) => self@ == Val::Array(items_view(a@)),
                None => !(self@ is Array),
            },
    {
        match self {
            Value::Array(a) => Some(a),
            _ => None,
        }
    }

    /// The text, where this is a string.
    pub fn as_str(&self) -> (r: Option<&str>)
        ensures
            match r {
                Some(s) => self@ == Val::Str(s@),
                None => !(self@ is Str),
            },
    {
        match self {
            Value::String(s) => Some(s.as_str()),
            _ => None,
        }
    }

    /// The number, where this is an integer.
    pub fn as_integer(&self) -> (r: Option<i64>)
        ensures
            match r {
                Some(i) => self@ == Val::Int(i as int),
                None => !(self@ is Int),
            },
    {
        match self {
            Value::Integer(i) => Some(*i),
            _ => None,
        }
    }

    /// The truth value, where this is a boolean.
    pub fn as_bool(&self) -> (r: Option<bool>)
        ensures
            match r {
                Some(b) => self@ == Val::Bool(b),
                None => !(self@ is Bool),
            },
    {
        match self {
            Value::Boolean(b) => Some(*b),
            _ => None,
        }
    }
}

} // verus!
