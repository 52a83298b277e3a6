//! Text operations on character sequences.

use vstd::prelude::*;
use vstd::string::StrSliceExecFns;
use vstd::string::StringExecFns;
use crate::source::strings_view;

verus! {

/// `sep` occurs in `s` at position `i`.
pub open spec fn occurs_at(s: Seq<char>, sep: Seq<char>, i: int) -> bool {
    0 <= i && i + sep.len() <= s.len() && s.subrange(i, i + sep.len()) == sep
}

/// `i` is the first position at or after `from` where `sep` occurs in `s`.
pub open spec fn first_occurs_at(s: Seq<char>, sep: Seq<char>, from: int, i: int) -> bool {
    &&& from <= i
    &&& occurs_at(s, sep, i)
    &&& forall|j: int| from <= j < i ==> !occurs_at(s, sep, j)
}

/// The first position at or after `from` where `sep` occurs in `s`, if any.
pub open spec fn find_from(s: Seq<char>, sep: Seq<char>, from: int) -> Option<int> {
    if exists|i: int| first_occurs_at(s, sep, from, i) {
        Some(choose|i: int| first_occurs_at(s, sep, from, i))
    } else {
        None
    }
}

/// The pieces of `s` from `start` on, cut at each occurrence of `sep`.
pub open spec fn split_from(s: Seq<char>, sep: Seq<char>, start: int) -> Seq<Seq<char>>
    decreases s.len() - start,
{
    if sep.len() == 0 || start < 0 || start > s.len() {
        seq![s]
    } else {
        match find_from(s, sep, start) {
            Some(i) => seq![s.subrange(start, i)] + split_from(s, sep, i + sep.len()),
            None => seq![s.subrange(start, s.len() as int)],
        }
    }
}

/// The pieces of `s` cut at each occurrence of the non-empty `sep`.
pub open spec fn split(s: Seq<char>, sep: Seq<char>) -> Seq<Seq<char>> {
    split_from(s, sep, 0)
}

/// Splitting always yields at least one piece.
pub proof fn lemma_split_from_nonempty(s: Seq<char>, sep: Seq<char>, start: int)
    ensures
        split_from(s, sep, start).len() >= 1,
    decreases s.len() - start,
{
    if !(sep.len() == 0 || start < 0 || start > s.len()) {
        if let Some(i) = find_from(s, sep, start) {
            assert(first_occurs_at(s, sep, start, i));
            lemma_split_from_nonempty(s, sep, i + sep.len());
        }
    }
}

/// The decimal digit for `d` (below ten).
pub open spec fn digit_char(d: nat) -> char {
    ((d + 48) as u8) as char
}

/// Decimal text of a natural number.
pub open spec fn nat_text(n: nat) -> Seq<char>
    decreases n,
{
    if n < 10 {
        seq![digit_char(n)]
    } else {
        nat_text(n / 10).push(digit_char(n % 10))
    }
}

/// Decimal text of an integer, with a leading `-` when it is negative.
pub open spec fn int_text(i: int) -> Seq<char> {
    if i < 0 {
        seq!['-'] + nat_text((-i) as nat)
    } else {
        nat_text(i as nat)
    }
}

/// Relies on `ToString` for `i64` (through `Display`): the base-10 digits,
/// preceded by `-` for a negative number.
#[verifier::external_body]
pub(crate) fn integer_text(i: i64) -> (r: String)
    ensures
        r@ == int_text(i as int),
{
    i.to_string()
}

proof fn lemma_find_from_unique(s: Seq<char>, sep: Seq<char>, from: int, i: int)
    requires
        first_occurs_at(s, sep, from, i),
    ensures
        find_from(s, sep, from) == Some(i),
{
    let j = choose|j: int| first_occurs_at(s, sep, from, j);
    assert(first_occurs_at(s, sep, from, j));
    if j < i {
        assert(!occurs_at(s, sep, j));
    } else if i < j {
        assert(!occurs_at(s, sep, i));
    }
}

/// Whether `sep` occurs in `s` at `i` (`s` has `n` characters).
fn occurs_here(s: &str, n: usize, sep: &str, m: usize, i: usize) -> (r: bool)
    requires
        n == s@.len(),
        m == sep@.len(),
        i <= n,
    ensures
        r == occurs_at(s@, sep@, i as int),
{
    if m > n - i {
        return false;
    }
    let mut k: usize = 0;
    while k < m
        invariant
            k <= m,
            m <= n - i,
            n == s@.len(),
            m == sep@.len(),
            forall|l: int| 0 <= l < k ==> s@[i + l] == sep@[l],
        decreases m - k,
    {
        if s.get_char(i + k) != sep.get_char(k) {
            assert(s@.subrange(i as int, i + m)[k as int] != sep@[k as int]);
            return false;
        }
        k = k + 1;
    }
    assert(s@.subrange(i as int, i + m) =~= sep@);
    true
}

/// Splits `s` at each occurrence of the non-empty `sep`.
pub fn split_str(s: &str, sep: &str) -> (r: Vec<String>)
    requires
        sep@.len() > 0,
    ensures
        strings_view(r@) == split(s@, sep@),
{
    let n = s.unicode_len();
    let m = sep.unicode_len();
    let mut pieces: Vec<String> = Vec::new();
    let mut start: usize = 0;
    let mut i: usize = 0;
    while i < n
        invariant
            n == s@.len(),
            m == sep@.len(),
            m > 0,
            start <= i <= n,
            forall|j: int| start <= j < i ==> !occurs_at(s@, sep@, j),
            strings_view(pieces@) + split_from(s@, sep@, start as int) == split(s@, sep@),
        decreases n - i,
    {
        if occurs_here(s, n, sep, m, i) {
            proof {
                lemma_find_from_unique(s@, sep@, start as int, i as int);
            }
            let piece = String::from_str(s.substring_char(start, i));
            let ghost before = pieces@;
            pieces.push(piece);
            assert(strings_view(pieces@) =~= strings_view(before).push(piece@));
            assert(strings_view(pieces@) + split_from(s@, sep@, (i + m) as int) =~= strings_view(
                before,
            ) + split_from(s@, sep@, start as int));
            start = i + m;
            i = i + m;
        } else {
            i = i + 1;
        }
    }
    proof {
        if exists|j: int| first_occurs_at(s@, sep@, start as int, j) {
            let j = choose|j: int| first_occurs_at(s@, sep@, start as int, j);
            assert(occurs_at(s@, sep@, j));
        }
    }
    let piece = String::from_str(s.substring_char(start, n));
    let ghost before = pieces@;
    pieces.push(piece);
    assert(strings_view(pieces@) =~= strings_view(before).push(piece@));
    assert(strings_view(pieces@) =~= strings_view(before) + split_from(s@, sep@, start as int));
    pieces
}

} // verus!
