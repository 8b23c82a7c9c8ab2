//! Spreadsheet addresses: column labels, row numbers and their textual form.
use vstd::prelude::*;

use crate::dtypes::LocModel;

verus! {

pub open spec fn is_upper(c: char) -> bool {
    'A' <= c && c <= 'Z'
}

pub open spec fn is_lower(c: char) -> bool {
    'a' <= c && c <= 'z'
}

/// An ASCII letter, either case.
pub open spec fn is_letter(c: char) -> bool {
    is_upper(c) || is_lower(c)
}

/// An ASCII decimal digit.
pub open spec fn is_digit(c: char) -> bool {
    '0' <= c && c <= '9'
}

/// The upper-case form of an ASCII letter; other characters are left alone.
pub open spec fn upper_of(c: char) -> char {
    if is_lower(c) {
        ((c as u32) - 32) as char
    } else {
        c
    }
}

/// A column label as stored: one or more upper-case letters.
pub open spec fn is_label(s: Seq<char>) -> bool {
    s.len() > 0 && forall|i: int| 0 <= i < s.len() ==> is_upper(#[trigger] s[i])
}

/// The bijective base-26 numeral of an upper-case label: A = 1, Z = 26, AA = 27.
pub open spec fn label_numeral(s: Seq<char>) -> nat
    decreases s.len(),
{
    if s.len() == 0 {
        0
    } else {
        label_numeral(s.drop_last()) * 26 + ((s.last() as u32) - ('A' as u32) + 1) as nat
    }
}

/// A label whose zero-based column index, and the count of columns up to it, fit in `usize`.
pub open spec fn label_fits(s: Seq<char>) -> bool {
    is_label(s) && label_numeral(s) <= usize::MAX
}

/// The zero-based column index of a label.
pub open spec fn column_index(s: Seq<char>) -> int {
    label_numeral(s) - 1
}

/// The value of a string of decimal digits, most significant first.
pub open spec fn digits_value(s: Seq<char>) -> nat
    decreases s.len(),
{
    if s.len() == 0 {
        0
    } else {
        digits_value(s.drop_last()) * 10 + ((s.last() as u32) - ('0' as u32)) as nat
    }
}

pub open spec fn all_digits(s: Seq<char>) -> bool {
    forall|i: int| 0 <= i < s.len() ==> is_digit(#[trigger] s[i])
}

/// Every ASCII letter in upper case.
pub open spec fn upper_seq(s: Seq<char>) -> Seq<char> {
    s.map_values(|c: char| upper_of(c))
}

/// The text splits at `k` into letters before and digits from there on, both present.
pub open spec fn splits_at(s: Seq<char>, k: int) -> bool {
    &&& 0 < k < s.len()
    &&& forall|i: int| 0 <= i < k ==> is_letter(#[trigger] s[i])
    &&& forall|i: int| k <= i < s.len() ==> is_digit(#[trigger] s[i])
}

/// The address that a text names: letters, then digits that number a
/// positive row. Letters are taken in upper case; the column and the row
/// must fit in `usize`.
pub open spec fn loc_of(s: Seq<char>) -> Option<LocModel> {
    if exists|k: int| splits_at(s, k) {
        let k = choose|k: int| splits_at(s, k);
        let col = upper_seq(s.take(k));
        let row = digits_value(s.skip(k));
        if 1 <= row <= usize::MAX && label_numeral(col) <= usize::MAX {
            Some(LocModel { col, row: row as usize })
        } else {
            None
        }
    } else {
        None
    }
}

pub proof fn lemma_split_unique(s: Seq<char>, a: int, b: int)
    requires
        splits_at(s, a),
        splits_at(s, b),
    ensures
        a == b,
{
    if a < b {
        assert(is_letter(s[a]) && is_digit(s[a]));
    } else if b < a {
        assert(is_letter(s[b]) && is_digit(s[b]));
    }
}

pub proof fn lemma_digits_grow(s: Seq<char>, i: int)
    requires
        all_digits(s),
        0 <= i <= s.len(),
    ensures
        digits_value(s.take(i)) <= digits_value(s),
    decreases s.len() - i,
{
    if i < s.len() {
        assert(s.take(i + 1).drop_last() =~= s.take(i));
        lemma_digits_grow(s, i + 1);
    } else {
        assert(s.take(i) =~= s);
    }
}

/// A well-formed address: a label that fits and a positive row.
pub open spec fn valid_loc(l: LocModel) -> bool {
    label_fits(l.col) && l.row >= 1
}

pub proof fn lemma_label_numeral_grows(s: Seq<char>, i: int)
    requires
        is_label(s),
        0 <= i <= s.len(),
    ensures
        label_numeral(s.take(i)) <= label_numeral(s),
        i < s.len() ==> label_numeral(s.take(i)) < label_numeral(s.take(i + 1)),
    decreases s.len() - i,
{
    if i < s.len() {
        assert(s.take(i + 1).drop_last() =~= s.take(i));
        lemma_label_numeral_grows(s, i + 1);
    } else {
        assert(s.take(i) =~= s);
    }
}

} // verus!
