//! Parsers for addresses, values, the lines of a saved sheet and formulas.
use vstd::prelude::*;
use vstd::string::*;

use crate::address::{
    all_digits, digits_value, is_digit, is_letter, is_upper, lemma_digits_grow, lemma_split_unique,
    loc_of, splits_at, upper_seq, valid_loc,
};
use crate::dtypes::{
    opt_val_model, CellLoc, CellVal, FormToken, LocModel, NumModel, Number, Op, TokenModel,
    TreeModel, ValModel,
};
use crate::formulas::{alternates, fold_tree, tokens_to_tree, TknTree};
use crate::sheet::Sheet;
use crate::text::{is_digit_char, is_letter_char, push_char, upper_char};

verus! {

/// The text of an address is not letters followed by digits, or names no
/// row or column that can be held.
#[derive(Debug, Clone, Copy, PartialEq, Eq)]
pub struct AddressSyntaxError;

/// Reads an address such as `B12` or `aa3`: one or more ASCII letters, then
/// one or more ASCII digits that number a positive row. Letters are stored in
/// upper case.
pub fn parse_loc(loc_arg: &String) -> (r: Result<CellLoc, AddressSyntaxError>)
    ensures
        match r {
            Ok(l) => loc_of(loc_arg@) == Some(l@) && valid_loc(l@),
            Err(_) => loc_of(loc_arg@) is None,
        },
{
    let s = loc_arg.as_str();
    let ghost t = loc_arg@;
    let n = s.unicode_len();
    let mut col = String::new();
    let mut k: usize = 0;
    while k < n && is_letter_char(s.get_char(k))
        invariant
            s@ == t,
            t == loc_arg@,
            n == t.len(),
            0 <= k <= n,
            col@ == upper_seq(t.take(k as int)),
            forall|i: int| 0 <= i < k ==> is_letter(#[trigger] t[i]),
        decreases n - k,
    {
        let c = upper_char(s.get_char(k));
        push_char(&mut col, c);
        k = k + 1;
        assert(col@ =~= upper_seq(t.take(k as int)));
    }
    if k == 0 || k == n {
        proof {
            if exists|j: int| splits_at(t, j) {
                let j = choose|j: int| splits_at(t, j);
                if k == 0 {
                    assert(is_letter(t[0]));
                } else {
                    assert(is_letter(t[j]));
                }
            }
        }
        return Err(AddressSyntaxError);
    }
    let mut row: usize = 0;
    let mut i: usize = k;
    while i < n
        invariant
            s@ == t,
            t == loc_arg@,
            n == t.len(),
            0 < k <= i <= n,
            k < n,
            forall|j: int| 0 <= j < k ==> is_letter(#[trigger] t[j]),
            k < n ==> !is_letter(t[k as int]),
            forall|j: int| k <= j < i ==> is_digit(#[trigger] t[j]),
            row as nat == digits_value(t.subrange(k as int, i as int)),
        decreases n - i,
    {
        let c = s.get_char(i);
        assert(t[i as int] == c);
        if !is_digit_char(c) {
            proof {
                if exists|j: int| splits_at(t, j) {
                    let j = choose|j: int| splits_at(t, j);
                    if j == k {
                        assert(is_digit(t[i as int]));
                    } else if j < k {
                        assert(is_digit(t[j]) && is_letter(t[j]));
                    } else if j > k {
                        assert(is_letter(t[k as int]));
                    }
                }
            }
            return Err(AddressSyntaxError);
        }
        let d: usize = (c as u32 - 48) as usize;
        assert(t.subrange(k as int, i + 1).drop_last() =~= t.subrange(k as int, i as int));
        let next = match row.checked_mul(10) {
            Some(m) => m.checked_add(d),
            None => None,
        };
        match next {
            Some(v) => {
                row = v;
            },
            None => {
                proof {
                    lemma_row_overflow(t, k as int, i as int + 1);
                }
                return Err(AddressSyntaxError);
            },
        }
        i = i + 1;
    }
    assert(t.subrange(k as int, n as int) =~= t.skip(k as int));
    assert(t.take(k as int).len() == k);
    proof {
        assert(splits_at(t, k as int));
        let j = choose|j: int| splits_at(t, j);
        lemma_split_unique(t, j, k as int);
    }
    if row == 0 {
        return Err(AddressSyntaxError);
    }
    assert forall|j: int| 0 <= j < col@.len() implies is_upper(#[trigger] col@[j]) by {
        assert(is_letter(t[j]));
    }
    match Sheet::col_to_index(&col) {
        Ok(_) => Ok(CellLoc { col, row }),
        Err(e) => Err(e),
    }
}

/// The 64-bit integer that a text writes: an optional `+` or `-`, then one
/// or more ASCII digits, the value in range.
pub open spec fn int_of(s: Seq<char>) -> Option<i64> {
    let signed = s.len() > 0 && (s[0] == '-' || s[0] == '+');
    let d = if signed {
        s.drop_first()
    } else {
        s
    };
    if d.len() > 0 && all_digits(d) {
        let v: int = if s.len() > 0 && s[0] == '-' {
            -(digits_value(d) as int)
        } else {
            digits_value(d) as int
        };
        if i64::MIN <= v <= i64::MAX {
            Some(v as i64)
        } else {
            None
        }
    } else {
        None
    }
}

/// Reads a 64-bit integer as `str::parse::<i64>` does.
pub fn parse_int(text: &String) -> (r: Option<i64>)
    ensures
        r == int_of(text@),
{
    let s = text.as_str();
    let ghost t = text@;
    let n = s.unicode_len();
    if n == 0 {
        return None;
    }
    let first = s.get_char(0);
    let neg = first == '-';
    let start: usize = if first == '-' || first == '+' {
        1
    } else {
        0
    };
    let ghost d = if start == 1 {
        t.drop_first()
    } else {
        t
    };
    assert(d =~= t.skip(start as int));
    if start == n {
        return None;
    }
    let mut acc: u128 = 0;
    let mut i: usize = start;
    while i < n
        invariant
            s@ == t,
            t == text@,
            n == t.len(),
            start <= i <= n,
            start < n,
            first == t[0],
            neg == (first == '-'),
            start == (if first == '-' || first == '+' {
                1usize
            } else {
                0usize
            }),
            d == t.skip(start as int),
            forall|j: int| start <= j < i ==> is_digit(#[trigger] t[j]),
            acc as nat == digits_value(t.subrange(start as int, i as int)),
            acc <= 9223372036854775808,
        decreases n - i,
    {
        let c = s.get_char(i);
        assert(t[i as int] == c);
        if !is_digit_char(c) {
            assert(!is_digit(d[i - start]));
            assert(start == 1 ==> t.drop_first() =~= d);
            assert(start == 0 ==> t =~= d);
            return None;
        }
        assert(t.subrange(start as int, i + 1).drop_last() =~= t.subrange(start as int, i as int));
        acc = acc * 10 + (c as u32 - 48) as u128;
        assert(t.subrange(start as int, i + 1).last() == c);
        assert(acc as nat == digits_value(t.subrange(start as int, i + 1)));
        if acc > 9223372036854775808 {
            proof {
                if all_digits(d) {
                    assert(d.take(i + 1 - start) =~= t.subrange(start as int, i + 1));
                    lemma_digits_grow(d, i + 1 - start);
                    assert(digits_value(d) > 9223372036854775808);
                }
                assert(start == 1 ==> t.drop_first() =~= d);
                assert(start == 0 ==> t =~= d);
            }
            return None;
        }
        i = i + 1;
    }
    assert(t.subrange(start as int, n as int) =~= d);
    assert(start == 1 ==> t.drop_first() =~= d);
    assert(start == 0 ==> t =~= d);
    if neg {
        Some((0 - (acc as i128)) as i64)
    } else if acc <= 9223372036854775807 {
        Some(acc as i64)
    } else {
        None
    }
}

/// The value that a text stands for. `as_double` is what reading the text as a
/// double gave, as a bit pattern: a formula is recognised first, by its
/// leading `=`, then an integer, then a real, and anything else is text.
pub open spec fn val_of(s: Seq<char>, as_double: Option<u64>) -> ValModel {
    if s.len() > 0 && s[0] == '=' {
        ValModel::Formula(s)
    } else {
        match int_of(s) {
            Some(v) => ValModel::Int(v),
            None => match as_double {
                Some(b) => ValModel::Real(b),
                None => ValModel::Text(s),
            },
        }
    }
}

/// Reads a cell value from its text. Floating-point reading stays with the
/// caller, who passes in `as_double` the bit pattern of the double that the text
/// reads as, if any.
pub fn parse_val(val_arg: &String, as_double: Option<u64>) -> (r: CellVal)
    ensures
        r@ == val_of(val_arg@, as_double),
{
    let s = val_arg.as_str();
    if s.unicode_len() > 0 && s.get_char(0) == '=' {
        return CellVal::Formula(val_arg.clone());
    }
    match parse_int(val_arg) {
        Some(v) => CellVal::Int(v),
        None => match as_double {
            Some(b) => CellVal::Real(b),
            None => CellVal::Text(val_arg.clone()),
        },
    }
}

/// Some character of the text is an ASCII letter.
pub open spec fn has_letter(s: Seq<char>) -> bool {
    exists|i: int| 0 <= i < s.len() && is_letter(#[trigger] s[i])
}

/// A number literal of a formula: a 64-bit integer where the text is one,
/// else the text itself.
pub open spec fn num_of(s: Seq<char>) -> NumModel {
    match int_of(s) {
        Some(v) => NumModel::Int(v),
        None => NumModel::Decimal(s),
    }
}

/// The token that a scanned buffer stands for: an address where the buffer
/// held a letter, a number otherwise. `None` where an address is malformed.
pub open spec fn buf_token(buf: Seq<char>, alpha: bool) -> Option<TokenModel> {
    if alpha {
        match loc_of(buf) {
            Some(l) => Some(TokenModel::Loc(l)),
            None => None,
        }
    } else {
        Some(TokenModel::Num(num_of(buf)))
    }
}

pub open spec fn tokens_model(v: Seq<FormToken>) -> Seq<TokenModel> {
    v.map_values(|t: FormToken| t@)
}

/// Appends the token of a non-empty buffer to the tokens so far.
pub open spec fn flush(toks: Option<Seq<TokenModel>>, buf: Seq<char>) -> Option<Seq<TokenModel>> {
    match toks {
        Some(ts) => match buf_token(buf, has_letter(buf)) {
            Some(k) => Some(ts.push(k)),
            None => None,
        },
        None => None,
    }
}

pub open spec fn op_of(c: char) -> Op {
    if c == '+' {
        Op::Plus
    } else {
        Op::Minus
    }
}

/// The tokens emitted and the buffer held after a left-to-right scan of `s`:
/// `+` and `-` flush a non-empty buffer and emit their operator, and any
/// other character goes into the buffer. The tokens are
/// `None` once a buffer failed to read.
pub open spec fn scan(s: Seq<char>) -> (Option<Seq<TokenModel>>, Seq<char>)
    decreases s.len(),
{
    if s.len() == 0 {
        (Some(Seq::empty()), Seq::empty())
    } else {
        let prev = scan(s.drop_last());
        let c = s.last();
        if c == '+' || c == '-' {
            let flushed = if prev.1.len() == 0 {
                prev.0
            } else {
                flush(prev.0, prev.1)
            };
            let toks = match flushed {
                Some(ts) => Some(ts.push(TokenModel::BinOp(op_of(c)))),
                None => None,
            };
            (toks, Seq::empty())
        } else {
            (prev.0, prev.1.push(c))
        }
    }
}

/// The tokens of a formula expression; `None` where it is empty, ends with an
/// operator, or holds a malformed address.
pub open spec fn tokenize_spec(s: Seq<char>) -> Option<Seq<TokenModel>> {
    let end = scan(s);
    if end.1.len() == 0 {
        None
    } else {
        flush(end.0, end.1)
    }
}

proof fn lemma_tokens_push(v: Seq<FormToken>, x: FormToken)
    ensures
        tokens_model(v.push(x)) == tokens_model(v).push(x@),
{
    assert(tokens_model(v.push(x)) =~= tokens_model(v).push(x@));
}

/// Reads a scanned buffer as a token: an address where `alpha_flag` says the
/// buffer held a letter, a number otherwise.
pub fn buf_to_loc_or_num_token(buf: &String, alpha_flag: bool) -> (r: Option<FormToken>)
    ensures
        match r {
            Some(t) => buf_token(buf@, alpha_flag) == Some(t@),
            None => buf_token(buf@, alpha_flag) is None,
        },
{
    if alpha_flag {
        match parse_loc(buf) {
            Ok(l) => Some(FormToken::Loc(l)),
            Err(_) => None,
        }
    } else {
        match parse_int(buf) {
            Some(v) => Some(FormToken::Num(Number::Int(v))),
            None => Some(FormToken::Num(Number::Decimal(buf.clone()))),
        }
    }
}

/// Splits a formula expression into tokens, as `tokenize_spec` describes.
pub fn tokenize_expr(expr: &String) -> (r: Option<Vec<FormToken>>)
    ensures
        match r {
            Some(v) => tokenize_spec(expr@) == Some(tokens_model(v@)),
            None => tokenize_spec(expr@) is None,
        },
{
    let s = expr.as_str();
    let ghost t = expr@;
    let n = s.unicode_len();
    let mut buf = String::new();
    let mut tokens: Vec<FormToken> = Vec::new();
    let mut alpha_flag = false;
    let mut failed = false;
    let mut i: usize = 0;
    assert(t.take(0) =~= Seq::<char>::empty());
    assert(tokens_model(tokens@) =~= Seq::<TokenModel>::empty());
    while i < n
        invariant
            s@ == t,
            t == expr@,
            n == t.len(),
            0 <= i <= n,
            scan(t.take(i as int)).1 == buf@,
            alpha_flag == has_letter(buf@),
            failed == scan(t.take(i as int)).0 is None,
            !failed ==> scan(t.take(i as int)).0 == Some(tokens_model(tokens@)),
        decreases n - i,
    {
        let c = s.get_char(i);
        assert(t.take(i + 1).drop_last() =~= t.take(i as int));
        assert(t.take(i + 1).last() == c);
        if c == '+' || c == '-' {
            if buf.as_str().unicode_len() > 0 && !failed {
                match buf_to_loc_or_num_token(&buf, alpha_flag) {
                    Some(tok) => {
                        proof {
                            lemma_tokens_push(tokens@, tok);
                        }
                        tokens.push(tok);
                    },
                    None => {
                        failed = true;
                    },
                }
            }
            if !failed {
                let op = if c == '+' {
                    Op::Plus
                } else {
                    Op::Minus
                };
                proof {
                    lemma_tokens_push(tokens@, FormToken::BinOp(op));
                }
                tokens.push(FormToken::BinOp(op));
            }
            buf = String::new();
            alpha_flag = false;
        } else {
            let ghost before = buf@;
            if is_letter_char(c) {
                alpha_flag = true;
            }
            push_char(&mut buf, c);
            proof {
                if is_letter(c) {
                    assert(buf@[before.len() as int] == c);
                }
                if has_letter(before) {
                    let j = choose|j: int| 0 <= j < before.len() && is_letter(#[trigger] before[j]);
                    assert(buf@[j] == before[j]);
                }
                if has_letter(buf@) {
                    let j = choose|j: int| 0 <= j < buf@.len() && is_letter(#[trigger] buf@[j]);
                    if j < before.len() {
                        assert(before[j] == buf@[j]);
                    }
                }
            }
        }
        i = i + 1;
    }
    assert(t.take(n as int) =~= t);
    if failed || buf.as_str().unicode_len() == 0 {
        return None;
    }
    match buf_to_loc_or_num_token(&buf, alpha_flag) {
        Some(tok) => {
            proof {
                lemma_tokens_push(tokens@, tok);
            }
            tokens.push(tok);
            Some(tokens)
        },
        None => None,
    }
}

/// A formula's expression: its text without the leading `=` marker.
pub open spec fn expression_of(s: Seq<char>) -> Seq<char> {
    if s.len() > 0 && s[0] == '=' {
        s.drop_first()
    } else {
        s
    }
}

/// The expression tree of a formula value; `None` for any other value and
/// for a malformed formula.
pub open spec fn formula_tree(v: ValModel) -> Option<TreeModel> {
    match v {
        ValModel::Formula(s) => match tokenize_spec(expression_of(s)) {
            Some(ts) => if alternates(ts) {
                Some(fold_tree(ts))
            } else {
                None
            },
            None => None,
        },
        _ => None,
    }
}

/// Tokenizes a formula's expression, leading `=` left out, and builds its
/// expression tree.
pub fn parse_formula_expr(cell_val: &CellVal) -> (r: Option<TknTree>)
    ensures
        match r {
            Some(t) => formula_tree(cell_val@) == Some(t.model()),
            None => formula_tree(cell_val@) is None,
        },
{
    if let CellVal::Formula(text) = cell_val {
        let s = text.as_str();
        let n = s.unicode_len();
        let from: usize = if n > 0 && s.get_char(0) == '=' {
            1
        } else {
            0
        };
        let expr = s.substring_char(from, n).to_owned();
        assert(expr@ =~= expression_of(text@));
        match tokenize_expr(&expr) {
            Some(tokens) => tokens_to_tree(&tokens),
            None => None,
        }
    } else {
        None
    }
}

/// The count that a text writes, as `str::parse::<usize>` reads it: an
/// optional `+`, then one or more ASCII digits, the value in range.
pub open spec fn count_of(s: Seq<char>) -> Option<usize> {
    let d = if s.len() > 0 && s[0] == '+' {
        s.drop_first()
    } else {
        s
    };
    if d.len() > 0 && all_digits(d) && digits_value(d) <= usize::MAX {
        Some(digits_value(d) as usize)
    } else {
        None
    }
}

/// Reads a count as `str::parse::<usize>` does.
pub fn parse_count(text: &String) -> (r: Option<usize>)
    ensures
        r == count_of(text@),
{
    let s = text.as_str();
    let ghost t = text@;
    let n = s.unicode_len();
    let start: usize = if n > 0 && s.get_char(0) == '+' {
        1
    } else {
        0
    };
    let ghost d = if start == 1 {
        t.drop_first()
    } else {
        t
    };
    assert(d =~= t.skip(start as int));
    if start == n {
        return None;
    }
    let mut acc: usize = 0;
    let mut i: usize = start;
    while i < n
        invariant
            s@ == t,
            t == text@,
            n == t.len(),
            start <= i <= n,
            start < n,
            start == (if t[0] == '+' {
                1usize
            } else {
                0usize
            }),
            d == t.skip(start as int),
            forall|j: int| start <= j < i ==> is_digit(#[trigger] t[j]),
            acc as nat == digits_value(t.subrange(start as int, i as int)),
        decreases n - i,
    {
        let c = s.get_char(i);
        assert(t[i as int] == c);
        if !is_digit_char(c) {
            assert(!is_digit(d[i - start]));
            assert(start == 1 ==> t.drop_first() =~= d);
            assert(start == 0 ==> t =~= d);
            return None;
        }
        assert(t.subrange(start as int, i + 1).drop_last() =~= t.subrange(start as int, i as int));
        assert(t.subrange(start as int, i + 1).last() == c);
        let next = match acc.checked_mul(10) {
            Some(m) => m.checked_add((c as u32 - 48) as usize),
            None => None,
        };
        match next {
            Some(v) => {
                acc = v;
            },
            None => {
                proof {
                    if all_digits(d) {
                        assert(d.take(i + 1 - start) =~= t.subrange(start as int, i + 1));
                        lemma_digits_grow(d, i + 1 - start);
                    }
                    assert(start == 1 ==> t.drop_first() =~= d);
                    assert(start == 0 ==> t =~= d);
                }
                return None;
            },
        }
        i = i + 1;
    }
    assert(t.subrange(start as int, n as int) =~= d);
    assert(start == 1 ==> t.drop_first() =~= d);
    assert(start == 0 ==> t =~= d);
    Some(acc)
}

/// The two words of a sheet's first line: what precedes the first space,
/// and the other characters after it but spaces. The flag says whether a
/// space was seen.
pub open spec fn first_line_words(s: Seq<char>) -> (Seq<char>, Seq<char>, bool)
    decreases s.len(),
{
    if s.len() == 0 {
        (Seq::empty(), Seq::empty(), false)
    } else {
        let p = first_line_words(s.drop_last());
        let c = s.last();
        if c != ' ' {
            if p.2 {
                (p.0, p.1.push(c), true)
            } else {
                (p.0.push(c), p.1, false)
            }
        } else {
            (p.0, p.1, true)
        }
    }
}

/// The column and row counts that a sheet's first line gives.
pub open spec fn dims_of(s: Seq<char>) -> Option<(usize, usize)> {
    let w = first_line_words(s);
    match (count_of(w.0), count_of(w.1)) {
        (Some(c), Some(r)) => Some((c, r)),
        _ => None,
    }
}

/// Reads the first line of a saved sheet, `<column count> <row count>`.
pub fn parse_first_line(line: &String) -> (r: Option<(usize, usize)>)
    ensures
        r == dims_of(line@),
{
    let s = line.as_str();
    let ghost t = line@;
    let n = s.unicode_len();
    let mut buf_cols = String::new();
    let mut buf_rows = String::new();
    let mut space_flag = false;
    let mut i: usize = 0;
    assert(t.take(0) =~= Seq::<char>::empty());
    while i < n
        invariant
            s@ == t,
            t == line@,
            n == t.len(),
            0 <= i <= n,
            first_line_words(t.take(i as int)) == (buf_cols@, buf_rows@, space_flag),
        decreases n - i,
    {
        let c = s.get_char(i);
        assert(t.take(i + 1).drop_last() =~= t.take(i as int));
        assert(t.take(i + 1).last() == c);
        if c != ' ' {
            if space_flag {
                push_char(&mut buf_rows, c);
            } else {
                push_char(&mut buf_cols, c);
            }
        } else {
            space_flag = true;
        }
        i = i + 1;
    }
    assert(t.take(n as int) =~= t);
    match (parse_count(&buf_cols), parse_count(&buf_rows)) {
        (Some(c), Some(r)) => Some((c, r)),
        _ => None,
    }
}

/// The kind of value that a saved value's text form marks.
#[derive(Debug, Clone, Copy, PartialEq, Eq)]
pub enum ValueKind {
    Int,
    Real,
    Text,
    Formula,
}

/// What is wrong with a saved cell line.
#[derive(Debug, Clone, Copy, PartialEq, Eq)]
pub enum LineError {
    /// The line has no space between address and value.
    NoValue,
    /// The address is malformed.
    Address,
    /// The value is in none of the saved forms, or is not what its form says.
    Value,
}

/// `v` is `open`, then anything, then `close`.
pub open spec fn wrapped(v: Seq<char>, open: Seq<char>, close: Seq<char>) -> bool {
    &&& v.len() >= open.len() + close.len()
    &&& v.take(open.len() as int) == open
    &&& v.skip(v.len() - close.len()) == close
}

/// What stands between `open` and `close`.
pub open spec fn inner(v: Seq<char>, open: Seq<char>, close: Seq<char>) -> Seq<char> {
    v.subrange(open.len() as int, v.len() - close.len())
}

pub open spec fn int_open() -> Seq<char> {
    seq!['I', 'n', 't', '(']
}

pub open spec fn real_open() -> Seq<char> {
    seq!['R', 'e', 'a', 'l', '(']
}

pub open spec fn text_open() -> Seq<char> {
    seq!['T', 'e', 'x', 't', '(', '"']
}

pub open spec fn paren_close() -> Seq<char> {
    seq![')']
}

pub open spec fn text_close() -> Seq<char> {
    seq!['"', ')']
}

/// The kind and text of a saved value: a formula as written, with its
/// leading `=`; `Int(<text>)`; `Real(<text>)`; or `Text("<text>")`, whose
/// text is everything between the opening and the closing quote.
pub open spec fn saved_form(v: Seq<char>) -> Option<(ValueKind, Seq<char>)> {
    if v.len() > 0 && v[0] == '=' {
        Some((ValueKind::Formula, v))
    } else if wrapped(v, int_open(), paren_close()) {
        Some((ValueKind::Int, inner(v, int_open(), paren_close())))
    } else if wrapped(v, real_open(), paren_close()) {
        Some((ValueKind::Real, inner(v, real_open(), paren_close())))
    } else if wrapped(v, text_open(), text_close()) {
        Some((ValueKind::Text, inner(v, text_open(), text_close())))
    } else {
        None
    }
}

/// `p` is the place of the first space of `s`.
pub open spec fn first_space(s: Seq<char>, p: int) -> bool {
    &&& 0 <= p < s.len()
    &&& s[p] == ' '
    &&& forall|i: int| 0 <= i < p ==> s[i] != ' '
}

/// A saved cell line, `<address> <value>`: the address before the first
/// space, and the kind and text of the value after it.
pub open spec fn line_of(s: Seq<char>) -> Result<(LocModel, ValueKind, Seq<char>), LineError> {
    if exists|p: int| first_space(s, p) {
        let p = choose|p: int| first_space(s, p);
        match loc_of(s.take(p)) {
            None => Err(LineError::Address),
            Some(l) => match saved_form(s.skip(p + 1)) {
                Some((k, t)) => Ok((l, k, t)),
                None => Err(LineError::Value),
            },
        }
    } else {
        Err(LineError::NoValue)
    }
}

/// The value that a saved value of kind `kind` and text `t` stands for.
/// `as_double` is the caller's reading of `t` as a double, as a bit pattern;
/// only a real uses it.
pub open spec fn saved_val(kind: ValueKind, t: Seq<char>, as_double: Option<u64>) -> Option<ValModel> {
    match kind {
        ValueKind::Int => match int_of(t) {
            Some(v) => Some(ValModel::Int(v)),
            None => None,
        },
        ValueKind::Real => match as_double {
            Some(b) => Some(ValModel::Real(b)),
            None => None,
        },
        ValueKind::Text => Some(ValModel::Text(t)),
        ValueKind::Formula => Some(ValModel::Formula(t)),
    }
}

/// Whether `s` is `open`, then anything, then `close`.
fn is_wrapped(s: &str, open: &str, close: &str) -> (r: bool)
    ensures
        r == wrapped(s@, open@, close@),
{
    let n = s.unicode_len();
    let a = open.unicode_len();
    let b = close.unicode_len();
    if n < a || n - a < b {
        return false;
    }
    let mut i: usize = 0;
    while i < a
        invariant
            0 <= i <= a,
            a == open@.len(),
            n == s@.len(),
            a <= n,
            forall|k: int| 0 <= k < i ==> s@[k] == open@[k],
        decreases a - i,
    {
        if s.get_char(i) != open.get_char(i) {
            assert(s@.take(a as int)[i as int] != open@[i as int]);
            return false;
        }
        i = i + 1;
    }
    let mut j: usize = 0;
    while j < b
        invariant
            0 <= j <= b,
            a == open@.len(),
            b == close@.len(),
            n == s@.len(),
            a + b <= n,
            forall|k: int| 0 <= k < a ==> s@[k] == open@[k],
            forall|k: int| 0 <= k < j ==> s@[n - b + k] == close@[k],
        decreases b - j,
    {
        if s.get_char(n - b + j) != close.get_char(j) {
            assert(s@.skip(n - b)[j as int] != close@[j as int]);
            return false;
        }
        j = j + 1;
    }
    assert(s@.take(a as int) =~= open@);
    assert(s@.skip(n - b) =~= close@);
    true
}

/// Reads a saved cell line such as `B3 Int(7)`, `A1 Text("x")` or
/// `C2 =A1+1`: its address, and the kind and text of its value, which
/// `value_from_saved` turns into the value.
pub fn parse_line(line: &String) -> (r: Result<(CellLoc, ValueKind, String), LineError>)
    ensures
        match r {
            Ok((l, k, t)) => line_of(line@) == Ok::<(LocModel, ValueKind, Seq<char>), LineError>(
                (l@, k, t@),
            ) && valid_loc(l@),
            Err(e) => line_of(line@) == Err::<(LocModel, ValueKind, Seq<char>), LineError>(e),
        },
{
    let s = line.as_str();
    let ghost t = line@;
    let n = s.unicode_len();
    let mut p: usize = 0;
    while p < n && s.get_char(p) != ' '
        invariant
            s@ == t,
            t == line@,
            n == t.len(),
            0 <= p <= n,
            forall|i: int| 0 <= i < p ==> t[i] != ' ',
        decreases n - p,
    {
        p = p + 1;
    }
    if p == n {
        proof {
            if exists|q: int| first_space(t, q) {
                let q = choose|q: int| first_space(t, q);
                assert(t[q] != ' ');
            }
        }
        return Err(LineError::NoValue);
    }
    proof {
        assert(first_space(t, p as int));
        let q = choose|q: int| first_space(t, q);
        if q < p {
            assert(t[q] != ' ');
        } else if q > p {
            assert(t[p as int] != ' ');
        }
    }
    let loc_text = s.substring_char(0, p).to_owned();
    let loc = match parse_loc(&loc_text) {
        Ok(l) => l,
        Err(_) => {
            return Err(LineError::Address);
        },
    };
    let v = s.substring_char(p + 1, n);
    let ghost vt = t.skip(p + 1);
    assert(v@ =~= vt);
    let m = v.unicode_len();
    proof {
        reveal_strlit("Int(");
        reveal_strlit("Real(");
        reveal_strlit("Text(\"");
        reveal_strlit(")");
        reveal_strlit("\")");
        assert("Int("@ =~= int_open());
        assert("Real("@ =~= real_open());
        assert("Text(\""@ =~= text_open());
        assert(")"@ =~= paren_close());
        assert("\")"@ =~= text_close());
    }
    if m > 0 && v.get_char(0) == '=' {
        Ok((loc, ValueKind::Formula, v.to_owned()))
    } else if is_wrapped(v, "Int(", ")") {
        Ok((loc, ValueKind::Int, v.substring_char(4, m - 1).to_owned()))
    } else if is_wrapped(v, "Real(", ")") {
        Ok((loc, ValueKind::Real, v.substring_char(5, m - 1).to_owned()))
    } else if is_wrapped(v, "Text(\"", "\")") {
        Ok((loc, ValueKind::Text, v.substring_char(6, m - 2).to_owned()))
    } else {
        Err(LineError::Value)
    }
}

/// The value of a saved value of kind `kind` and text `text`, as
/// `saved_val` gives it. Floating-point reading stays with the caller, who
/// passes in `as_double` the bit pattern of the double that `text` reads as,
/// if any.
pub fn value_from_saved(kind: ValueKind, text: &String, as_double: Option<u64>) -> (r: Option<CellVal>)
    ensures
        opt_val_model(r) == saved_val(kind, text@, as_double),
{
    match kind {
        ValueKind::Int => match parse_int(text) {
            Some(v) => Some(CellVal::Int(v)),
            None => None,
        },
        ValueKind::Real => match as_double {
            Some(b) => Some(CellVal::Real(b)),
            None => None,
        },
        ValueKind::Text => Some(CellVal::Text(text.clone())),
        ValueKind::Formula => Some(CellVal::Formula(text.clone())),
    }
}

/// A line written as an address, a space and a value reads back as that
/// address and the kind and text that the value's form gives.
pub proof fn law_saved_line(a: Seq<char>, v: Seq<char>)
    requires
        loc_of(a) is Some,
    ensures
        line_of(a + seq![' '] + v) == match saved_form(v) {
            Some((k, t)) => Ok::<(LocModel, ValueKind, Seq<char>), LineError>(
                (loc_of(a)->Some_0, k, t),
            ),
            None => Err(LineError::Value),
        },
{
    let s = a + seq![' '] + v;
    let k = choose|k: int| splits_at(a, k);
    assert forall|i: int| 0 <= i < a.len() implies a[i] != ' ' by {
        if i < k {
            assert(is_letter(a[i]));
        } else {
            assert(is_digit(a[i]));
        }
    }
    let p = a.len() as int;
    assert(first_space(s, p));
    let q = choose|q: int| first_space(s, q);
    if q < p {
        assert(s[q] == a[q]);
    } else if q > p {
        assert(s[p] == ' ');
    }
    assert(s.take(p) =~= a);
    assert(s.skip(p + 1) =~= v);
}

/// Each saved form reads back as its own kind and the text it wraps: a
/// text value is never read as a number, and a formula keeps its text.
pub proof fn law_saved_forms(t: Seq<char>)
    ensures
        saved_form(text_open() + t + text_close()) == Some((ValueKind::Text, t)),
        saved_form(int_open() + t + paren_close()) == Some((ValueKind::Int, t)),
        saved_form(real_open() + t + paren_close()) == Some((ValueKind::Real, t)),
        t.len() > 0 && t[0] == '=' ==> saved_form(t) == Some((ValueKind::Formula, t)),
        saved_val(ValueKind::Text, t, None) == Some(ValModel::Text(t)),
{
    let x = text_open() + t + text_close();
    assert(x.take(6) =~= text_open());
    assert(x.skip(x.len() - 2) =~= text_close());
    assert(inner(x, text_open(), text_close()) =~= t);
    assert(x[0] == 'T');
    assert(!wrapped(x, int_open(), paren_close())) by {
        assert(x.take(4)[0] != int_open()[0]);
    }
    assert(!wrapped(x, real_open(), paren_close())) by {
        assert(x.take(5)[0] != real_open()[0]);
    }
    let y = int_open() + t + paren_close();
    assert(y.take(4) =~= int_open());
    assert(y.skip(y.len() - 1) =~= paren_close());
    assert(inner(y, int_open(), paren_close()) =~= t);
    assert(y[0] == 'I');
    let z = real_open() + t + paren_close();
    assert(z.take(5) =~= real_open());
    assert(z.skip(z.len() - 1) =~= paren_close());
    assert(inner(z, real_open(), paren_close()) =~= t);
    assert(z[0] == 'R');
    assert(!wrapped(z, int_open(), paren_close())) by {
        assert(z.take(4)[0] != int_open()[0]);
    }
}

/// Where the digits from `k` up to `i` already number more than `usize`
/// holds, the text names no address.
proof fn lemma_row_overflow(t: Seq<char>, k: int, i: int)
    requires
        0 < k < i <= t.len(),
        forall|j: int| 0 <= j < k ==> is_letter(#[trigger] t[j]),
        !is_letter(t[k]),
        forall|j: int| k <= j < i ==> is_digit(#[trigger] t[j]),
        digits_value(t.subrange(k, i)) > usize::MAX,
    ensures
        loc_of(t) is None,
{
    if exists|j: int| splits_at(t, j) {
        let j = choose|j: int| splits_at(t, j);
        if j < k {
            assert(is_digit(t[j]) && is_letter(t[j]));
        } else if j > k {
            assert(is_letter(t[k]));
        }
        let rest = t.skip(k);
        assert(all_digits(rest));
        assert(rest.take(i - k) =~= t.subrange(k, i));
        lemma_digits_grow(rest, i - k);
    }
}

} // verus!
