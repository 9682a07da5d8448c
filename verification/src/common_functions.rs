//! Cell coordinates and their textual names (`A1`, `AA12`).
//!
//! A name is a run of upper-case letters followed by a run of decimal digits.
//! The letters are a base-26 numeral without a zero digit (`A` = 1 .. `Z` = 26)
//! for the column plus one; the digits are the row plus one.

use crate::common_types::Index;
use crate::text::{chars_of, digit, digit_value, is_digit, is_upper, letter, push_char, upper};
use vstd::prelude::*;

verus! {

/// The value of a run of letters read as a bijective base-26 numeral.
pub open spec fn letters_value(s: Seq<char>) -> nat
    decreases s.len(),
{
    if s.len() == 0 {
        0
    } else {
        (letters_value(s.drop_last()) * 26 + (s.last() as int - 'A' as int + 1)) as nat
    }
}

/// The value of a run of digits read as a decimal numeral.
pub open spec fn digits_value(s: Seq<char>) -> nat
    decreases s.len(),
{
    if s.len() == 0 {
        0
    } else {
        (digits_value(s.drop_last()) * 10 + (s.last() as int - '0' as int)) as nat
    }
}

/// Whether every character is an upper-case letter.
pub open spec fn all_upper(s: Seq<char>) -> bool {
    forall|i: int| 0 <= i < s.len() ==> is_upper(#[trigger] s[i])
}

/// Whether every character is a digit.
pub open spec fn all_digits(s: Seq<char>) -> bool {
    forall|i: int| 0 <= i < s.len() ==> is_digit(#[trigger] s[i])
}

/// The length of the run of upper-case letters that `s` starts with.
pub open spec fn letters_len(s: Seq<char>) -> nat
    decreases s.len(),
{
    if s.len() > 0 && is_upper(s[0]) {
        1 + letters_len(s.drop_first())
    } else {
        0
    }
}

/// The coordinate that a name denotes, if it is a name of a coordinate that
/// fits the machine.
pub open spec fn cell_index(name: Seq<char>) -> Option<Index> {
    let k = letters_len(name) as int;
    let letters = name.subrange(0, k);
    let digits = name.subrange(k, name.len() as int);
    if k == 0 || digits.len() == 0 || !all_digits(digits) {
        None
    } else if letters_value(letters) > usize::MAX || digits_value(digits) > usize::MAX
        || digits_value(digits) == 0 {
        None
    } else {
        Some(
            Index {
                x: (letters_value(letters) - 1) as usize,
                y: (digits_value(digits) - 1) as usize,
            },
        )
    }
}

/// The letters that name a column.
pub open spec fn column_letters(x: nat) -> Seq<char>
    decreases x,
{
    if x < 26 {
        seq![('A' as int + x) as char]
    } else {
        column_letters((x / 26 - 1) as nat).push(('A' as int + x % 26) as char)
    }
}

/// The decimal numeral of a number.
pub open spec fn decimal_digits(n: nat) -> Seq<char>
    decreases n,
{
    if n < 10 {
        seq![('0' as int + n) as char]
    } else {
        decimal_digits(n / 10).push(('0' as int + n % 10) as char)
    }
}

/// The name of a coordinate.
pub open spec fn index_name(i: Index) -> Seq<char> {
    column_letters(i.x as nat) + decimal_digits((i.y + 1) as nat)
}

/// The run of letters at the start of `s` ends at `k` when the first `k`
/// characters are letters and the next one, if any, is not.
proof fn lemma_letters_len_is(s: Seq<char>, k: int)
    requires
        0 <= k <= s.len(),
        forall|i: int| 0 <= i < k ==> is_upper(#[trigger] s[i]),
        k < s.len() ==> !is_upper(s[k]),
    ensures
        letters_len(s) == k,
    decreases s.len(),
{
    if k > 0 {
        let t = s.drop_first();
        assert(is_upper(s[0]));
        assert forall|i: int| 0 <= i < k - 1 implies is_upper(#[trigger] t[i]) by {
            assert(t[i] == s[i + 1]);
        }
        if k - 1 < t.len() {
            assert(t[k - 1] == s[k]);
        }
        lemma_letters_len_is(t, k - 1);
    }
}

/// Reads a cell name such as `B12` as a coordinate.
///
/// Returns `None` for anything that is not one or more upper-case letters
/// followed by one or more digits, for row zero, and for a column or row
/// beyond the machine's range.
pub fn get_cell_idx(cell_name: &str) -> (r: Option<Index>)
    ensures
        r == cell_index(cell_name@),
{
    let chars = chars_of(cell_name);
    let n = chars.len();
    let ghost s = cell_name@;
    let mut x: usize = 0;
    let mut i: usize = 0;
    let mut overflow = false;
    while i < n && upper(chars[i])
        invariant
            n == s.len(),
            s == chars@,
            i <= n,
            forall|j: int| 0 <= j < i ==> is_upper(#[trigger] s[j]),
            !overflow ==> x == letters_value(s.subrange(0, i as int)),
            overflow ==> letters_value(s.subrange(0, i as int)) > usize::MAX,
        decreases n - i,
    {
        let c = chars[i];
        let d: usize = (c as u32 - 'A' as u32) as usize + 1;
        let ghost before = s.subrange(0, i as int);
        let ghost after = s.subrange(0, i as int + 1);
        proof {
            assert(after.drop_last() == before);
            assert(after.last() == c);
            assert(letters_value(after) == letters_value(before) * 26 + d);
        }
        if overflow || x > (usize::MAX - d) / 26 {
            proof {
                assert(letters_value(before) * 26 + d > usize::MAX) by (nonlinear_arith)
                    requires
                        overflow ==> letters_value(before) > usize::MAX,
                        !overflow ==> letters_value(before) == x && x > (usize::MAX - d) / 26,
                        1 <= d <= 26,
                ;
            }
            overflow = true;
        } else {
            assert(x * 26 + d <= usize::MAX) by (nonlinear_arith)
                requires
                    x <= (usize::MAX - d) / 26,
                    d <= usize::MAX,
            ;
            x = x * 26 + d;
        }
        i = i + 1;
    }
    let k = i;
    proof {
        lemma_letters_len_is(s, k as int);
    }
    let ghost letters = s.subrange(0, k as int);
    let ghost digits = s.subrange(k as int, n as int);
    if k == 0 || k == n {
        return None;
    }
    let mut y: usize = 0;
    let mut y_overflow = false;
    while i < n
        invariant
            n == s.len(),
            s == chars@,
            s == cell_name@,
            0 < k <= i <= n,
            k < n,
            letters_len(s) == k,
            digits == s.subrange(k as int, n as int),
            forall|j: int| k <= j < i ==> is_digit(#[trigger] s[j]),
            !y_overflow ==> y == digits_value(s.subrange(k as int, i as int)),
            y_overflow ==> digits_value(s.subrange(k as int, i as int)) > usize::MAX,
        decreases n - i,
    {
        let c = chars[i];
        if !digit(c) {
            proof {
                assert(digits[i - k] == c);
            }
            return None;
        }
        let d: usize = digit_value(c) as usize;
        let ghost before = s.subrange(k as int, i as int);
        let ghost after = s.subrange(k as int, i as int + 1);
        proof {
            assert(after.drop_last() == before);
            assert(after.last() == c);
            assert(digits_value(after) == digits_value(before) * 10 + d);
        }
        if y_overflow || y > (usize::MAX - d) / 10 {
            proof {
                assert(digits_value(before) * 10 + d > usize::MAX) by (nonlinear_arith)
                    requires
                        y_overflow ==> digits_value(before) > usize::MAX,
                        !y_overflow ==> digits_value(before) == y && y > (usize::MAX - d) / 10,
                        0 <= d <= 9,
                ;
            }
            y_overflow = true;
        } else {
            assert(y * 10 + d <= usize::MAX) by (nonlinear_arith)
                requires
                    y <= (usize::MAX - d) / 10,
                    d <= usize::MAX,
            ;
            y = y * 10 + d;
        }
        i = i + 1;
    }
    proof {
        assert(s.subrange(k as int, i as int) == digits);
        assert forall|j: int| 0 <= j < digits.len() implies is_digit(#[trigger] digits[j]) by {
            assert(digits[j] == s[k + j]);
        }
    }
    if overflow || y_overflow || y == 0 {
        return None;
    }
    Some(Index { x: x - 1, y: y - 1 })
}

/// Appends the letters of column `idx` to `out`.
fn push_column_letters(idx: usize, out: &mut String)
    ensures
        final(out)@ == old(out)@ + column_letters(idx as nat),
    decreases idx,
{
    if idx >= 26 {
        push_column_letters(idx / 26 - 1, out);
    }
    push_char(out, letter((idx % 26) as u8));
    proof {
        let c = ('A' as int + idx % 26) as char;
        if idx >= 26 {
            assert(old(out)@ + column_letters(idx as nat) == (old(out)@ + column_letters(
                (idx / 26 - 1) as nat,
            )).push(c));
        } else {
            assert(old(out)@ + column_letters(idx as nat) == old(out)@.push(c));
        }
    }
}

/// The letters that name column `idx`: `A` for 0, `Z` for 25, `AA` for 26.
pub fn column_idx_to_string(idx: usize) -> (s: String)
    ensures
        s@ == column_letters(idx as nat),
{
    let mut s = String::new();
    push_column_letters(idx, &mut s);
    assert(Seq::<char>::empty() + column_letters(idx as nat) == column_letters(idx as nat));
    s
}

/// Appends the decimal numeral of `n` to `out`.
fn push_decimal(n: u128, out: &mut String)
    ensures
        final(out)@ == old(out)@ + decimal_digits(n as nat),
    decreases n,
{
    if n >= 10 {
        push_decimal(n / 10, out);
    }
    let d: u8 = (n % 10) as u8;
    let c = (48u8 + d) as char;
    push_char(out, c);
    proof {
        if n >= 10 {
            assert(old(out)@ + decimal_digits(n as nat) == (old(out)@ + decimal_digits(
                (n / 10) as nat,
            )).push(c));
        } else {
            assert(old(out)@ + decimal_digits(n as nat) == old(out)@.push(c));
        }
    }
}

/// The name of a coordinate: its column letters, then its row counted from 1.
pub fn index_to_string(index: Index) -> (s: String)
    ensures
        s@ == index_name(index),
{
    let mut s = String::new();
    push_column_letters(index.x, &mut s);
    assert(s@ == column_letters(index.x as nat));
    push_decimal(index.y as u128 + 1, &mut s);
    s
}

/// Reads a name as a coordinate; the inverse of [`index_to_string`].
pub fn string_to_index(name: &str) -> (r: Option<Index>)
    ensures
        r == cell_index(name@),
{
    get_cell_idx(name)
}

/// The letters of a column are letters, and their value is the column plus one.
proof fn lemma_column_letters(x: nat)
    ensures
        column_letters(x).len() >= 1,
        all_upper(column_letters(x)),
        letters_value(column_letters(x)) == x + 1,
    decreases x,
{
    let c = ('A' as int + x % 26) as char;
    if x < 26 {
        let s = column_letters(x);
        assert(s.drop_last() == Seq::<char>::empty());
        assert(letters_value(s.drop_last()) == 0);
    } else {
        let p = column_letters((x / 26 - 1) as nat);
        lemma_column_letters((x / 26 - 1) as nat);
        let s = p.push(c);
        assert(s.drop_last() == p);
        assert(s.last() == c);
        assert forall|i: int| 0 <= i < s.len() implies is_upper(#[trigger] s[i]) by {
            if i < p.len() {
                assert(s[i] == p[i]);
            }
        }
    }
}

/// The numeral of a number is made of digits, and its value is the number.
proof fn lemma_decimal_digits(n: nat)
    ensures
        decimal_digits(n).len() >= 1,
        all_digits(decimal_digits(n)),
        digits_value(decimal_digits(n)) == n,
    decreases n,
{
    let c = ('0' as int + n % 10) as char;
    if n < 10 {
        let s = decimal_digits(n);
        assert(s.drop_last() == Seq::<char>::empty());
        assert(digits_value(s.drop_last()) == 0);
    } else {
        let p = decimal_digits(n / 10);
        lemma_decimal_digits(n / 10);
        let s = p.push(c);
        assert(s.drop_last() == p);
        assert(s.last() == c);
        assert forall|i: int| 0 <= i < s.len() implies is_digit(#[trigger] s[i]) by {
            if i < p.len() {
                assert(s[i] == p[i]);
            }
        }
    }
}

/// Naming a coordinate and reading the name back gives the coordinate:
/// `string_to_index(index_to_string(i)) == Some(i)` for every coordinate whose
/// column and row numbers, counted from 1, fit the machine.
pub proof fn lemma_name_round_trip(i: Index)
    requires
        i.x < usize::MAX,
        i.y < usize::MAX,
    ensures
        cell_index(index_name(i)) == Some(i),
{
    let letters = column_letters(i.x as nat);
    let digits = decimal_digits((i.y + 1) as nat);
    let name = index_name(i);
    lemma_column_letters(i.x as nat);
    lemma_decimal_digits((i.y + 1) as nat);
    let k = letters.len() as int;
    assert forall|j: int| 0 <= j < k implies is_upper(#[trigger] name[j]) by {
        assert(name[j] == letters[j]);
    }
    assert(name[k] == digits[0]);
    assert(is_digit(digits[0]));
    lemma_letters_len_is(name, k);
    assert(name.subrange(0, k) == letters);
    assert(name.subrange(k, name.len() as int) == digits);
}

} // verus!
