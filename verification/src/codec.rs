//! The canonical, collision-free textual name of a placement variable.
//!
//! The proposition "cell (row, col) holds value v" is carried to the
//! satisfiability oracle under the name `v_<row>_<col>_<value>`, the three
//! numbers in canonical decimal (no leading zeros, at most three digits since
//! every coordinate and value fits in a byte). [`encode_name`] serialises a
//! triple, [`decode_name`] parses a name back, and
//! [`lemma_name_round_trip`] states that decoding inverts encoding, so two
//! different triples never alias the same variable.

use vstd::prelude::*;

verus! {

/// The decimal digit character for `d` in `[0, 9]`.
pub open spec fn digit_char(d: int) -> char {
    if d == 0 {
        '0'
    } else if d == 1 {
        '1'
    } else if d == 2 {
        '2'
    } else if d == 3 {
        '3'
    } else if d == 4 {
        '4'
    } else if d == 5 {
        '5'
    } else if d == 6 {
        '6'
    } else if d == 7 {
        '7'
    } else if d == 8 {
        '8'
    } else {
        '9'
    }
}

/// Numeric value of a decimal digit character; `-1` for any other character.
pub open spec fn digit_val(c: char) -> int {
    if c == '0' {
        0
    } else if c == '1' {
        1
    } else if c == '2' {
        2
    } else if c == '3' {
        3
    } else if c == '4' {
        4
    } else if c == '5' {
        5
    } else if c == '6' {
        6
    } else if c == '7' {
        7
    } else if c == '8' {
        8
    } else if c == '9' {
        9
    } else {
        -1
    }
}

pub open spec fn is_digit(c: char) -> bool {
    digit_val(c) >= 0
}

/// Canonical decimal form of `n`, most significant digit first.
pub open spec fn dec_digits(n: int) -> Seq<char>
    decreases n,
{
    if n < 10 {
        seq![digit_char(n)]
    } else {
        dec_digits(n / 10).push(digit_char(n % 10))
    }
}

/// Value of a sequence of decimal digit characters, most significant first.
pub open spec fn num_val(s: Seq<char>) -> int
    decreases s.len(),
{
    if s.len() == 0 {
        0
    } else {
        num_val(s.drop_last()) * 10 + digit_val(s.last())
    }
}

/// Index of the first non-digit character of `s` at or after `i` (or
/// `s.len()` if digits run to the end).
pub open spec fn digit_run_end(s: Seq<char>, i: int) -> int
    decreases s.len() - i,
{
    if i < 0 || i >= s.len() || !is_digit(s[i]) {
        i
    } else {
        digit_run_end(s, i + 1)
    }
}

/// Whether the digit run starting at `i` is a canonical decimal below 256:
/// one to three digits, no leading zero.
pub open spec fn group_ok(s: Seq<char>, i: int) -> bool {
    let e = digit_run_end(s, i);
    &&& 1 <= e - i <= 3
    &&& (e - i > 1 ==> s[i] != '0')
    &&& num_val(s.subrange(i, e)) <= 255
}

/// Value of the digit run starting at `i`.
pub open spec fn group_val(s: Seq<char>, i: int) -> int {
    num_val(s.subrange(i, digit_run_end(s, i)))
}

/// The canonical name of the placement variable for `(row, col, value)`.
pub open spec fn name_spec(row: int, col: int, value: int) -> Seq<char> {
    seq!['v', '_'] + dec_digits(row) + seq!['_'] + dec_digits(col) + seq!['_'] + dec_digits(value)
}

/// The triple a well-formed variable name denotes, if any: `v_` followed by
/// three canonical decimal groups separated by `_`, nothing after the last.
pub open spec fn parse_name_spec(s: Seq<char>) -> Option<(u8, u8, u8)> {
    if s.len() >= 2 && s[0] == 'v' && s[1] == '_' && group_ok(s, 2) {
        let e1 = digit_run_end(s, 2);
        if e1 < s.len() && s[e1] == '_' && group_ok(s, e1 + 1) {
            let e2 = digit_run_end(s, e1 + 1);
            if e2 < s.len() && s[e2] == '_' && group_ok(s, e2 + 1) && digit_run_end(s, e2 + 1)
                == s.len() {
                Some(
                    (
                        group_val(s, 2) as u8,
                        group_val(s, e1 + 1) as u8,
                        group_val(s, e2 + 1) as u8,
                    ),
                )
            } else {
                None
            }
        } else {
            None
        }
    } else {
        None
    }
}

/// The decimal digit characters as string slices.
fn digit_str(d: u8) -> (r: &'static str)
    requires
        d < 10,
    ensures
        r@ =~= seq![digit_char(d as int)],
{
    proof {
        reveal_strlit("0");
        reveal_strlit("1");
        reveal_strlit("2");
        reveal_strlit("3");
        reveal_strlit("4");
        reveal_strlit("5");
        reveal_strlit("6");
        reveal_strlit("7");
        reveal_strlit("8");
        reveal_strlit("9");
    }
    match d {
        0 => "0",
        1 => "1",
        2 => "2",
        3 => "3",
        4 => "4",
        5 => "5",
        6 => "6",
        7 => "7",
        8 => "8",
        _ => "9",
    }
}

/// Appends the canonical decimal form of `n` to `s`.
pub fn push_decimal(s: &mut String, n: u8)
    ensures
        final(s)@ == old(s)@ + dec_digits(n as int),
{
    if n >= 100 {
        s.append(digit_str(n / 100));
    }
    if n >= 10 {
        s.append(digit_str((n / 10) % 10));
    }
    s.append(digit_str(n % 10));
    proof {
        let ni = n as int;
        vstd::arithmetic::div_mod::lemma_fundamental_div_mod(ni, 10);
        if ni < 10 {
            vstd::arithmetic::div_mod::lemma_small_mod(ni as nat, 10);
            assert(final(s)@ =~= old(s)@ + dec_digits(ni));
        } else if ni < 100 {
            assert(ni / 10 < 10) by (nonlinear_arith)
                requires
                    10 <= ni < 100,
            ;
            vstd::arithmetic::div_mod::lemma_small_mod((ni / 10) as nat, 10);
            assert(dec_digits(ni) == dec_digits(ni / 10).push(digit_char(ni % 10)));
            assert(dec_digits(ni / 10) == seq![digit_char(ni / 10)]);
            assert(final(s)@ =~= old(s)@ + dec_digits(ni));
        } else {
            vstd::arithmetic::div_mod::lemma_div_denominator(ni, 10, 10);
            assert(10 <= ni / 10 < 26 && ni / 100 < 10) by (nonlinear_arith)
                requires
                    100 <= ni < 256,
            ;
            vstd::arithmetic::div_mod::lemma_fundamental_div_mod(ni / 10, 10);
            assert(dec_digits(ni) == dec_digits(ni / 10).push(digit_char(ni % 10)));
            assert(dec_digits(ni / 10) == dec_digits(ni / 100).push(digit_char((ni / 10) % 10)));
            assert(dec_digits(ni / 100) == seq![digit_char(ni / 100)]);
            assert(final(s)@ =~= old(s)@ + dec_digits(ni));
        }
    }
}

/// Serialises a placement triple to its canonical variable name.
pub fn encode_name(row: u8, col: u8, value: u8) -> (r: String)
    ensures
        r@ == name_spec(row as int, col as int, value as int),
{
    let mut s = String::new();
    s.append("v_");
    push_decimal(&mut s, row);
    s.append("_");
    push_decimal(&mut s, col);
    s.append("_");
    push_decimal(&mut s, value);
    proof {
        reveal_strlit("v_");
        reveal_strlit("_");
        assert(s@ =~= name_spec(row as int, col as int, value as int));
    }
    s
}

/// Exec test for a decimal digit character.
pub(crate) fn digit_of(c: char) -> (r: Option<u8>)
    ensures
        match r {
            Some(d) => digit_val(c) == d as int && d < 10,
            None => digit_val(c) == -1,
        },
{
    match c {
        '0' => Some(0),
        '1' => Some(1),
        '2' => Some(2),
        '3' => Some(3),
        '4' => Some(4),
        '5' => Some(5),
        '6' => Some(6),
        '7' => Some(7),
        '8' => Some(8),
        '9' => Some(9),
        _ => None,
    }
}

/// Parses the digit run starting at `start`: its value (if it is a canonical
/// decimal below 256) and its end index.
fn parse_group(s: &str, start: usize) -> (r: Option<(u8, usize)>)
    requires
        start <= s@.len(),
    ensures
        match r {
            Some(p) => {
                &&& group_ok(s@, start as int)
                &&& p.1 == digit_run_end(s@, start as int)
                &&& p.0 as int == group_val(s@, start as int)
                &&& start < p.1 <= s@.len()
            },
            None => !group_ok(s@, start as int),
        },
{
    let len = s.unicode_len();
    let mut j = start;
    while j < len && digit_of(s.get_char(j)).is_some()
        invariant
            start <= j <= len,
            len == s@.len(),
            forall|k: int| start <= k < j ==> is_digit(s@[k]),
            digit_run_end(s@, start as int) == digit_run_end(s@, j as int),
        decreases len - j,
    {
        j += 1;
    }
    proof {
        assert(digit_run_end(s@, j as int) == j);
    }
    let glen = j - start;
    if glen == 0 || glen > 3 {
        return None;
    }
    if glen > 1 && s.get_char(start) == '0' {
        return None;
    }
    let mut v: u16 = 0;
    let mut k = start;
    while k < j
        invariant
            start <= k <= j <= s@.len(),
            j - start <= 3,
            forall|kk: int| start <= kk < j ==> is_digit(s@[kk]),
            v as int == num_val(s@.subrange(start as int, k as int)),
            v < 1000,
            k - start < 3 ==> v < 100,
            k - start < 2 ==> v < 10,
        decreases j - k,
    {
        let d = match digit_of(s.get_char(k)) {
            Some(d) => d,
            None => {
                proof {
                    assert(false);
                }
                0
            },
        };
        v = v * 10 + d as u16;
        proof {
            assert(s@.subrange(start as int, k + 1).drop_last() =~= s@.subrange(
                start as int, k as int));
        }
        k += 1;
    }
    if v > 255 {
        return None;
    }
    Some((v as u8, j))
}

/// Parses a variable name back into its `(row, col, value)` triple.
pub fn decode_name(s: &str) -> (r: Option<(u8, u8, u8)>)
    ensures
        r == parse_name_spec(s@),
{
    let len = s.unicode_len();
    if len < 2 {
        return None;
    }
    if s.get_char(0) != 'v' || s.get_char(1) != '_' {
        return None;
    }
    let (a, e1) = match parse_group(s, 2) {
        Some(p) => p,
        None => {
            return None;
        },
    };
    if e1 >= len {
        return None;
    }
    if s.get_char(e1) != '_' {
        return None;
    }
    let (b, e2) = match parse_group(s, e1 + 1) {
        Some(p) => p,
        None => {
            return None;
        },
    };
    if e2 >= len {
        return None;
    }
    if s.get_char(e2) != '_' {
        return None;
    }
    let (c, e3) = match parse_group(s, e2 + 1) {
        Some(p) => p,
        None => {
            return None;
        },
    };
    if e3 != len {
        return None;
    }
    Some((a, b, c))
}

/// Every character of a canonical decimal is a digit, there is at least one,
/// and the first is not `'0'` unless the number itself is zero-or-one digit.
pub proof fn lemma_dec_digits_shape(n: int)
    requires
        0 <= n,
    ensures
        dec_digits(n).len() >= 1,
        forall|i: int| 0 <= i < dec_digits(n).len() ==> is_digit(#[trigger] dec_digits(n)[i]),
        dec_digits(n).len() > 1 ==> dec_digits(n)[0] != '0',
        n <= 255 ==> dec_digits(n).len() <= 3,
    decreases n,
{
    if n < 10 {
        assert(dec_digits(n) == seq![digit_char(n)]);
    } else {
        lemma_dec_digits_shape(n / 10);
        assert(n / 10 >= 1 && n / 10 < n) by (nonlinear_arith)
            requires
                n >= 10,
        ;
        assert(dec_digits(n) == dec_digits(n / 10).push(digit_char(n % 10)));
        vstd::arithmetic::div_mod::lemma_fundamental_div_mod(n, 10);
        assert(0 <= n % 10 < 10) by (nonlinear_arith)
            requires
                n >= 0,
        ;
        assert(is_digit(digit_char(n % 10)));
        assert(dec_digits(n)[0] == dec_digits(n / 10)[0]);
        if n / 10 < 10 {
            assert(dec_digits(n / 10) == seq![digit_char(n / 10)]);
            assert(digit_char(n / 10) != '0');
        } else {
            assert(dec_digits(n / 10) == dec_digits((n / 10) / 10).push(
                digit_char((n / 10) % 10)));
            assert(dec_digits((n / 10) / 10).len() >= 1);
            assert(dec_digits(n / 10).len() >= 2);
        }
        if n <= 255 {
            assert(n / 10 <= 25 && (n / 10) / 10 < 10) by (nonlinear_arith)
                requires
                    10 <= n <= 255,
            ;
            if n / 10 >= 10 {
                assert(dec_digits((n / 10) / 10) == seq![digit_char((n / 10) / 10)]);
                assert(dec_digits(n / 10).len() == 2);
            } else {
                assert(dec_digits(n / 10).len() == 1);
            }
        }
    }
}

/// Parsing the canonical decimal form of `n` gives back `n`.
pub proof fn lemma_num_val_dec_digits(n: int)
    requires
        0 <= n,
    ensures
        num_val(dec_digits(n)) == n,
    decreases n,
{
    if n < 10 {
        assert(dec_digits(n) == seq![digit_char(n)]);
        assert(dec_digits(n).drop_last() =~= Seq::<char>::empty());
        assert(num_val(Seq::<char>::empty()) == 0);
        assert(digit_val(digit_char(n)) == n);
        assert(num_val(dec_digits(n)) == num_val(dec_digits(n).drop_last()) * 10 + digit_val(
            dec_digits(n).last()));
    } else {
        lemma_num_val_dec_digits(n / 10);
        assert(n / 10 < n && n / 10 >= 0) by (nonlinear_arith)
            requires
                n >= 10,
        ;
        assert(dec_digits(n) == dec_digits(n / 10).push(digit_char(n % 10)));
        assert(dec_digits(n).drop_last() =~= dec_digits(n / 10));
        assert(dec_digits(n).last() == digit_char(n % 10));
        assert(num_val(dec_digits(n)) == num_val(dec_digits(n).drop_last()) * 10 + digit_val(
            dec_digits(n).last()));
        assert(num_val(dec_digits(n).drop_last()) == num_val(dec_digits(n / 10)));
        vstd::arithmetic::div_mod::lemma_fundamental_div_mod(n, 10);
        assert(0 <= n % 10 < 10) by (nonlinear_arith)
            requires
                n >= 0,
        ;
        assert(digit_val(digit_char(n % 10)) == n % 10);
    }
}

/// A run of digits bounded by a non-digit (or the end) is one digit run.
pub proof fn lemma_run_end_segment(s: Seq<char>, i: int, j: int)
    requires
        0 <= i <= j <= s.len(),
        forall|k: int| i <= k < j ==> is_digit(#[trigger] s[k]),
        j == s.len() || !is_digit(s[j]),
    ensures
        digit_run_end(s, i) == j,
    decreases j - i,
{
    if i < j {
        lemma_run_end_segment(s, i + 1, j);
    }
}

/// Decoding inverts encoding: the name of `(row, col, value)` parses back to
/// exactly that triple, so the naming scheme is a bijection on triples.
pub proof fn lemma_name_round_trip(row: u8, col: u8, value: u8)
    ensures
        parse_name_spec(name_spec(row as int, col as int, value as int)) == Some(
            (row, col, value)),
{
    let a = dec_digits(row as int);
    let b = dec_digits(col as int);
    let c = dec_digits(value as int);
    let s = name_spec(row as int, col as int, value as int);
    lemma_dec_digits_shape(row as int);
    lemma_dec_digits_shape(col as int);
    lemma_dec_digits_shape(value as int);
    lemma_num_val_dec_digits(row as int);
    lemma_num_val_dec_digits(col as int);
    lemma_num_val_dec_digits(value as int);
    let la = a.len() as int;
    let lb = b.len() as int;
    let lc = c.len() as int;
    assert(s.len() == 4 + la + lb + lc);
    assert(s[0] == 'v' && s[1] == '_');
    assert(forall|k: int| 2 <= k < 2 + la ==> #[trigger] s[k] == a[k - 2]);
    assert(s[2 + la] == '_');
    assert(forall|k: int| 3 + la <= k < 3 + la + lb ==> #[trigger] s[k] == b[k - 3 - la]);
    assert(s[3 + la + lb] == '_');
    assert(forall|k: int| 4 + la + lb <= k < 4 + la + lb + lc ==> #[trigger] s[k] == c[
        k - 4 - la - lb]);
    assert(!is_digit('_'));
    lemma_run_end_segment(s, 2, 2 + la);
    lemma_run_end_segment(s, 3 + la, 3 + la + lb);
    lemma_run_end_segment(s, 4 + la + lb, 4 + la + lb + lc);
    assert(s.subrange(2, 2 + la) =~= a);
    assert(s.subrange(3 + la, 3 + la + lb) =~= b);
    assert(s.subrange(4 + la + lb, 4 + la + lb + lc) =~= c);
    assert(group_ok(s, 2) && group_val(s, 2) == row as int);
    assert(group_ok(s, 3 + la) && group_val(s, 3 + la) == col as int);
    assert(group_ok(s, 4 + la + lb) && group_val(s, 4 + la + lb) == value as int);
}

} // verus!
