//! Parsing of Roman numerals (I, V, X, L, C, D, M) into integers.
//!
//! Policy: `roman_number_to_int` is permissive. It refuses only empty text
//! and characters that are not Roman digits, and reads any string of digits
//! by the subtractive-pair scan. The classical grammar (`XIV`, not `XIIII`;
//! no `VV`, no `IC`) is checked on request by `validate_roman_number`.
use vstd::prelude::*;
use crate::strings::chars::{trim, trimmed};

verus! {

/// Why a text could not be read as a Roman numeral.
#[derive(Debug, Clone, Copy, PartialEq, Eq, Structural)]
pub enum RomanError {
    /// The text is empty, or holds only white space.
    EmptyInput,
    /// The text holds this character, which is not a Roman digit.
    InvalidSymbol(char),
}

impl RomanError {
    /// The text of the message that describes this error.
    pub open spec fn message_text(self) -> Seq<char> {
        match self {
            RomanError::EmptyInput => "String shouldn't be empty"@,
            RomanError::InvalidSymbol(c) => "String with the character "@ + seq![c]
                + " is not a roman digit number."@,
        }
    }

    /// A sentence that describes this error.
    pub fn message(&self) -> (r: String)
        ensures
            r@ == self.message_text(),
    {
        match self {
            RomanError::EmptyInput => String::from_str("String shouldn't be empty"),
            RomanError::InvalidSymbol(c) => {
                let mut m = String::from_str("String with the character ");
                m.push(*c);
                m.append(" is not a roman digit number.");
                m
            },
        }
    }
}

pub open spec fn is_roman_symbol(c: char) -> bool {
    c == 'I' || c == 'V' || c == 'X' || c == 'L' || c == 'C' || c == 'D' || c == 'M'
}

/// The value of a Roman digit; zero for any other character.
pub open spec fn symbol_value(c: char) -> int {
    if c == 'I' {
        1
    } else if c == 'V' {
        5
    } else if c == 'X' {
        10
    } else if c == 'L' {
        50
    } else if c == 'C' {
        100
    } else if c == 'D' {
        500
    } else if c == 'M' {
        1000
    } else {
        0
    }
}

/// The value of `t` read left to right: a digit followed by a larger one
/// forms a subtractive pair worth their difference and both are consumed;
/// otherwise a digit counts its own value.
pub open spec fn scan_value(t: Seq<char>) -> int
    decreases t.len(),
{
    if t.len() == 0 {
        0
    } else if t.len() == 1 {
        symbol_value(t[0])
    } else if symbol_value(t[0]) < symbol_value(t[1]) {
        symbol_value(t[1]) - symbol_value(t[0]) + scan_value(t.subrange(2, t.len() as int))
    } else {
        symbol_value(t[0]) + scan_value(t.subrange(1, t.len() as int))
    }
}

/// Every character of `t` is a Roman digit.
pub open spec fn all_roman_symbols(t: Seq<char>) -> bool {
    forall|i: int| 0 <= i < t.len() ==> is_roman_symbol(#[trigger] t[i])
}

/// `i` is the position of the first character of `t` that is not a Roman
/// digit.
pub open spec fn first_invalid_at(t: Seq<char>, i: int) -> bool {
    &&& 0 <= i < t.len()
    &&& !is_roman_symbol(t[i])
    &&& all_roman_symbols(t.take(i))
}

/// What reading `s` yields: `EmptyInput` when nothing but white space is
/// left after trimming, else `InvalidSymbol` with the first character that
/// is not a Roman digit, else the scanned value of the trimmed text.
pub open spec fn roman_outcome(s: Seq<char>, r: Result<i32, RomanError>) -> bool {
    let t = trimmed(s);
    match r {
        Ok(v) => t.len() > 0 && all_roman_symbols(t) && v == scan_value(t),
        Err(RomanError::EmptyInput) => t.len() == 0,
        Err(RomanError::InvalidSymbol(c)) => t.len() > 0 && exists|i: int|
            first_invalid_at(t, i) && t[i] == c,
    }
}

/// The scanned value is never negative.
pub proof fn lemma_scan_value_nonneg(t: Seq<char>)
    ensures
        scan_value(t) >= 0,
    decreases t.len(),
{
    if t.len() >= 2 {
        if symbol_value(t[0]) < symbol_value(t[1]) {
            lemma_scan_value_nonneg(t.subrange(2, t.len() as int));
        } else {
            lemma_scan_value_nonneg(t.subrange(1, t.len() as int));
        }
    }
}

fn symbol_value_of(c: char) -> (r: Option<i32>)
    ensures
        r == (if is_roman_symbol(c) {
            Some(symbol_value(c) as i32)
        } else {
            None::<i32>
        }),
{
    match c {
        'I' => Some(1),
        'V' => Some(5),
        'X' => Some(10),
        'L' => Some(50),
        'C' => Some(100),
        'D' => Some(500),
        'M' => Some(1000),
        _ => None,
    }
}

fn chars_of(s: &str) -> (r: Vec<char>)
    ensures
        r@ == s@,
{
    let mut v: Vec<char> = Vec::new();
    for c in it: s.chars()
        invariant
            it.seq() == s@,
            v@ == s@.take(it.index() as int),
    {
        let ghost i = it.index() as int;
        v.push(c);
        assert(v@ =~= s@.take(i + 1));
    }
    assert(v@ =~= s@);
    v
}

/// Reads a Roman numeral made of I, V, X, L, C, D and M, after trimming
/// leading and trailing white space.
///
/// The digits are scanned left to right: a digit smaller than the one after
/// it forms a subtractive pair with it (`IX` is 9), otherwise it adds its
/// own value. The scan is permissive: it does not hold the text to the
/// classical grammar, so `IIII` reads as 4 and `IC` as 99; see
/// `validate_roman_number` for the strict form.
///
/// The scanned total must fit in an `i32`.
pub fn roman_number_to_int(s: &str) -> (r: Result<i32, RomanError>)
    requires
        scan_value(trimmed(s@)) <= i32::MAX,
    ensures
        roman_outcome(s@, r),
{
    let t = trim(s);
    if t.is_empty() {
        return Err(RomanError::EmptyInput);
    }
    let ghost g = t@;
    let digits = chars_of(t);
    let n = digits.len();
    let mut total: i32 = 0;
    let mut i: usize = 0;
    proof {
        assert(g.subrange(0, n as int) =~= g);
        lemma_scan_value_nonneg(g);
    }
    while i < n
        invariant
            digits@ == g,
            g == trimmed(s@),
            n == g.len(),
            i <= n,
            all_roman_symbols(g.take(i as int)),
            0 <= total,
            total + scan_value(g.subrange(i as int, n as int)) == scan_value(g),
            scan_value(g) <= i32::MAX,
        decreases n - i,
    {
        let rest = Ghost(g.subrange(i as int, n as int));
        let current = match symbol_value_of(digits[i]) {
            Some(v) => v,
            None => {
                assert(first_invalid_at(g, i as int));
                return Err(RomanError::InvalidSymbol(digits[i]));
            },
        };
        if i + 1 < n {
            let next = match symbol_value_of(digits[i + 1]) {
                Some(v) => v,
                None => {
                    assert(g.take(i + 1) =~= g.take(i as int).push(g[i as int]));
                    assert(first_invalid_at(g, i + 1));
                    return Err(RomanError::InvalidSymbol(digits[i + 1]));
                },
            };
            assert(rest@[0] == g[i as int] && rest@[1] == g[i + 1]);
            assert(g.take(i + 2) =~= g.take(i as int).push(g[i as int]).push(g[i + 1]));
            if current < next {
                assert(rest@.subrange(2, rest@.len() as int) =~= g.subrange(i + 2, n as int));
                proof {
                    lemma_scan_value_nonneg(g.subrange(i + 2, n as int));
                }
                total = total + (next - current);
                i = i + 2;
            } else {
                assert(rest@.subrange(1, rest@.len() as int) =~= g.subrange(i + 1, n as int));
                proof {
                    lemma_scan_value_nonneg(g.subrange(i + 1, n as int));
                }
                total = total + current;
                assert(g.take(i + 1) =~= g.take(i as int).push(g[i as int]));
                i = i + 1;
            }
        } else {
            assert(rest@.len() == 1 && rest@[0] == g[i as int]);
            assert(g.take(i + 1) =~= g.take(i as int).push(g[i as int]));
            total = total + current;
            i = i + 1;
            assert(g.subrange(i as int, n as int).len() == 0);
        }
    }
    assert(g.take(n as int) =~= g);
    Ok(total)
}


/// The classical numeral of one decimal digit `d`, written with the
/// symbols for one, five and ten of its place.
pub open spec fn digit_numeral(d: int, one: char, five: char, ten: char) -> Seq<char> {
    if d == 1 {
        seq![one]
    } else if d == 2 {
        seq![one, one]
    } else if d == 3 {
        seq![one, one, one]
    } else if d == 4 {
        seq![one, five]
    } else if d == 5 {
        seq![five]
    } else if d == 6 {
        seq![five, one]
    } else if d == 7 {
        seq![five, one, one]
    } else if d == 8 {
        seq![five, one, one, one]
    } else if d == 9 {
        seq![one, ten]
    } else {
        seq![]
    }
}

/// `k` times the symbol `M`.
pub open spec fn thousands_numeral(k: int) -> Seq<char> {
    Seq::new(k as nat, |i: int| 'M')
}

/// The classical Roman numeral of `n`, for `1 <= n <= 3999`.
pub open spec fn roman_numeral_of(n: int) -> Seq<char> {
    thousands_numeral(n / 1000) + digit_numeral((n / 100) % 10, 'C', 'D', 'M') + digit_numeral(
        (n / 10) % 10,
        'X',
        'L',
        'C',
    ) + digit_numeral(n % 10, 'I', 'V', 'X')
}

/// `t` is the classical Roman numeral of a number from 1 to 3999.
pub open spec fn is_classical_roman(t: Seq<char>) -> bool {
    exists|n: int| 1 <= n <= 3999 && roman_numeral_of(n) == t
}

pub open spec fn values_at_least(t: Seq<char>, m: int) -> bool {
    forall|i: int| 0 <= i < t.len() ==> symbol_value(#[trigger] t[i]) >= m
}

pub open spec fn values_at_most(t: Seq<char>, m: int) -> bool {
    forall|i: int| 0 <= i < t.len() ==> symbol_value(#[trigger] t[i]) <= m
}

/// When no digit of `x` is smaller than a digit of `y`, no subtractive
/// pair crosses from `x` into `y`, and the values add up.
proof fn lemma_scan_value_concat(x: Seq<char>, y: Seq<char>, m: int)
    requires
        values_at_least(x, m),
        values_at_most(y, m),
    ensures
        scan_value(x + y) == scan_value(x) + scan_value(y),
    decreases x.len(),
{
    let xy = x + y;
    if x.len() == 0 {
        assert(xy =~= y);
    } else if x.len() == 1 {
        assert(xy.subrange(1, xy.len() as int) =~= y);
        if y.len() > 0 {
            assert(xy[1] == y[0]);
        } else {
            assert(xy =~= x);
        }
    } else {
        assert(xy[0] == x[0] && xy[1] == x[1]);
        let k: int = if symbol_value(x[0]) < symbol_value(x[1]) { 2 } else { 1 };
        let xr = x.subrange(k, x.len() as int);
        assert(xy.subrange(k, xy.len() as int) =~= xr + y);
        assert(values_at_least(xr, m)) by {
            assert forall|i: int| 0 <= i < xr.len() implies symbol_value(#[trigger] xr[i]) >= m by {
                assert(xr[i] == x[i + k]);
            }
        }
        lemma_scan_value_concat(xr, y, m);
    }
}

/// The classical numeral of a digit is worth the digit times the value of
/// its `one` symbol.
proof fn lemma_digit_numeral(d: int, one: char, five: char, ten: char)
    requires
        0 <= d <= 9,
        is_roman_symbol(one) && is_roman_symbol(five) && is_roman_symbol(ten),
        symbol_value(five) == 5 * symbol_value(one),
        symbol_value(ten) == 10 * symbol_value(one),
    ensures
        scan_value(digit_numeral(d, one, five, ten)) == d * symbol_value(one),
        all_roman_symbols(digit_numeral(d, one, five, ten)),
        values_at_least(digit_numeral(d, one, five, ten), symbol_value(one)),
        values_at_most(digit_numeral(d, one, five, ten), symbol_value(ten)),
        digit_numeral(d, one, five, ten).len() <= 4,
        d > 0 ==> digit_numeral(d, one, five, ten).len() > 0,
{
    let t = digit_numeral(d, one, five, ten);
    let e = Seq::<char>::empty();
    assert(e.len() == 0);
    assert(scan_value(e) == 0);
    assert(scan_value(seq![one]) == symbol_value(one));
    assert(scan_value(seq![five]) == symbol_value(five));
    assert(seq![one, one].subrange(1, 2) =~= seq![one]);
    assert(scan_value(seq![one, one]) == 2 * symbol_value(one));
    assert(seq![one, one, one].subrange(1, 3) =~= seq![one, one]);
    assert(scan_value(seq![one, one, one]) == 3 * symbol_value(one));
    if d == 4 {
        assert(t.subrange(2, 2) =~= e);
    } else if d == 6 {
        assert(t.subrange(1, 2) =~= seq![one]);
    } else if d == 7 {
        assert(t.subrange(1, 3) =~= seq![one, one]);
    } else if d == 8 {
        assert(t.subrange(1, 4) =~= seq![one, one, one]);
    } else if d == 9 {
        assert(t.subrange(2, 2) =~= e);
    }
}

proof fn lemma_thousands_numeral(k: int)
    requires
        0 <= k,
    ensures
        scan_value(thousands_numeral(k)) == 1000 * k,
        all_roman_symbols(thousands_numeral(k)),
        values_at_least(thousands_numeral(k), 1000),
    decreases k,
{
    let t = thousands_numeral(k);
    if k == 1 {
        assert(t.len() == 1 && t[0] == 'M');
    } else if k > 1 {
        lemma_thousands_numeral(k - 1);
        assert(t.subrange(1, k) =~= thousands_numeral(k - 1));
        assert(t[0] == 'M' && t[1] == 'M');
    }
}

/// The classical numeral of `n` is made of Roman digits, at most fifteen
/// of them, and the permissive scan reads it back as `n`.
pub proof fn lemma_roman_numeral_of(n: int)
    requires
        1 <= n <= 3999,
    ensures
        scan_value(roman_numeral_of(n)) == n,
        all_roman_symbols(roman_numeral_of(n)),
        0 < roman_numeral_of(n).len() <= 15,
{
    let th = thousands_numeral(n / 1000);
    let h = digit_numeral((n / 100) % 10, 'C', 'D', 'M');
    let te = digit_numeral((n / 10) % 10, 'X', 'L', 'C');
    let o = digit_numeral(n % 10, 'I', 'V', 'X');
    lemma_thousands_numeral(n / 1000);
    lemma_digit_numeral((n / 100) % 10, 'C', 'D', 'M');
    lemma_digit_numeral((n / 10) % 10, 'X', 'L', 'C');
    lemma_digit_numeral(n % 10, 'I', 'V', 'X');
    assert(values_at_most(h, 1000));
    lemma_scan_value_concat(th, h, 1000);
    assert(values_at_least(th + h, 100)) by {
        assert forall|i: int| 0 <= i < (th + h).len() implies symbol_value(#[trigger] (th + h)[i])
            >= 100 by {
            if i >= th.len() {
                assert((th + h)[i] == h[i - th.len()]);
            }
        }
    }
    lemma_scan_value_concat(th + h, te, 100);
    assert(values_at_least(th + h + te, 10)) by {
        assert forall|i: int| 0 <= i < (th + h + te).len() implies symbol_value(
            #[trigger] (th + h + te)[i],
        ) >= 10 by {
            if i >= (th + h).len() {
                assert((th + h + te)[i] == te[i - (th + h).len()]);
            } else {
                assert((th + h + te)[i] == (th + h)[i]);
            }
        }
    }
    lemma_scan_value_concat(th + h + te, o, 10);
    assert(n == 1000 * (n / 1000) + 100 * ((n / 100) % 10) + 10 * ((n / 10) % 10) + n % 10);
    let r = roman_numeral_of(n);
    assert(r == th + h + te + o);
    assert forall|i: int| 0 <= i < r.len() implies is_roman_symbol(#[trigger] r[i]) by {
        if i < th.len() {
            assert(r[i] == th[i]);
        } else if i < th.len() + h.len() {
            assert(r[i] == h[i - th.len()]);
        } else if i < th.len() + h.len() + te.len() {
            assert(r[i] == te[i - th.len() - h.len()]);
        } else {
            assert(r[i] == o[i - th.len() - h.len() - te.len()]);
        }
    }
}


/// The scanned value is at most a thousand per character.
proof fn lemma_scan_value_bound(t: Seq<char>)
    ensures
        scan_value(t) <= 1000 * t.len(),
    decreases t.len(),
{
    if t.len() >= 2 {
        if symbol_value(t[0]) < symbol_value(t[1]) {
            lemma_scan_value_bound(t.subrange(2, t.len() as int));
        } else {
            lemma_scan_value_bound(t.subrange(1, t.len() as int));
        }
    }
}

fn push_digit_numeral(out: &mut Vec<char>, d: u32, one: char, five: char, ten: char)
    requires
        d <= 9,
    ensures
        final(out)@ == old(out)@ + digit_numeral(d as int, one, five, ten),
{
    let ghost start = out@;
    if d == 4 {
        out.push(one);
        out.push(five);
    } else if d == 9 {
        out.push(one);
        out.push(ten);
    } else {
        let mut ones: u32 = d;
        if d >= 5 {
            out.push(five);
            ones = d - 5;
        }
        let mut k: u32 = 0;
        assert(out@ =~= start + (if 5 <= d { seq![five] } else { seq![] }) + Seq::new(
            0,
            |i: int| one,
        ));
        while k < ones
            invariant
                d <= 9,
                k <= ones,
                d != 4 && d != 9,
                ones == (if 5 <= d { d as int - 5 } else { d as int }),
                out@ == start + (if 5 <= d { seq![five] } else { seq![] }) + Seq::new(
                    k as nat,
                    |i: int| one,
                ),
            decreases ones - k,
        {
            out.push(one);
            k = k + 1;
            assert(out@ =~= start + (if 5 <= d { seq![five] } else { seq![] }) + Seq::new(
                k as nat,
                |i: int| one,
            ));
        }
    }
    assert(out@ =~= start + digit_numeral(d as int, one, five, ten));
}

fn roman_numeral_chars(n: u32) -> (r: Vec<char>)
    requires
        1 <= n <= 3999,
    ensures
        r@ == roman_numeral_of(n as int),
{
    let mut out: Vec<char> = Vec::new();
    let m = n / 1000;
    let mut k: u32 = 0;
    while k < m
        invariant
            m == n / 1000,
            k <= m,
            out@ == thousands_numeral(k as int),
        decreases m - k,
    {
        out.push('M');
        k = k + 1;
        assert(out@ =~= thousands_numeral(k as int));
    }
    push_digit_numeral(&mut out, (n / 100) % 10, 'C', 'D', 'M');
    push_digit_numeral(&mut out, (n / 10) % 10, 'X', 'L', 'C');
    push_digit_numeral(&mut out, n % 10, 'I', 'V', 'X');
    out
}

fn same_chars(a: &Vec<char>, b: &Vec<char>) -> (r: bool)
    ensures
        r == (a@ == b@),
{
    if a.len() != b.len() {
        return false;
    }
    let mut i: usize = 0;
    while i < a.len()
        invariant
            a.len() == b.len(),
            i <= a.len(),
            a@.take(i as int) == b@.take(i as int),
        decreases a.len() - i,
    {
        if a[i] != b[i] {
            return false;
        }
        assert(a@.take(i + 1) =~= a@.take(i as int).push(a[i as int]));
        assert(b@.take(i + 1) =~= b@.take(i as int).push(b[i as int]));
        i = i + 1;
    }
    assert(a@ =~= a@.take(i as int));
    assert(b@ =~= b@.take(i as int));
    true
}

/// Tells whether `s`, after trimming leading and trailing white space, is
/// a Roman numeral in the classical grammar: the canonical numeral of a
/// number from 1 to 3999, such as `XIV` or `MMMCMXCIX`. Text that the
/// permissive `roman_number_to_int` reads but that breaks the grammar,
/// such as `IIII`, `VV` or `IC`, is refused.
pub fn validate_roman_number(s: &str) -> (r: bool)
    ensures
        r == is_classical_roman(trimmed(s@)),
{
    let t = trim(s);
    let digits = chars_of(t);
    let ghost g = t@;
    proof {
        if is_classical_roman(g) {
            let n = choose|n: int| 1 <= n <= 3999 && roman_numeral_of(n) == g;
            lemma_roman_numeral_of(n);
        }
    }
    if digits.len() == 0 || digits.len() > 15 {
        return false;
    }
    proof {
        lemma_scan_value_bound(g);
    }
    match roman_number_to_int(s) {
        Ok(v) => {
            if 1 <= v && v <= 3999 {
                let canonical = roman_numeral_chars(v as u32);
                same_chars(&canonical, &digits)
            } else {
                false
            }
        },
        Err(_) => false,
    }
}

} // verus!
