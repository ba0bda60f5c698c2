//! Decimal digits: rendering a count as text and reading it back.
//!
//! Season records store their two counts in base 10, so every other module
//! rests on these functions and on the round-trip lemmas that tie rendering
//! and reading together.

use vstd::prelude::*;

verus! {

/// The ten decimal digit characters.
pub open spec fn is_digit(c: char) -> bool {
    c == '0' || c == '1' || c == '2' || c == '3' || c == '4' || c == '5' || c == '6' || c == '7'
        || c == '8' || c == '9'
}

/// Value of a single digit character; non-digits are mapped to 0.
pub open spec fn digit_val(c: char) -> int {
    if c == '1' {
        1
    } else if c == '2' {
        2
    } else if c == '3' {
        3
    } else if c == '4' {
        4
    } else if c == '5' {
        5
    } else if c == '6' {
        6
    } else if c == '7' {
        7
    } else if c == '8' {
        8
    } else if c == '9' {
        9
    } else {
        0
    }
}

/// Digit character for a value; values outside 0..=9 are mapped to '9'.
pub open spec fn digit_char(d: int) -> char {
    if d == 0 {
        '0'
    } else if d == 1 {
        '1'
    } else if d == 2 {
        '2'
    } else if d == 3 {
        '3'
    } else if d == 4 {
        '4'
    } else if d == 5 {
        '5'
    } else if d == 6 {
        '6'
    } else if d == 7 {
        '7'
    } else if d == 8 {
        '8'
    } else {
        '9'
    }
}

/// Every character of `s` is a decimal digit.
pub open spec fn all_digits(s: Seq<char>) -> bool {
    forall|i: int| 0 <= i < s.len() ==> is_digit(s[i])
}

/// The number denoted by a sequence of digit characters, most significant
/// digit first.
pub open spec fn dec_val(s: Seq<char>) -> int
    decreases s.len(),
{
    if s.len() == 0 {
        0
    } else {
        dec_val(s.drop_last()) * 10 + digit_val(s.last())
    }
}

/// `s` spells a number that an unsigned count can hold: at least one digit,
/// nothing but digits, and a value that fits in `usize`.
pub open spec fn is_dec_number(s: Seq<char>) -> bool {
    s.len() > 0 && all_digits(s) && dec_val(s) <= usize::MAX
}

/// The decimal rendering of `n`, without padding; 0 renders as "0".
pub open spec fn dec_digits(n: int) -> Seq<char>
    decreases n,
{
    if n < 10 {
        seq![digit_char(n)]
    } else {
        dec_digits(n / 10).push(digit_char(n % 10))
    }
}

/// The decimal rendering of `n` left-padded with zeros to at least `width`
/// characters.
pub open spec fn padded_digits(n: int, width: int) -> Seq<char> {
    let ds = dec_digits(n);
    if ds.len() >= width {
        ds
    } else {
        Seq::new((width - ds.len()) as nat, |i: int| '0') + ds
    }
}

/// Number of decimal digits of `n`, where 0 has zero digits.
pub open spec fn dec_len(n: int) -> int
    decreases n,
{
    if n <= 0 {
        0
    } else {
        1 + dec_len(n / 10)
    }
}

/// Width of the decimal rendering of `number`, floored at two digits, as used
/// by episode labels such as `S01E10`.
pub open spec fn spec_number_width(number: int) -> int {
    if dec_len(number) < 2 {
        2
    } else {
        dec_len(number)
    }
}

/// A number has at least one digit when positive, and never more digits than
/// its own value.
pub proof fn lemma_dec_len_bounds(n: int)
    requires
        0 <= n,
    ensures
        0 <= dec_len(n) <= n,
        n > 0 ==> 1 <= dec_len(n),
    decreases n,
{
    if n > 0 {
        lemma_dec_len_bounds(n / 10);
    }
}

/// Index of the first occurrence of `c` in `s`, or `s.len()` when `c` does
/// not occur.
pub open spec fn first_index_of(s: Seq<char>, c: char) -> int
    decreases s.len(),
{
    if s.len() == 0 {
        0
    } else if s[0] == c {
        0
    } else {
        1 + first_index_of(s.drop_first(), c)
    }
}

/// What `first_index_of` finds: an in-range position, holding `c` when one
/// exists, with no occurrence of `c` before it.
pub proof fn lemma_first_index_of(s: Seq<char>, c: char)
    ensures
        0 <= first_index_of(s, c) <= s.len(),
        first_index_of(s, c) < s.len() ==> s[first_index_of(s, c)] == c,
        forall|j: int| 0 <= j < first_index_of(s, c) ==> s[j] != c,
    decreases s.len(),
{
    if s.len() > 0 && s[0] != c {
        lemma_first_index_of(s.drop_first(), c);
        assert forall|j: int| 0 <= j < first_index_of(s, c) implies s[j] != c by {
            if j > 0 {
                assert(s.drop_first()[j - 1] == s[j]);
            }
        }
    }
}

/// Scan for the first occurrence of a character.
pub fn find_char(s: &str, c: char) -> (i: usize)
    ensures
        i == first_index_of(s@, c),
{
    let n = s.unicode_len();
    let mut i: usize = 0;
    while i < n
        invariant
            0 <= i <= n,
            n == s@.len(),
            forall|j: int| 0 <= j < i ==> s@[j] != c,
        decreases n - i,
    {
        if s.get_char(i) == c {
            proof {
                lemma_first_index_of(s@, c);
            }
            return i;
        }
        i = i + 1;
    }
    proof {
        lemma_first_index_of(s@, c);
    }
    n
}

/// A digit string never denotes a negative number.
pub proof fn lemma_dec_val_nonneg(s: Seq<char>)
    ensures
        dec_val(s) >= 0,
    decreases s.len(),
{
    if s.len() > 0 {
        lemma_dec_val_nonneg(s.drop_last());
    }
}

/// Reading back the rendering of a count yields the count: the rendering is
/// all digits, at least one of them, and denotes `n` again.
pub proof fn lemma_dec_digits_roundtrip(n: int)
    requires
        0 <= n,
    ensures
        all_digits(dec_digits(n)),
        dec_val(dec_digits(n)) == n,
        dec_digits(n).len() >= 1,
    decreases n,
{
    if n < 10 {
        let ds = seq![digit_char(n)];
        assert(ds.drop_last() =~= Seq::<char>::empty());
        assert(dec_val(ds) == dec_val(Seq::<char>::empty()) * 10 + digit_val(digit_char(n)));
    } else {
        lemma_dec_digits_roundtrip(n / 10);
        let ds = dec_digits(n / 10);
        let c = digit_char(n % 10);
        assert(ds.push(c).drop_last() =~= ds);
        assert(digit_val(c) == n % 10);
        assert(n / 10 * 10 + n % 10 == n) by (nonlinear_arith);
    }
}

/// Extending a digit string on the right never shrinks its value.
pub proof fn lemma_dec_val_prefix(s: Seq<char>, j: int)
    requires
        0 <= j <= s.len(),
    ensures
        dec_val(s.subrange(0, j)) <= dec_val(s),
    decreases s.len() - j,
{
    if j == s.len() {
        assert(s.subrange(0, j) =~= s);
    } else {
        lemma_dec_val_prefix(s, j + 1);
        let p = s.subrange(0, j);
        let q = s.subrange(0, j + 1);
        assert(q.drop_last() =~= p);
        lemma_dec_val_nonneg(p);
    }
}

/// Single digit character of a value below ten.
fn digit_str(d: usize) -> (r: &'static str)
    requires
        d < 10,
    ensures
        r@ == seq![digit_char(d as int)],
{
    let r = match d {
        0 => "0",
        1 => "1",
        2 => "2",
        3 => "3",
        4 => "4",
        5 => "5",
        6 => "6",
        7 => "7",
        8 => "8",
        _ => "9",
    };
    proof {
        reveal_strlit("0");
        reveal_strlit("1");
        reveal_strlit("2");
        reveal_strlit("3");
        reveal_strlit("4");
        reveal_strlit("5");
        reveal_strlit("6");
        reveal_strlit("7");
        reveal_strlit("8");
        reveal_strlit("9");
        assert(r@ =~= seq![digit_char(d as int)]);
    }
    r
}

/// Render a count in decimal, most significant digit first.
pub fn fmt_usize(n: usize) -> (r: String)
    ensures
        r@ == dec_digits(n as int),
    decreases n,
{
    if n < 10 {
        String::from_str(digit_str(n))
    } else {
        let mut r = fmt_usize(n / 10);
        r.append(digit_str(n % 10));
        proof {
            assert(r@ =~= dec_digits(n as int / 10).push(digit_char(n as int % 10)));
        }
        r
    }
}

/// Render a count in decimal, left-padded with zeros to at least `width`
/// characters.
pub fn fmt_padded(n: usize, width: usize) -> (r: String)
    ensures
        r@ == padded_digits(n as int, width as int),
{
    let digits = fmt_usize(n);
    let len = digits.as_str().unicode_len();
    let mut r = String::new();
    let mut k: usize = len;
    while k < width
        invariant
            len <= k,
            len < width ==> k <= width,
            len >= width ==> k == len,
            len == dec_digits(n as int).len(),
            r@ =~= Seq::new((k - len) as nat, |i: int| '0'),
        decreases width - k,
    {
        r.append("0");
        k = k + 1;
        proof {
            reveal_strlit("0");
            assert(r@ =~= Seq::new((k - len) as nat, |i: int| '0'));
        }
    }
    let r = r.concat(digits.as_str());
    proof {
        assert(r@ =~= padded_digits(n as int, width as int));
    }
    r
}

/// Read a decimal count; `None` when `s` is empty, holds a non-digit, or
/// denotes a value too large for `usize`.
pub fn parse_usize(s: &str) -> (r: Option<usize>)
    ensures
        match r {
            Some(v) => is_dec_number(s@) && v == dec_val(s@),
            None => !is_dec_number(s@),
        },
{
    let n = s.unicode_len();
    if n == 0 {
        return None;
    }
    let mut i: usize = 0;
    let mut acc: usize = 0;
    while i < n
        invariant
            0 <= i <= n,
            n == s@.len(),
            acc == dec_val(s@.subrange(0, i as int)),
            all_digits(s@.subrange(0, i as int)),
        decreases n - i,
    {
        let c = s.get_char(i);
        let d: usize = match c {
            '0' => 0,
            '1' => 1,
            '2' => 2,
            '3' => 3,
            '4' => 4,
            '5' => 5,
            '6' => 6,
            '7' => 7,
            '8' => 8,
            '9' => 9,
            _ => {
                return None;
            },
        };
        proof {
            assert(is_digit(s@[i as int]) && d == digit_val(s@[i as int]));
        }
        if acc > (usize::MAX - d) / 10 {
            proof {
                let q = s@.subrange(0, i as int + 1);
                assert(q.drop_last() =~= s@.subrange(0, i as int));
                assert(acc * 10 + d > usize::MAX) by (nonlinear_arith)
                    requires
                        acc > (usize::MAX - d) / 10,
                        d < 10,
                ;
                lemma_dec_val_prefix(s@, i as int + 1);
            }
            return None;
        }
        proof {
            let q = s@.subrange(0, i as int + 1);
            assert(q.drop_last() =~= s@.subrange(0, i as int));
            assert(acc * 10 + d <= usize::MAX) by (nonlinear_arith)
                requires
                    acc <= (usize::MAX - d) / 10,
                    d < 10,
            ;
        }
        acc = acc * 10 + d;
        i = i + 1;
    }
    proof {
        assert(s@.subrange(0, n as int) =~= s@);
    }
    Some(acc)
}

/// Field width used when zero-padding a season or episode number: at least
/// two columns, more when the count has more digits.
pub fn number_width(number: usize) -> (width: usize)
    ensures
        width == spec_number_width(number as int),
{
    let ghost orig = number as int;
    let mut number = number;
    let mut count: usize = 0;
    proof {
        lemma_dec_len_bounds(orig);
    }
    while number != 0
        invariant
            count + dec_len(number as int) == dec_len(orig),
            dec_len(orig) <= orig <= usize::MAX,
            0 <= dec_len(number as int),
        decreases number,
    {
        proof {
            lemma_dec_len_bounds(number as int / 10);
        }
        number = number / 10;
        count = count + 1;
    }
    if count < 2 {
        2
    } else {
        count
    }
}

} // verus!
