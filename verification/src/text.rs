//! Text: decimal numbers, trimming and searching.

use vstd::prelude::*;
use vstd::string::*;

verus! {

/// The character of a decimal digit.
pub open spec fn digit(d: int) -> char {
    (48 + d) as char
}

/// The decimal digits of `n`, without leading zeros.
pub open spec fn decimal(n: nat) -> Seq<char>
    decreases n,
{
    if n < 10 {
        seq![digit(n as int)]
    } else {
        decimal(n / 10).push(digit((n % 10) as int))
    }
}

/// A run of the digit zero.
pub open spec fn zeros(n: int) -> Seq<char> {
    Seq::new(
        if n > 0 {
            n as nat
        } else {
            0
        },
        |i: int| '0',
    )
}

/// `n` in decimal, filled up with zeros behind the sign to `width` characters.
pub open spec fn padded(n: int, width: int) -> Seq<char> {
    if n < 0 {
        seq!['-'] + zeros(width - 1 - decimal((-n) as nat).len()) + decimal((-n) as nat)
    } else {
        zeros(width - decimal(n as nat).len()) + decimal(n as nat)
    }
}

/// Whether `c` has the Unicode property `White_Space`.
pub open spec fn is_white(c: char) -> bool {
    let n = c as int;
    ||| 0x9 <= n <= 0xd
    ||| n == 0x20
    ||| n == 0x85
    ||| n == 0xa0
    ||| n == 0x1680
    ||| 0x2000 <= n <= 0x200a
    ||| n == 0x2028
    ||| n == 0x2029
    ||| n == 0x202f
    ||| n == 0x205f
    ||| n == 0x3000
}

/// `s` without white space at either end.
pub open spec fn trimmed(s: Seq<char>) -> Seq<char>
    decreases s.len(),
{
    if s.len() > 0 && is_white(s[0]) {
        trimmed(s.drop_first())
    } else if s.len() > 0 && is_white(s.last()) {
        trimmed(s.drop_last())
    } else {
        s
    }
}

/// Whether every character of `s` is a decimal digit.
pub open spec fn all_digits(s: Seq<char>) -> bool {
    forall|i: int| 0 <= i < s.len() ==> '0' <= #[trigger] s[i] <= '9'
}

/// The number that decimal digits stand for.
pub open spec fn digits_value(s: Seq<char>) -> nat
    decreases s.len(),
{
    if s.len() == 0 {
        0
    } else {
        digits_value(s.drop_last()) * 10 + (s.last() as int - 48) as nat
    }
}

/// The natural number that `s` spells: digits, with a plus sign or without.
pub open spec fn spelled_nat(s: Seq<char>) -> Option<nat> {
    let body = if s.len() > 0 && s[0] == '+' {
        s.drop_first()
    } else {
        s
    };
    if body.len() > 0 && all_digits(body) {
        Some(digits_value(body))
    } else {
        None
    }
}

/// The integer that `s` spells: digits, with a sign or without.
pub open spec fn spelled_int(s: Seq<char>) -> Option<int> {
    if s.len() > 0 && s[0] == '-' {
        let body = s.drop_first();
        if body.len() > 0 && all_digits(body) {
            Some(-(digits_value(body) as int))
        } else {
            None
        }
    } else {
        match spelled_nat(s) {
            Some(v) => Some(v as int),
            None => None,
        }
    }
}

/// The `u32` that `s` spells, if it spells one.
pub open spec fn spelled_u32(s: Seq<char>) -> Option<u32> {
    match spelled_nat(s) {
        Some(v) => if v <= u32::MAX {
            Some(v as u32)
        } else {
            None
        },
        None => None,
    }
}

/// The `u64` that `s` spells, if it spells one.
pub open spec fn spelled_u64(s: Seq<char>) -> Option<u64> {
    match spelled_nat(s) {
        Some(v) => if v <= u64::MAX {
            Some(v as u64)
        } else {
            None
        },
        None => None,
    }
}

/// The `i32` that `s` spells, if it spells one.
pub open spec fn spelled_i32(s: Seq<char>) -> Option<i32> {
    match spelled_int(s) {
        Some(v) => if i32::MIN <= v <= i32::MAX {
            Some(v as i32)
        } else {
            None
        },
        None => None,
    }
}

/// Whether `part` occurs in `whole` as a stretch of neighbouring characters.
pub open spec fn occurs_in(part: Seq<char>, whole: Seq<char>) -> bool {
    exists|i: int|
        0 <= i && i + part.len() <= whole.len() && part == #[trigger] whole.subrange(
            i,
            i + part.len(),
        )
}

/// Whether two texts first differ at `k`, where the first has the lower
/// character or ends.
pub open spec fn is_lower_at(a: Seq<char>, b: Seq<char>, k: int) -> bool {
    &&& 0 <= k <= a.len()
    &&& k < b.len()
    &&& forall|i: int| 0 <= i < k ==> a[i] == b[i]
    &&& k < a.len() ==> a[k] < b[k]
}

/// Whether a text sorts before another, character by character.
pub open spec fn sorts_before(a: Seq<char>, b: Seq<char>) -> bool {
    exists|k: int| is_lower_at(a, b, k)
}

/// Lower-cased text, as Unicode defines it.
pub uninterp spec fn lowercase(s: Seq<char>) -> Seq<char>;

/// `str::trim` removes what has the Unicode property `White_Space` from both
/// ends.
pub assume_specification[ str::trim ](s: &str) -> (r: &str)
    ensures
        r@ == trimmed(s@),
;

/// `str::to_lowercase`; its result is only named.
#[verifier::external_body]
pub(crate) fn to_lowercase(s: &str) -> (r: String)
    ensures
        r@ == lowercase(s@),
{
    s.to_lowercase()
}

/// `str::contains` with a string pattern: whether the pattern matches a
/// sub-slice.
#[verifier::external_body]
pub(crate) fn contains(s: &str, part: &str) -> (r: bool)
    ensures
        r == occurs_in(part@, s@),
{
    s.contains(part)
}

/// `str::parse` to `u32`: an optional plus sign followed by only digits, in
/// range.
#[verifier::external_body]
pub(crate) fn parse_u32(s: &str) -> (r: Option<u32>)
    ensures
        r == spelled_u32(s@),
{
    s.parse::<u32>().ok()
}

/// `str::parse` to `u64`: an optional plus sign followed by only digits, in
/// range.
#[verifier::external_body]
pub(crate) fn parse_u64(s: &str) -> (r: Option<u64>)
    ensures
        r == spelled_u64(s@),
{
    s.parse::<u64>().ok()
}

/// `str::parse` to `i32`: an optional sign followed by only digits, in range.
#[verifier::external_body]
pub(crate) fn parse_i32(s: &str) -> (r: Option<i32>)
    ensures
        r == spelled_i32(s@),
{
    s.parse::<i32>().ok()
}

/// Whether two texts are the same.
pub(crate) fn same(a: &str, b: &str) -> (r: bool)
    ensures
        r == (a@ == b@),
{
    a.to_owned() == b.to_owned()
}

fn digit_text(d: u64) -> (r: &'static str)
    requires
        d < 10,
    ensures
        r@ == seq![digit(d as int)],
{
    proof {
        reveal_strlit("0");
        reveal_strlit("1");
        reveal_strlit("2");
        reveal_strlit("3");
        reveal_strlit("4");
        reveal_strlit("5");
        reveal_strlit("6");
        reveal_strlit("7");
        reveal_strlit("8");
        reveal_strlit("9");
    }
    let r = match d {
        0 => "0",
        1 => "1",
        2 => "2",
        3 => "3",
        4 => "4",
        5 => "5",
        6 => "6",
        7 => "7",
        8 => "8",
        _ => "9",
    };
    assert(r@ =~= seq![digit(d as int)]);
    r
}

/// Appends the decimal digits of `n`.
pub fn push_decimal(out: &mut String, n: u64)
    ensures
        final(out)@ == old(out)@ + decimal(n as nat),
    decreases n,
{
    if n >= 10 {
        push_decimal(out, n / 10);
    }
    out.append(digit_text(n % 10));
    proof {
        if n >= 10 {
            assert(decimal((n / 10) as nat) + seq![digit((n % 10) as int)] =~= decimal(n as nat));
        }
        assert(out@ =~= old(out)@ + decimal(n as nat));
    }
}

/// `n` in decimal.
pub fn decimal_text(n: u64) -> (r: String)
    ensures
        r@ == decimal(n as nat),
{
    let mut out = String::new();
    push_decimal(&mut out, n);
    proof {
        assert(out@ =~= decimal(n as nat));
    }
    out
}

fn decimal_len(n: u64) -> (r: usize)
    ensures
        r == decimal(n as nat).len(),
        1 <= r <= 20,
{
    let mut rest = n;
    let mut len: usize = 1;
    proof {
        lemma_decimal_len(n as nat, 20);
    }
    while rest >= 10
        invariant
            len + decimal(rest as nat).len() == decimal(n as nat).len() + 1,
            decimal(n as nat).len() <= 20,
            len <= 20,
        decreases rest,
    {
        proof {
            lemma_decimal_nonempty((rest / 10) as nat);
        }
        rest = rest / 10;
        len = len + 1;
    }
    len
}

proof fn lemma_decimal_nonempty(n: nat)
    ensures
        decimal(n).len() >= 1,
    decreases n,
{
    if n >= 10 {
        lemma_decimal_nonempty(n / 10);
    }
}

spec fn tens(k: nat) -> nat
    decreases k,
{
    if k == 0 {
        1
    } else {
        10 * tens((k - 1) as nat)
    }
}

proof fn lemma_decimal_len(n: nat, k: nat)
    requires
        k == 20,
        n <= u64::MAX,
    ensures
        decimal(n).len() <= k,
{
    reveal_with_fuel(tens, 21);
    lemma_decimal_len_below(n, k);
}

proof fn lemma_decimal_len_below(n: nat, k: nat)
    requires
        k >= 1,
        n < tens(k),
    ensures
        decimal(n).len() <= k,
    decreases k,
{
    if n >= 10 {
        reveal_with_fuel(tens, 2);
        assert(n / 10 < tens((k - 1) as nat));
        lemma_decimal_len_below(n / 10, (k - 1) as nat);
    }
}

/// Appends `n` in decimal, filled up with zeros behind the sign to `width`
/// characters.
pub fn push_padded(out: &mut String, n: i64, width: usize)
    ensures
        final(out)@ == old(out)@ + padded(n as int, width as int),
{
    let ghost before = out@;
    let magnitude: u64 = if n < 0 {
        out.append("-");
        (-(n + 1)) as u64 + 1
    } else {
        n as u64
    };
    let sign: usize = if n < 0 {
        1
    } else {
        0
    };
    let taken = sign + decimal_len(magnitude);
    let ghost head = out@;
    let mut filled: usize = taken;
    while filled < width
        invariant
            taken <= filled,
            filled <= width || filled == taken,
            out@ == head + zeros(filled - taken),
        decreases width - filled,
    {
        out.append("0");
        proof {
            reveal_strlit("0");
            assert(zeros(filled - taken) + "0"@ =~= zeros(filled + 1 - taken));
            assert(out@ =~= head + zeros(filled + 1 - taken));
        }
        filled = filled + 1;
    }
    push_decimal(out, magnitude);
    proof {
        reveal_strlit("-");
        assert("-"@ =~= seq!['-']);
        assert(out@ =~= before + padded(n as int, width as int));
    }
}

/// Numbers of two digits and of four, filled up to that width.
pub(crate) proof fn lemma_padded(n: int)
    ensures
        0 <= n < 100 ==> padded(n, 2) == seq![digit(n / 10), digit(n % 10)],
        0 <= n < 10_000 ==> padded(n, 4) == seq![
            digit(n / 1000),
            digit(n / 100 % 10),
            digit(n / 10 % 10),
            digit(n % 10),
        ],
{
    reveal_with_fuel(decimal, 5);
    if 0 <= n < 100 {
        assert(padded(n, 2) =~= seq![digit(n / 10), digit(n % 10)]);
    }
    if 0 <= n < 10_000 {
        assert(padded(n, 4) =~= seq![
            digit(n / 1000),
            digit(n / 100 % 10),
            digit(n / 10 % 10),
            digit(n % 10),
        ]);
    }
}

/// Text that is not bounded by white space is left alone.
pub proof fn law_trim_keeps(s: Seq<char>)
    requires
        s.len() > 0 ==> !is_white(s[0]) && !is_white(s.last()),
    ensures
        trimmed(s) == s,
{
}

/// Trimmed text has no white space at either end.
pub proof fn law_trim_settles(s: Seq<char>)
    ensures
        trimmed(trimmed(s)) == trimmed(s),
        trimmed(s).len() > 0 ==> !is_white(trimmed(s)[0]) && !is_white(trimmed(s).last()),
    decreases s.len(),
{
    if s.len() > 0 && is_white(s[0]) {
        law_trim_settles(s.drop_first());
    } else if s.len() > 0 && is_white(s.last()) {
        law_trim_settles(s.drop_last());
    }
}

/// A number other than zero is written without zeros in front.
pub proof fn law_decimal_has_no_leading_zero(n: nat)
    requires
        n > 0,
    ensures
        decimal(n)[0] != '0',
    decreases n,
{
    if n >= 10 {
        law_decimal_has_no_leading_zero(n / 10);
        lemma_decimal_nonempty(n / 10);
        assert(decimal(n)[0] == decimal(n / 10)[0]);
    }
}

proof fn lemma_zeros_count_nothing(k: int, s: Seq<char>)
    requires
        k >= 0,
    ensures
        digits_value(zeros(k) + s) == digits_value(s),
    decreases s.len(), k,
{
    let all = zeros(k) + s;
    if s.len() > 0 {
        lemma_zeros_count_nothing(k, s.drop_last());
        assert(all.drop_last() =~= zeros(k) + s.drop_last());
    } else if k > 0 {
        lemma_zeros_count_nothing(k - 1, s);
        assert(all.drop_last() =~= zeros(k - 1) + s);
        assert(all.last() == '0');
        assert(digits_value(s) == 0);
    } else {
        assert(all =~= s);
    }
}

/// A number that is filled up to a width has that width, or more where it needs
/// it; its digits spell the number, behind a minus sign where it is negative.
pub proof fn law_padded_reads_back(n: int, width: int)
    ensures
        n >= 0 ==> {
            &&& digits_value(padded(n, width)) == n
            &&& padded(n, width).len() >= width
            &&& padded(n, width).len() == width || padded(n, width) == decimal(n as nat)
        },
        n < 0 ==> {
            &&& padded(n, width)[0] == '-'
            &&& digits_value(padded(n, width).drop_first()) == -n
            &&& padded(n, width).len() >= width
            &&& padded(n, width).len() == width || padded(n, width).drop_first() == decimal(
                (-n) as nat,
            )
        },
{
    let m = if n < 0 {
        (-n) as nat
    } else {
        n as nat
    };
    let d = decimal(m);
    law_decimal_reads_back(m);
    let fill = if n < 0 {
        width - 1 - d.len()
    } else {
        width - d.len()
    };
    let k = if fill > 0 {
        fill
    } else {
        0
    };
    assert(zeros(fill) =~= zeros(k));
    lemma_zeros_count_nothing(k, d);
    if n < 0 {
        assert(padded(n, width).drop_first() =~= zeros(fill) + d);
    }
    if fill <= 0 {
        assert(zeros(fill) + d =~= d);
    }
}

/// Reading the decimal digits of a number gives the number back.
pub proof fn law_decimal_reads_back(n: nat)
    ensures
        all_digits(decimal(n)),
        decimal(n).len() > 0,
        digits_value(decimal(n)) == n,
        spelled_nat(decimal(n)) == Some(n),
        trimmed(decimal(n)) == decimal(n),
    decreases n,
{
    let s = decimal(n);
    if n < 10 {
        assert(s.drop_last() =~= Seq::<char>::empty());
        assert(digits_value(s.drop_last()) == 0);
    } else {
        law_decimal_reads_back(n / 10);
        assert(s.drop_last() =~= decimal(n / 10));
    }
    assert(all_digits(s));
    assert('0' <= s[0] <= '9');
    assert('0' <= s.last() <= '9');
}

} // verus!
