//! Character-level helpers shared by the protocol codec: whitespace, trimming,
//! splitting off the first word, and reading unsigned integers.

use vstd::prelude::*;

verus! {

/// Unicode `White_Space`, the set that `char::is_whitespace` recognises.
pub open spec fn is_ws(c: char) -> bool {
    let n = c as u32;
    ||| 0x9 <= n <= 0xd
    ||| n == 0x20
    ||| n == 0x85
    ||| n == 0xa0
    ||| n == 0x1680
    ||| 0x2000 <= n <= 0x200a
    ||| n == 0x2028
    ||| n == 0x2029
    ||| n == 0x202f
    ||| n == 0x205f
    ||| n == 0x3000
}

/// `s` without its leading whitespace.
pub open spec fn trim_start(s: Seq<char>) -> Seq<char>
    decreases s.len(),
{
    if s.len() > 0 && is_ws(s[0]) {
        trim_start(s.drop_first())
    } else {
        s
    }
}

/// `s` without its trailing whitespace.
pub open spec fn trim_end(s: Seq<char>) -> Seq<char>
    decreases s.len(),
{
    if s.len() > 0 && is_ws(s.last()) {
        trim_end(s.drop_last())
    } else {
        s
    }
}

/// `s` without leading and trailing whitespace, as `str::trim` gives it.
pub open spec fn trim(s: Seq<char>) -> Seq<char> {
    trim_end(trim_start(s))
}

/// Index of the first whitespace character of `s`, or its length if it has none.
pub open spec fn ws_index(s: Seq<char>) -> nat
    decreases s.len(),
{
    if s.len() == 0 || is_ws(s[0]) {
        0
    } else {
        1 + ws_index(s.drop_first())
    }
}

/// The first word of `s`: everything before its first whitespace character.
pub open spec fn first_word(s: Seq<char>) -> Seq<char> {
    s.take(ws_index(s) as int)
}

/// What follows the first whitespace character of `s`, if it has one.
pub open spec fn after_word(s: Seq<char>) -> Option<Seq<char>> {
    if ws_index(s) < s.len() {
        Some(s.skip(ws_index(s) + 1int))
    } else {
        None
    }
}

proof fn lemma_trim_start(s: Seq<char>, k: int)
    requires
        0 <= k <= s.len(),
        forall|j: int| 0 <= j < k ==> is_ws(#[trigger] s[j]),
        k == s.len() || !is_ws(s[k]),
    ensures
        trim_start(s) == s.skip(k),
    decreases k,
{
    if k > 0 {
        lemma_trim_start(s.drop_first(), k - 1);
        assert(s.drop_first().skip(k - 1) =~= s.skip(k));
    } else {
        assert(s.skip(0) =~= s);
    }
}

proof fn lemma_trim_end(s: Seq<char>, k: int)
    requires
        0 <= k <= s.len(),
        forall|j: int| k <= j < s.len() ==> is_ws(#[trigger] s[j]),
        k == 0 || !is_ws(s[k - 1]),
    ensures
        trim_end(s) == s.take(k),
    decreases s.len() - k,
{
    if k < s.len() {
        lemma_trim_end(s.drop_last(), k);
        assert(s.drop_last().take(k) =~= s.take(k));
    } else {
        assert(s.take(k) =~= s);
    }
}

proof fn lemma_ws_index(s: Seq<char>, k: int)
    requires
        0 <= k <= s.len(),
        forall|j: int| 0 <= j < k ==> !is_ws(#[trigger] s[j]),
        k == s.len() || is_ws(s[k]),
    ensures
        ws_index(s) == k,
    decreases k,
{
    if k > 0 {
        lemma_ws_index(s.drop_first(), k - 1);
    }
}

pub fn is_whitespace(c: char) -> (r: bool)
    ensures
        r == is_ws(c),
{
    let n = c as u32;
    (0x9 <= n && n <= 0xd) || n == 0x20 || n == 0x85 || n == 0xa0 || n == 0x1680 || (0x2000 <= n
        && n <= 0x200a) || n == 0x2028 || n == 0x2029 || n == 0x202f || n == 0x205f || n == 0x3000
}

/// The characters of `s`, one per element.
pub fn chars_of(s: &str) -> (v: Vec<char>)
    ensures
        v@ == s@,
{
    let mut v: Vec<char> = Vec::new();
    for c in it: s.chars()
        invariant
            v@ == it.seq().take(it.index()),
    {
        v.push(c);
    }
    v
}

/// Bounds of the trimmed part of the window `v[from..to]`.
pub fn trim_range(v: &Vec<char>, from: usize, to: usize) -> (r: (usize, usize))
    requires
        from <= to <= v@.len(),
    ensures
        from <= r.0 <= r.1 <= to,
        v@.subrange(r.0 as int, r.1 as int) == trim(v@.subrange(from as int, to as int)),
{
    let ghost w = v@.subrange(from as int, to as int);
    let mut a: usize = from;
    while a < to && is_whitespace(v[a])
        invariant
            from <= a <= to <= v@.len(),
            w == v@.subrange(from as int, to as int),
            forall|j: int| from <= j < a ==> is_ws(#[trigger] v@[j]),
        decreases to - a,
    {
        a = a + 1;
    }
    proof {
        assert forall|j: int| 0 <= j < a - from implies is_ws(#[trigger] w[j]) by {
            assert(w[j] == v@[from + j]);
        }
        lemma_trim_start(w, a - from);
    }
    let mut b: usize = to;
    while b > a && is_whitespace(v[b - 1])
        invariant
            from <= a <= b <= to <= v@.len(),
            forall|j: int| b <= j < to ==> is_ws(#[trigger] v@[j]),
        decreases b - a,
    {
        b = b - 1;
    }
    proof {
        let u = w.skip(a - from);
        assert forall|j: int| b - a <= j < u.len() implies is_ws(#[trigger] u[j]) by {
            assert(u[j] == v@[a + j]);
        }
        lemma_trim_end(u, b - a);
        assert(u.take(b - a) =~= v@.subrange(a as int, b as int));
    }
    (a, b)
}

/// Index of the first whitespace character in the window `v[from..to]`, or `to`.
pub fn find_ws(v: &Vec<char>, from: usize, to: usize) -> (k: usize)
    requires
        from <= to <= v@.len(),
    ensures
        from <= k <= to,
        k - from == ws_index(v@.subrange(from as int, to as int)),
{
    let mut k: usize = from;
    while k < to && !is_whitespace(v[k])
        invariant
            from <= k <= to <= v@.len(),
            forall|j: int| from <= j < k ==> !is_ws(#[trigger] v@[j]),
        decreases to - k,
    {
        k = k + 1;
    }
    proof {
        let w = v@.subrange(from as int, to as int);
        assert forall|j: int| 0 <= j < k - from implies !is_ws(#[trigger] w[j]) by {
            assert(w[j] == v@[from + j]);
        }
        lemma_ws_index(w, k - from);
    }
    k
}

/// Whether the window `v[from..to]` spells exactly `lit`.
pub fn window_is(v: &Vec<char>, from: usize, to: usize, lit: &str) -> (r: bool)
    requires
        from <= to <= v@.len(),
    ensures
        r == (v@.subrange(from as int, to as int) == lit@),
{
    let n = lit.unicode_len();
    if to - from != n {
        return false;
    }
    let mut i: usize = 0;
    while i < n
        invariant
            n == lit@.len(),
            to - from == n,
            from <= to <= v@.len(),
            i <= n,
            forall|j: int| 0 <= j < i ==> v@[from + j] == lit@[j],
        decreases n - i,
    {
        if v[from + i] != lit.get_char(i) {
            assert(v@.subrange(from as int, to as int)[i as int] != lit@[i as int]);
            return false;
        }
        i = i + 1;
    }
    assert(v@.subrange(from as int, to as int) =~= lit@);
    true
}

/// Why a run of characters is not an unsigned integer, as `core::num::IntErrorKind` tells it.
#[derive(Debug, Clone, Copy, PartialEq, Eq, Structural)]
pub enum IntErrorKind {
    Empty,
    InvalidDigit,
    PosOverflow,
}

/// Value of `c` as a digit in base `radix` (up to 36), as `char::to_digit` gives it.
pub open spec fn digit_of(c: char, radix: nat) -> Option<nat> {
    let n = c as u32;
    let d: int = if 0x30 <= n <= 0x39 {
        n - 0x30
    } else if 0x61 <= n <= 0x7a {
        n - 0x61 + 10
    } else if 0x41 <= n <= 0x5a {
        n - 0x41 + 10
    } else {
        36
    };
    if d < radix {
        Some(d as nat)
    } else {
        None
    }
}

/// Reads the digits of `s` from left to right in base `radix`; the scan stops at
/// the first character that is no digit, or at the first step whose value passes `max`.
pub open spec fn scan_digits(s: Seq<char>, radix: nat, max: nat) -> Result<nat, IntErrorKind>
    decreases s.len(),
{
    if s.len() == 0 {
        Ok(0)
    } else {
        match scan_digits(s.drop_last(), radix, max) {
            Err(e) => Err(e),
            Ok(v) => match digit_of(s.last(), radix) {
                None => Err(IntErrorKind::InvalidDigit),
                Some(d) => if v * radix + d > max {
                    Err(IntErrorKind::PosOverflow)
                } else {
                    Ok(v * radix + d)
                },
            },
        }
    }
}

/// An unsigned integer no larger than `max` written in base `radix`, with an optional
/// leading `+`, as `from_str_radix` reads it for an unsigned type.
pub open spec fn parse_unsigned(s: Seq<char>, radix: nat, max: nat) -> Result<nat, IntErrorKind> {
    if s.len() == 0 {
        Err(IntErrorKind::Empty)
    } else if s[0] == '+' {
        if s.len() == 1 {
            Err(IntErrorKind::InvalidDigit)
        } else {
            scan_digits(s.drop_first(), radix, max)
        }
    } else {
        scan_digits(s, radix, max)
    }
}

proof fn lemma_scan_fails_on(s: Seq<char>, k: int, radix: nat, max: nat)
    requires
        0 <= k <= s.len(),
        scan_digits(s.take(k), radix, max) is Err,
    ensures
        scan_digits(s, radix, max) == scan_digits(s.take(k), radix, max),
    decreases s.len() - k,
{
    if k < s.len() {
        assert(s.drop_last().take(k) =~= s.take(k));
        lemma_scan_fails_on(s.drop_last(), k, radix, max);
    } else {
        assert(s.take(k) =~= s);
    }
}

pub fn digit_value(c: char, radix: u32) -> (r: Option<u32>)
    requires
        2 <= radix <= 36,
    ensures
        match r {
            Some(d) => digit_of(c, radix as nat) == Some(d as nat) && d < radix,
            None => digit_of(c, radix as nat) is None,
        },
{
    let n = c as u32;
    let d: u32 = if 0x30 <= n && n <= 0x39 {
        n - 0x30
    } else if 0x61 <= n && n <= 0x7a {
        n - 0x61 + 10
    } else if 0x41 <= n && n <= 0x5a {
        n - 0x41 + 10
    } else {
        36
    };
    if d < radix {
        Some(d)
    } else {
        None
    }
}

fn scan_window(v: &Vec<char>, from: usize, to: usize, radix: u32, max: u64) -> (r: Result<
    u64,
    IntErrorKind,
>)
    requires
        from <= to <= v@.len(),
        2 <= radix <= 16,
    ensures
        scan_digits(v@.subrange(from as int, to as int), radix as nat, max as nat) == match r {
            Ok(n) => Ok(n as nat),
            Err(e) => Err(e),
        },
{
    let ghost w = v@.subrange(from as int, to as int);
    let mut acc: u64 = 0;
    let mut i: usize = from;
    assert(w.take(0) =~= Seq::<char>::empty());
    while i < to
        invariant
            from <= i <= to <= v@.len(),
            2 <= radix <= 16,
            w == v@.subrange(from as int, to as int),
            scan_digits(w.take(i - from), radix as nat, max as nat) == Ok::<nat, IntErrorKind>(
                acc as nat,
            ),
        decreases to - i,
    {
        let ghost p = w.take(i + 1 - from);
        assert(p.drop_last() =~= w.take(i - from));
        assert(p.last() == v@[i as int]);
        match digit_value(v[i], radix) {
            None => {
                proof {
                    lemma_scan_fails_on(w, i + 1 - from, radix as nat, max as nat);
                }
                return Err(IntErrorKind::InvalidDigit);
            },
            Some(d) => {
                assert((acc as int) * (radix as int) <= 0xffff_ffff_ffff_ffffint * 16)
                    by (nonlinear_arith)
                    requires
                        acc <= 0xffff_ffff_ffff_ffffint,
                        radix <= 16,
                ;
                let next: u128 = acc as u128 * radix as u128 + d as u128;
                if next > max as u128 {
                    proof {
                        lemma_scan_fails_on(w, i + 1 - from, radix as nat, max as nat);
                    }
                    return Err(IntErrorKind::PosOverflow);
                }
                acc = next as u64;
            },
        }
        i = i + 1;
    }
    assert(w.take(to - from) =~= w);
    Ok(acc)
}

/// Reads the window `v[from..to]` as an unsigned integer in base `radix` no larger than `max`.
pub fn parse_unsigned_window(v: &Vec<char>, from: usize, to: usize, radix: u32, max: u64) -> (r:
    Result<u64, IntErrorKind>)
    requires
        from <= to <= v@.len(),
        2 <= radix <= 16,
    ensures
        parse_unsigned(v@.subrange(from as int, to as int), radix as nat, max as nat) == match r {
            Ok(n) => Ok(n as nat),
            Err(e) => Err(e),
        },
{
    let ghost w = v@.subrange(from as int, to as int);
    if from == to {
        return Err(IntErrorKind::Empty);
    }
    if v[from] == '+' {
        if to - from == 1 {
            return Err(IntErrorKind::InvalidDigit);
        }
        assert(w.drop_first() =~= v@.subrange(from + 1, to as int));
        scan_window(v, from + 1, to, radix, max)
    } else {
        scan_window(v, from, to, radix, max)
    }
}

/// Splits the window `v[from..to]` after its first word: the word ends at `k`, and
/// the rest starts after the whitespace character at `k`.
pub fn split_word(v: &Vec<char>, from: usize, to: usize) -> (k: usize)
    requires
        from <= to <= v@.len(),
    ensures
        from <= k <= to,
        first_word(v@.subrange(from as int, to as int)) == v@.subrange(from as int, k as int),
        after_word(v@.subrange(from as int, to as int)) == if k < to {
            Some(v@.subrange(k + 1, to as int))
        } else {
            None::<Seq<char>>
        },
{
    let k = find_ws(v, from, to);
    assert(v@.subrange(from as int, to as int).take(k - from) =~= v@.subrange(from as int, k as int));
    if k < to {
        assert(v@.subrange(from as int, to as int).skip(k - from + 1) =~= v@.subrange(
            k + 1,
            to as int,
        ));
    }
    k
}

/// Bounds of the trimmed part of the whole of `v`.
pub fn trim_all(v: &Vec<char>) -> (r: (usize, usize))
    ensures
        r.0 <= r.1 <= v@.len(),
        v@.subrange(r.0 as int, r.1 as int) == trim(v@),
{
    assert(v@.subrange(0, v@.len() as int) =~= v@);
    trim_range(v, 0, v.len())
}

/// The message that `core::num::ParseIntError` gives for each kind of failure.
pub open spec fn int_error_text(k: IntErrorKind) -> Seq<char> {
    match k {
        IntErrorKind::Empty => "cannot parse integer from empty string"@,
        IntErrorKind::InvalidDigit => "invalid digit found in string"@,
        IntErrorKind::PosOverflow => "number too large to fit in target type"@,
    }
}

pub fn int_error_message(k: IntErrorKind) -> (r: &'static str)
    ensures
        r@ == int_error_text(k),
{
    match k {
        IntErrorKind::Empty => "cannot parse integer from empty string",
        IntErrorKind::InvalidDigit => "invalid digit found in string",
        IntErrorKind::PosOverflow => "number too large to fit in target type",
    }
}

/// The digit character for a value below 16, upper case above nine.
pub open spec fn digit_char(d: nat) -> char {
    if d == 0 {
        '0'
    } else if d == 1 {
        '1'
    } else if d == 2 {
        '2'
    } else if d == 3 {
        '3'
    } else if d == 4 {
        '4'
    } else if d == 5 {
        '5'
    } else if d == 6 {
        '6'
    } else if d == 7 {
        '7'
    } else if d == 8 {
        '8'
    } else if d == 9 {
        '9'
    } else if d == 10 {
        'A'
    } else if d == 11 {
        'B'
    } else if d == 12 {
        'C'
    } else if d == 13 {
        'D'
    } else if d == 14 {
        'E'
    } else {
        'F'
    }
}

/// The last `n` hexadecimal digits of `x`, most significant first.
pub open spec fn hex_digits(x: nat, n: nat) -> Seq<char>
    decreases n,
{
    if n == 0 {
        Seq::empty()
    } else {
        hex_digits(x / 16, (n - 1) as nat).push(digit_char(x % 16))
    }
}

/// `x` as sixteen upper-case hexadecimal digits, as `{:016X}` writes it.
pub open spec fn hex16(x: u64) -> Seq<char> {
    hex_digits(x as nat, 16)
}

/// `x` in decimal without leading zeros, as `{}` writes it.
pub open spec fn decimal(x: nat) -> Seq<char>
    decreases x,
{
    if x < 10 {
        seq![digit_char(x)]
    } else {
        decimal(x / 10).push(digit_char(x % 10))
    }
}

fn digit_str(d: u64) -> (r: &'static str)
    requires
        d < 16,
    ensures
        r@ == seq![digit_char(d as nat)],
{
    match d {
        0 => {
            proof {
                reveal_strlit("0");
            }
            "0"
        },
        1 => {
            proof {
                reveal_strlit("1");
            }
            "1"
        },
        2 => {
            proof {
                reveal_strlit("2");
            }
            "2"
        },
        3 => {
            proof {
                reveal_strlit("3");
            }
            "3"
        },
        4 => {
            proof {
                reveal_strlit("4");
            }
            "4"
        },
        5 => {
            proof {
                reveal_strlit("5");
            }
            "5"
        },
        6 => {
            proof {
                reveal_strlit("6");
            }
            "6"
        },
        7 => {
            proof {
                reveal_strlit("7");
            }
            "7"
        },
        8 => {
            proof {
                reveal_strlit("8");
            }
            "8"
        },
        9 => {
            proof {
                reveal_strlit("9");
            }
            "9"
        },
        10 => {
            proof {
                reveal_strlit("A");
            }
            "A"
        },
        11 => {
            proof {
                reveal_strlit("B");
            }
            "B"
        },
        12 => {
            proof {
                reveal_strlit("C");
            }
            "C"
        },
        13 => {
            proof {
                reveal_strlit("D");
            }
            "D"
        },
        14 => {
            proof {
                reveal_strlit("E");
            }
            "E"
        },
        _ => {
            proof {
                reveal_strlit("F");
            }
            "F"
        },
    }
}

/// Appends the last `n` hexadecimal digits of `x` to `s`.
pub fn push_hex(s: &mut String, x: u64, n: u32)
    ensures
        final(s)@ == old(s)@ + hex_digits(x as nat, n as nat),
    decreases n,
{
    if n > 0 {
        push_hex(s, x / 16, n - 1);
        s.append(digit_str(x % 16));
    } else {
        assert(old(s)@ + Seq::<char>::empty() =~= old(s)@);
    }
}

/// Appends `x` in decimal to `s`.
pub fn push_decimal(s: &mut String, x: u64)
    ensures
        final(s)@ == old(s)@ + decimal(x as nat),
    decreases x,
{
    if x >= 10 {
        push_decimal(s, x / 10);
    }
    s.append(digit_str(x % 10));
}

/// The last `n` hexadecimal digits fix a number below `16^n`, so no two such numbers
/// share them.
pub proof fn lemma_hex_digits_injective(x: nat, y: nat, n: nat)
    requires
        hex_digits(x, n) == hex_digits(y, n),
    ensures
        x % pow16(n) == y % pow16(n),
    decreases n,
{
    if n > 0 {
        let p = pow16((n - 1) as nat);
        assert(hex_digits(x, n).last() == digit_char(x % 16));
        assert(hex_digits(x, n).drop_last() =~= hex_digits(x / 16, (n - 1) as nat));
        assert(hex_digits(y, n).drop_last() =~= hex_digits(y / 16, (n - 1) as nat));
        lemma_hex_digits_injective(x / 16, y / 16, (n - 1) as nat);
        assert(x % 16 == y % 16);
        lemma_pow16_positive((n - 1) as nat);
        vstd::arithmetic::div_mod::lemma_mod_breakdown(x as int, 16, p as int);
        vstd::arithmetic::div_mod::lemma_mod_breakdown(y as int, 16, p as int);
    }
}

/// `16^n`.
pub open spec fn pow16(n: nat) -> nat
    decreases n,
{
    if n == 0 {
        1
    } else {
        16 * pow16((n - 1) as nat)
    }
}

proof fn lemma_pow16_positive(n: nat)
    ensures
        pow16(n) > 0,
    decreases n,
{
    if n > 0 {
        lemma_pow16_positive((n - 1) as nat);
    }
}

/// Two 64-bit values with the same sixteen hexadecimal digits are equal.
pub proof fn lemma_hex16_injective(x: u64, y: u64)
    requires
        hex16(x) == hex16(y),
    ensures
        x == y,
{
    lemma_hex_digits_injective(x as nat, y as nat, 16);
    assert(pow16(16) == 0x1_0000_0000_0000_0000nat) by {
        reveal_with_fuel(pow16, 17);
    }
}

/// `n` hexadecimal digits are `n` characters, none of them a letter past `F` or a
/// control character.
pub proof fn lemma_hex_digits_shape(x: nat, n: nat)
    ensures
        hex_digits(x, n).len() == n,
        forall|i: int|
            0 <= i < n ==> {
                let c = #[trigger] hex_digits(x, n)[i];
                c != 'h' && c != '\n' && c != '\t' && c != ' '
            },
    decreases n,
{
    if n > 0 {
        lemma_hex_digits_shape(x / 16, (n - 1) as nat);
    }
}

} // verus!
