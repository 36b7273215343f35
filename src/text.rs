use vstd::prelude::*;
use vstd::string::*;

verus! {

/// Number of coordinate units in one map unit: coordinates are kept as
/// signed millionths.
pub const COORD_SCALE: u64 = 1_000_000;

/// Every coordinate's magnitude is below this bound, in millionths: the
/// range that the `i64` representation keeps with room for differences.
pub const COORD_LIMIT: i64 = 1_000_000_000_000_000_000;

/// Exponents are read saturated at this bound, which exceeds any text length.
const EXP_CAP: u128 = 100_000_000_000_000_000_000;

pub open spec fn is_digit(c: char) -> bool {
    '0' <= c && c <= '9'
}

pub open spec fn digit_value(c: char) -> nat {
    (c as int - '0' as int) as nat
}

pub open spec fn all_digits(s: Seq<char>) -> bool {
    forall|i: int| 0 <= i < s.len() ==> is_digit(#[trigger] s[i])
}

/// The number written by a string of decimal digits.
pub open spec fn digits_value(s: Seq<char>) -> nat
    decreases s.len(),
{
    if s.len() == 0 {
        0
    } else {
        digits_value(s.drop_last()) * 10 + digit_value(s.last())
    }
}

pub open spec fn pow10(k: nat) -> nat
    decreases k,
{
    if k == 0 {
        1
    } else {
        10 * pow10((k - 1) as nat)
    }
}

pub open spec fn capped(v: nat, cap: nat) -> nat {
    if v < cap {
        v
    } else {
        cap
    }
}

/// Unicode White_Space, the class that `\s` matches.
pub open spec fn is_ws(c: char) -> bool {
    ||| ('\t' <= c && c <= '\r')
    ||| c == ' '
    ||| c == '\u{85}'
    ||| c == '\u{a0}'
    ||| c == '\u{1680}'
    ||| ('\u{2000}' <= c && c <= '\u{200a}')
    ||| c == '\u{2028}'
    ||| c == '\u{2029}'
    ||| c == '\u{202f}'
    ||| c == '\u{205f}'
    ||| c == '\u{3000}'
}

pub fn is_whitespace(c: char) -> (r: bool)
    ensures
        r == is_ws(c),
{
    ('\t' <= c && c <= '\r') || c == ' ' || c == '\u{85}' || c == '\u{a0}' || c == '\u{1680}'
        || ('\u{2000}' <= c && c <= '\u{200a}') || c == '\u{2028}' || c == '\u{2029}' || c
        == '\u{202f}' || c == '\u{205f}' || c == '\u{3000}'
}

pub proof fn lemma_pow10_mono(a: nat, b: nat)
    requires
        a <= b,
    ensures
        pow10(a) <= pow10(b),
    decreases b,
{
    if a < b {
        lemma_pow10_mono(a, (b - 1) as nat);
    }
}

/// Reads the digits of `s@[start..end]`: `None` where one of them is not a
/// decimal digit, else their value, saturated at `cap`.
fn digits_capped(s: &str, start: usize, end: usize, cap: u128) -> (r: Option<u128>)
    requires
        start <= end <= s@.len(),
        0 < cap <= 1_000_000_000_000_000_000_000_000_000,
    ensures
        r is Some <==> all_digits(s@.subrange(start as int, end as int)),
        r matches Some(v) ==> v == capped(digits_value(s@.subrange(start as int, end as int)), cap as nat),
{
    let mut acc: u128 = 0;
    let mut i: usize = start;
    while i < end
        invariant
            start <= i <= end <= s@.len(),
            0 < cap <= 1_000_000_000_000_000_000_000_000_000,
            all_digits(s@.subrange(start as int, i as int)),
            acc == capped(digits_value(s@.subrange(start as int, i as int)), cap as nat),
        decreases end - i,
    {
        let c = s.get_char(i);
        if !('0' <= c && c <= '9') {
            assert(s@.subrange(start as int, end as int)[i - start] == c);
            return None;
        }
        let d: u128 = (c as u32 - '0' as u32) as u128;
        proof {
            let next = s@.subrange(start as int, i + 1);
            assert(next.drop_last() =~= s@.subrange(start as int, i as int));
            assert(next.last() == c);
            assert forall|k: int| 0 <= k < next.len() implies is_digit(#[trigger] next[k]) by {
                if k < next.len() - 1 {
                    assert(next[k] == s@.subrange(start as int, i as int)[k]);
                }
            }
        }
        let grown = acc * 10 + d;
        acc = if grown > cap {
            cap
        } else {
            grown
        };
        i = i + 1;
    }
    Some(acc)
}

pub open spec fn sign_len(s: Seq<char>) -> int {
    if s.len() > 0 && (s[0] == '-' || s[0] == '+') {
        1
    } else {
        0
    }
}

/// Position of the first `e` or `E` in `s` at or after `i`, or `s.len()`.
pub open spec fn exp_from(s: Seq<char>, i: int) -> int
    decreases s.len() - i,
{
    if i >= s.len() {
        s.len() as int
    } else if s[i] == 'e' || s[i] == 'E' {
        i
    } else {
        exp_from(s, i + 1)
    }
}

/// Position of the first `.` in `s[i..e]`, or `e`.
pub open spec fn dot_before(s: Seq<char>, i: int, e: int) -> int
    decreases e - i,
{
    if i >= e {
        e
    } else if s[i] == '.' {
        i
    } else {
        dot_before(s, i + 1, e)
    }
}

/// Where the exponent marker of a coordinate text stands, or its length.
pub open spec fn exp_pos(s: Seq<char>) -> int {
    exp_from(s, sign_len(s))
}

/// Where the dot of a coordinate's mantissa stands, or the mantissa's end.
pub open spec fn dot_pos(s: Seq<char>) -> int {
    dot_before(s, sign_len(s), exp_pos(s))
}

/// The mantissa digits before the dot.
pub open spec fn int_part(s: Seq<char>) -> Seq<char> {
    s.subrange(sign_len(s), dot_pos(s))
}

/// The mantissa digits after the dot, if there is one.
pub open spec fn frac_part(s: Seq<char>) -> Seq<char> {
    if dot_pos(s) < exp_pos(s) {
        s.subrange(dot_pos(s) + 1, exp_pos(s))
    } else {
        Seq::empty()
    }
}

/// The exponent: zero without a marker; else the marker must be followed by
/// an optional sign and at least one decimal digit.
pub open spec fn exp_value(s: Seq<char>) -> Option<int> {
    let e = exp_pos(s);
    if e >= s.len() {
        Some(0)
    } else {
        let t = s.subrange(e + 1, s.len() as int);
        let b = t.subrange(sign_len(t), t.len() as int);
        if b.len() > 0 && all_digits(b) {
            Some(if t[0] == '-' { -digits_value(b) } else { digits_value(b) as int })
        } else {
            None
        }
    }
}

/// The first `p` digits of `w`, padded with zeros where `w` is shorter.
pub open spec fn pad(w: Seq<char>, p: nat) -> Seq<char> {
    Seq::new(p, |j: int| if j < w.len() { w[j] } else { '0' })
}

/// The magnitude in millionths, truncated toward zero, of the mantissa digits
/// `w` with `ilen` digits before the dot, times ten to `exp`: the number
/// formed by the first `ilen + exp + 6` digits of `w`.
pub open spec fn scaled_value(w: Seq<char>, ilen: int, exp: int) -> nat {
    let p = ilen + exp + 6;
    if p <= 0 {
        0
    } else {
        digits_value(pad(w, p as nat))
    }
}

/// What a coordinate text stands for, in millionths: an optional sign, a
/// mantissa of decimal digits with at most one dot and at least one digit,
/// then optionally `e` or `E`, an optional sign and decimal digits, as in
/// `-2.5e-3`. Digits past the millionths are dropped. The text is refused
/// where its magnitude reaches `COORD_LIMIT`, the bound of the `i64`
/// representation, and so is any other text (`NaN`, `inf`).
pub open spec fn coord_value(s: Seq<char>) -> Option<int> {
    let ip = int_part(s);
    let fp = frac_part(s);
    match exp_value(s) {
        Some(exp) => {
            let mag = scaled_value(ip + fp, ip.len() as int, exp);
            if all_digits(ip) && all_digits(fp) && ip.len() + fp.len() > 0 && mag < COORD_LIMIT {
                Some(if s[0] == '-' { -mag } else { mag as int })
            } else {
                None
            }
        },
        None => None,
    }
}

pub open spec fn coord_in_range(v: int) -> bool {
    -COORD_LIMIT < v < COORD_LIMIT
}

proof fn lemma_all_digits_sub(s: Seq<char>, j: int)
    requires
        all_digits(s),
        0 <= j <= s.len(),
    ensures
        all_digits(s.subrange(0, j)),
{
    assert forall|i: int| 0 <= i < j implies is_digit(#[trigger] s.subrange(0, j)[i]) by {
        assert(s.subrange(0, j)[i] == s[i]);
    }
}

/// A prefix of a digit string is worth no more than the whole.
proof fn lemma_prefix_le(s: Seq<char>, j: int)
    requires
        all_digits(s),
        0 <= j <= s.len(),
    ensures
        digits_value(s.subrange(0, j)) <= digits_value(s),
    decreases s.len(),
{
    if j < s.len() {
        let p = s.drop_last();
        lemma_all_digits_sub(s, s.len() - 1);
        assert(p =~= s.subrange(0, s.len() - 1));
        assert(p.subrange(0, j) =~= s.subrange(0, j));
        lemma_prefix_le(p, j);
    } else {
        assert(s.subrange(0, j) =~= s);
    }
}

/// A zero prefix followed by zeros is worth zero.
proof fn lemma_zero_tail(s: Seq<char>, j: int)
    requires
        0 <= j <= s.len(),
        digits_value(s.subrange(0, j)) == 0,
        forall|i: int| j <= i < s.len() ==> s[i] == '0',
    ensures
        digits_value(s) == 0,
    decreases s.len(),
{
    if j < s.len() {
        let p = s.drop_last();
        assert(p.subrange(0, j) =~= s.subrange(0, j));
        lemma_zero_tail(p, j);
    } else {
        assert(s.subrange(0, j) =~= s);
    }
}

/// The number formed by the first `pr` digits of the mantissa digits
/// `s[sl..d] + s[fs..e]`, padded with zeros, where it is below
/// `COORD_LIMIT`. `p` is `pr`, or a bound that no text length reaches.
fn scaled_digits(
    s: &str,
    sl: usize,
    d: usize,
    fs: usize,
    e: usize,
    p: u128,
    Ghost(pr): Ghost<int>,
) -> (r: Option<u64>)
    requires
        sl <= d <= fs <= e <= s@.len(),
        all_digits(s@.subrange(sl as int, d as int)),
        all_digits(s@.subrange(fs as int, e as int)),
        (d - sl) + (e - fs) > 0,
        0 < p <= pr,
        p < pr ==> p >= EXP_CAP,
    ensures
        ({
            let v = digits_value(pad(s@.subrange(sl as int, d as int) + s@.subrange(fs as int, e as int), pr as nat));
            match r {
                Some(a) => a as int == v && v < COORD_LIMIT,
                None => v >= COORD_LIMIT,
            }
        }),
{
    let ghost ip = s@.subrange(sl as int, d as int);
    let ghost fp = s@.subrange(fs as int, e as int);
    let ghost w = ip + fp;
    let ipl: usize = d - sl;
    let wl: usize = ipl + (e - fs);
    let n = s.unicode_len();
    assert forall|i: int| 0 <= i < w.len() implies is_digit(#[trigger] w[i]) by {
        if i < ip.len() {
            assert(w[i] == ip[i]);
        } else {
            assert(w[i] == fp[i - ip.len()]);
        }
    }
    let ghost pd = pad(w, pr as nat);
    assert(all_digits(pd));
    let lim: u64 = COORD_LIMIT as u64;
    let mut acc: u64 = 0;
    let mut j: u128 = 0;
    while j < p as u128
        invariant
            0 < p <= pr,
            p < pr ==> p >= EXP_CAP,
            all_digits(ip),
            all_digits(fp),
            wl > 0,
            sl <= d <= e <= n,
            d == sl + ipl,
            fs <= e,
            wl == ipl + (e - fs),
            j > wl ==> acc > 0,
            j <= p,
            wl == w.len(),
            wl <= n == s@.len(),
            ipl == ip.len(),
            w == ip + fp,
            ip == s@.subrange(sl as int, d as int),
            fp == s@.subrange(fs as int, e as int),
            pd == pad(w, pr as nat),
            all_digits(pd),
            lim == COORD_LIMIT,
            acc == capped(digits_value(pd.subrange(0, j as int)), lim as nat),
            j >= wl && acc > 0 ==> acc >= capped(pow10((j - wl) as nat), lim as nat),
        decreases p - j,
    {
        if acc == lim {
            proof {
                lemma_prefix_le(pd, j as int);
            }
            return None;
        }
        if j >= wl as u128 && acc == 0 {
            proof {
                lemma_zero_tail(pd, j as int);
            }
            return Some(0);
        }
        let c = if j < ipl as u128 {
            s.get_char(sl + j as usize)
        } else if j < wl as u128 {
            s.get_char(fs + (j as usize - ipl))
        } else {
            '0'
        };
        assert(pd[j as int] == c);
        assert(is_digit(c));
        proof {
            assert(pd.subrange(0, j + 1).drop_last() =~= pd.subrange(0, j as int));
            if j >= wl {
                assert(pow10((j + 1 - wl) as nat) == 10 * pow10((j - wl) as nat));
            }
        }
        let grown = acc * 10 + (c as u32 - '0' as u32) as u64;
        acc = if grown > lim {
            lim
        } else {
            grown
        };
        j = j + 1;
    }
    if acc == lim {
        proof {
            lemma_prefix_le(pd, j as int);
        }
        return None;
    }
    proof {
        if p < pr {
            assert(wl + 18 < EXP_CAP);
            lemma_pow10_mono(18, (p - wl) as nat);
            reveal_with_fuel(pow10, 19);
            assert(false);
        }
        assert(pd.subrange(0, pr) =~= pd);
    }
    Some(acc)
}

/// The exponent of a coordinate text whose marker stands at `e`, saturated at
/// `EXP_CAP`, with whether it is negative.
fn read_exponent(s: &str, e: usize) -> (r: Option<(u128, bool)>)
    requires
        e == exp_pos(s@),
        e <= s@.len(),
    ensures
        r is None <==> exp_value(s@) is None,
        r matches Some((v, neg)) ==> {
            let x = exp_value(s@)->Some_0;
            &&& v <= EXP_CAP
            &&& v < EXP_CAP ==> x == if neg { -(v as int) } else { v as int }
            &&& v == EXP_CAP ==> if neg { x <= -(EXP_CAP as int) } else { x >= EXP_CAP }
        },
{
    let n = s.unicode_len();
    if e == n {
        return Some((0, false));
    }
    let es: usize = e + 1;
    let esl: usize = if es < n && (s.get_char(es) == '-' || s.get_char(es) == '+') {
        1
    } else {
        0
    };
    let ghost t = s@.subrange(es as int, n as int);
    assert(esl == sign_len(t));
    assert(t.subrange(sign_len(t), t.len() as int) =~= s@.subrange(es + esl, n as int));
    if es + esl == n {
        return None;
    }
    let ev = match digits_capped(s, es + esl, n, EXP_CAP) {
        Some(v) => v,
        None => return None,
    };
    Some((ev, esl == 1 && s.get_char(es) == '-'))
}

/// Parses a coordinate, in millionths.
#[verifier::rlimit(80)]
pub fn parse_coord(s: &str) -> (r: Option<i64>)
    ensures
        r matches Some(v) ==> coord_value(s@) == Some(v as int) && coord_in_range(v as int),
        r is None ==> coord_value(s@) is None,
{
    let n = s.unicode_len();
    let sl: usize = if n > 0 && (s.get_char(0) == '-' || s.get_char(0) == '+') {
        1
    } else {
        0
    };
    assert(sl == sign_len(s@));
    let mut e: usize = sl;
    while e < n && s.get_char(e) != 'e' && s.get_char(e) != 'E'
        invariant
            sl <= e <= n,
            n == s@.len(),
            exp_from(s@, e as int) == exp_from(s@, sl as int),
        decreases n - e,
    {
        e = e + 1;
    }
    assert(exp_from(s@, e as int) == e);
    let mut d: usize = sl;
    while d < e && s.get_char(d) != '.'
        invariant
            sl <= d <= e <= n,
            n == s@.len(),
            dot_before(s@, d as int, e as int) == dot_before(s@, sl as int, e as int),
        decreases e - d,
    {
        d = d + 1;
    }
    assert(dot_before(s@, d as int, e as int) == d);
    let fs: usize = if d < e {
        d + 1
    } else {
        e
    };
    assert(frac_part(s@) =~= s@.subrange(fs as int, e as int));
    if digits_capped(s, sl, d, 1).is_none() || digits_capped(s, fs, e, 1).is_none() {
        return None;
    }
    let ipl: usize = d - sl;
    let wl: usize = ipl + (e - fs);
    if wl == 0 {
        return None;
    }
    let (ev, eneg) = match read_exponent(s, e) {
        Some(x) => x,
        None => return None,
    };
    let ghost exp = exp_value(s@)->Some_0;
    let ghost ip = int_part(s@);
    let ghost fp = frac_part(s@);
    let ghost w = ip + fp;
    let ghost pr = ipl + exp + 6;
    assert(ev < EXP_CAP ==> (if eneg { -(ev as int) } else { ev as int }) == exp);
    assert(ev == EXP_CAP ==> if eneg { exp <= -(EXP_CAP as int) } else { exp >= EXP_CAP });
    let p: i128 = if eneg {
        ipl as i128 + 6 - ev as i128
    } else {
        ipl as i128 + 6 + ev as i128
    };
    if p <= 0 {
        return Some(0);
    }
    assert(p <= pr);
    assert(p < pr ==> p >= EXP_CAP);
    let acc = match scaled_digits(s, sl, d, fs, e, p as u128, Ghost(pr)) {
        Some(v) => v,
        None => {
            assert(ip + fp =~= s@.subrange(sl as int, d as int) + s@.subrange(fs as int, e as int));
            return None;
        },
    };
    assert(ip + fp =~= s@.subrange(sl as int, d as int) + s@.subrange(fs as int, e as int));
    let mag: i64 = acc as i64;
    if s.get_char(0) == '-' {
        Some(-mag)
    } else {
        Some(mag)
    }
}

/// What a color channel text stands for: an optional `+`, then decimal digits
/// whose value is at most 255.
pub open spec fn channel_value(s: Seq<char>) -> Option<u8> {
    let b = if s.len() > 0 && s[0] == '+' {
        s.subrange(1, s.len() as int)
    } else {
        s
    };
    if b.len() > 0 && all_digits(b) && digits_value(b) <= 255 {
        Some(digits_value(b) as u8)
    } else {
        None
    }
}

/// Parses one color channel.
pub fn parse_channel(s: &str) -> (r: Option<u8>)
    ensures
        r == channel_value(s@),
{
    let n = s.unicode_len();
    let start: usize = if n > 0 && s.get_char(0) == '+' {
        1
    } else {
        0
    };
    assert(s@.subrange(0, n as int) =~= s@);
    if start == n {
        return None;
    }
    match digits_capped(s, start, n, 256) {
        Some(v) => {
            if v <= 255 {
                Some(v as u8)
            } else {
                None
            }
        },
        None => None,
    }
}

pub open spec fn digit_char(d: nat) -> char {
    if d == 0 {
        '0'
    } else if d == 1 {
        '1'
    } else if d == 2 {
        '2'
    } else if d == 3 {
        '3'
    } else if d == 4 {
        '4'
    } else if d == 5 {
        '5'
    } else if d == 6 {
        '6'
    } else if d == 7 {
        '7'
    } else if d == 8 {
        '8'
    } else {
        '9'
    }
}

/// Decimal digits of `n`, without leading zeros.
pub open spec fn int_text(n: nat) -> Seq<char>
    decreases n,
{
    if n < 10 {
        seq![digit_char(n)]
    } else {
        int_text(n / 10).push(digit_char(n % 10))
    }
}

/// The last `k` decimal digits of `n`, padded with leading zeros.
pub open spec fn fixed_text(n: nat, k: nat) -> Seq<char>
    decreases k,
{
    if k == 0 {
        Seq::empty()
    } else {
        fixed_text(n / 10, (k - 1) as nat).push(digit_char(n % 10))
    }
}

/// Drops trailing zero digits from a `k`-digit fraction `f`.
pub open spec fn trim_zeros(f: nat, k: nat) -> (nat, nat)
    decreases k,
{
    if k > 0 && f % 10 == 0 {
        trim_zeros(f / 10, (k - 1) as nat)
    } else {
        (f, k)
    }
}

/// A fraction in millionths, as a dot and its digits without trailing zeros;
/// nothing for zero.
pub open spec fn frac_text(f: nat) -> Seq<char> {
    if f == 0 {
        Seq::empty()
    } else {
        seq!['.'] + fixed_text(trim_zeros(f, 6).0, trim_zeros(f, 6).1)
    }
}

pub open spec fn abs(v: int) -> nat {
    if v < 0 {
        (-v) as nat
    } else {
        v as nat
    }
}

/// A coordinate in millionths, written as a decimal number.
pub open spec fn coord_text(v: int) -> Seq<char> {
    (if v < 0 {
        seq!['-']
    } else {
        Seq::empty()
    }) + int_text(abs(v) / COORD_SCALE as nat) + frac_text(abs(v) % COORD_SCALE as nat)
}

fn digit_str(d: u64) -> (r: &'static str)
    requires
        d < 10,
    ensures
        r@ == seq![digit_char(d as nat)],
{
    if d == 0 {
        proof { reveal_strlit("0"); }
        "0"
    } else if d == 1 {
        proof { reveal_strlit("1"); }
        "1"
    } else if d == 2 {
        proof { reveal_strlit("2"); }
        "2"
    } else if d == 3 {
        proof { reveal_strlit("3"); }
        "3"
    } else if d == 4 {
        proof { reveal_strlit("4"); }
        "4"
    } else if d == 5 {
        proof { reveal_strlit("5"); }
        "5"
    } else if d == 6 {
        proof { reveal_strlit("6"); }
        "6"
    } else if d == 7 {
        proof { reveal_strlit("7"); }
        "7"
    } else if d == 8 {
        proof { reveal_strlit("8"); }
        "8"
    } else {
        proof { reveal_strlit("9"); }
        "9"
    }
}

/// Appends the decimal digits of `n`.
pub fn push_int(s: &mut String, n: u64)
    ensures
        final(s)@ == old(s)@ + int_text(n as nat),
    decreases n,
{
    if n >= 10 {
        push_int(s, n / 10);
    }
    s.append(digit_str(n % 10));
    assert(final(s)@ =~= old(s)@ + int_text(n as nat));
}

fn push_fixed(s: &mut String, n: u64, k: u64)
    ensures
        final(s)@ == old(s)@ + fixed_text(n as nat, k as nat),
    decreases k,
{
    if k > 0 {
        push_fixed(s, n / 10, k - 1);
        s.append(digit_str(n % 10));
    }
    assert(final(s)@ =~= old(s)@ + fixed_text(n as nat, k as nat));
}

/// Appends a coordinate in millionths as a decimal number.
pub fn push_coord(s: &mut String, v: i64)
    ensures
        final(s)@ == old(s)@ + coord_text(v as int),
{
    let ghost start = s@;
    if v < 0 {
        proof { reveal_strlit("-"); }
        s.append("-");
    }
    let m: u64 = if v < 0 {
        (-(v as i128)) as u64
    } else {
        v as u64
    };
    assert(m == abs(v as int));
    push_int(s, m / COORD_SCALE);
    let f = m % COORD_SCALE;
    if f != 0 {
        proof { reveal_strlit("."); }
        s.append(".");
        let mut g = f;
        let mut k: u64 = 6;
        while k > 0 && g % 10 == 0
            invariant
                k <= 6,
                trim_zeros(g as nat, k as nat) == trim_zeros(f as nat, 6),
            decreases k,
        {
            g = g / 10;
            k = k - 1;
        }
        push_fixed(s, g, k);
    }
    assert(s@ =~= start + coord_text(v as int));
}

} // verus!
