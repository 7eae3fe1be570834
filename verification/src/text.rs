//! The small grammar that task files are written in: separators, blanks and
//! decimal numbers. Times are kept as whole ticks, as fine as the text asks.

use vstd::prelude::*;

verus! {

/// The place of the first `c` in `s`, or the length of `s` if it holds none.
pub open spec fn position(s: Seq<char>, c: char) -> int
    decreases s.len(),
{
    if s.len() == 0 || s[0] == c {
        0
    } else {
        1 + position(s.drop_first(), c)
    }
}

/// Space, tab, carriage return and line feed.
pub open spec fn is_blank(c: char) -> bool {
    c == ' ' || c == '\t' || c == '\r' || c == '\n'
}

/// `s` without the blanks it begins with.
pub open spec fn trim_start(s: Seq<char>) -> Seq<char>
    decreases s.len(),
{
    if s.len() > 0 && is_blank(s[0]) {
        trim_start(s.drop_first())
    } else {
        s
    }
}

/// `s` without the blanks it ends with.
pub open spec fn trim_end(s: Seq<char>) -> Seq<char>
    decreases s.len(),
{
    if s.len() > 0 && is_blank(s.last()) {
        trim_end(s.drop_last())
    } else {
        s
    }
}

/// `s` without the blanks around it.
pub open spec fn trim(s: Seq<char>) -> Seq<char> {
    trim_end(trim_start(s))
}

/// One of `0` to `9`.
pub open spec fn is_digit(c: char) -> bool {
    '0' <= c <= '9'
}

/// Every character of `s` is a digit.
pub open spec fn all_digits(s: Seq<char>) -> bool {
    forall|i: int| 0 <= i < s.len() ==> is_digit(#[trigger] s[i])
}

/// The number that the digits `s` write in base ten.
pub open spec fn decimal(s: Seq<char>) -> nat
    decreases s.len(),
{
    if s.len() == 0 {
        0
    } else {
        (decimal(s.drop_last()) * 10 + (s.last() as u32 - '0' as u32)) as nat
    }
}

/// The number that `s` writes, if `s` is one or more digits and the number is
/// at most `limit`.
pub open spec fn number(s: Seq<char>, limit: u64) -> Option<u64> {
    if s.len() > 0 && all_digits(s) && decimal(s) <= limit {
        Some(decimal(s) as u64)
    } else {
        None
    }
}

/// `n` zeros.
pub open spec fn zeros(n: int) -> Seq<char> {
    Seq::new(
        if n > 0 {
            n as nat
        } else {
            0
        },
        |i: int| '0',
    )
}

/// What stands before the decimal point of `s`.
pub open spec fn whole_part(s: Seq<char>) -> Seq<char> {
    s.subrange(0, position(s, '.'))
}

/// What stands behind the decimal point of `s`; nothing if `s` has none.
pub open spec fn fraction_part(s: Seq<char>) -> Seq<char> {
    if position(s, '.') < s.len() {
        s.subrange(position(s, '.') + 1, s.len() as int)
    } else {
        Seq::empty()
    }
}

/// `s` without the plus sign that it may begin with.
pub open spec fn unsigned(s: Seq<char>) -> Seq<char> {
    if s.len() > 0 && s[0] == '+' {
        s.drop_first()
    } else {
        s
    }
}

/// The largest power of ten, up or down, that a time may be written with.
pub const EXPONENT_LIMIT: u64 = 999;

/// The most decimal places that a time is read to.
pub const PLACES_LIMIT: usize = 1_000_000;

/// The place of the exponent mark of `s`, an `e` or `E`; the length of `s` if
/// it has none.
pub open spec fn mark(s: Seq<char>) -> int {
    if position(s, 'e') <= position(s, 'E') {
        position(s, 'e')
    } else {
        position(s, 'E')
    }
}

/// What stands before the exponent mark of `s`.
pub open spec fn mantissa(s: Seq<char>) -> Seq<char> {
    s.subrange(0, mark(s))
}

/// The power of ten that `s` is written with: zero if it has no exponent
/// mark, and else the number behind the mark, of at most `EXPONENT_LIMIT`,
/// with its sign. `None` where no such number stands there.
pub open spec fn exponent(s: Seq<char>) -> Option<int> {
    if mark(s) >= s.len() {
        Some(0)
    } else {
        let power = s.subrange(mark(s) + 1, s.len() as int);
        if power.len() > 0 && power[0] == '-' {
            match number(power.drop_first(), EXPONENT_LIMIT) {
                Some(n) => Some(-(n as int)),
                None => None,
            }
        } else {
            match number(unsigned(power), EXPONENT_LIMIT) {
                Some(n) => Some(n as int),
                None => None,
            }
        }
    }
}

/// The number of decimal places that the time `s` asks for: the digits behind
/// its point, less its power of ten; at least none and at most
/// `PLACES_LIMIT`.
pub open spec fn decimals(s: Seq<char>) -> nat {
    match exponent(unsigned(s)) {
        None => 0,
        Some(e) => {
            let asked = fraction_part(mantissa(unsigned(s))).len() - e;
            if asked <= 0 {
                0
            } else if asked > PLACES_LIMIT {
                PLACES_LIMIT as nat
            } else {
                asked as nat
            }
        },
    }
}

/// The time that `s` writes, in ticks of which ten to the power of `places`
/// make one unit. `s` is a decimal number such as `12`, `2.5`, `.5`, `+3.` or
/// `1.5e-3`: after an optional plus sign, digits with at most one point among
/// them, and then an optional power of ten. Its value in ticks is the number
/// that the digits write without the point, once zeros are added for the
/// places that the time does not ask for. A time that asks for more than
/// `places`, anything else, and a time that does not fit in 64 bits, is no
/// time.
pub open spec fn ticks(s: Seq<char>, places: nat) -> Option<u64> {
    let whole = whole_part(mantissa(unsigned(s)));
    let fraction = fraction_part(mantissa(unsigned(s)));
    match exponent(unsigned(s)) {
        None => None,
        Some(e) => if whole.len() + fraction.len() > 0 && fraction.len() - e <= places {
            number(whole + fraction + zeros(places - (fraction.len() - e)), u64::MAX)
        } else {
            None
        },
    }
}

/// A position lies within the sequence or at its end.
pub proof fn lemma_position_bounds(s: Seq<char>, c: char)
    ensures
        0 <= position(s, c) <= s.len(),
    decreases s.len(),
{
    if s.len() > 0 && s[0] != c {
        lemma_position_bounds(s.drop_first(), c);
    }
}

/// `position` is the place before which no `c` stands and at which one does.
pub proof fn lemma_position(s: Seq<char>, c: char, n: int)
    requires
        0 <= n <= s.len(),
        forall|k: int| 0 <= k < n ==> s[k] != c,
        n == s.len() || s[n] == c,
    ensures
        position(s, c) == n,
    decreases n,
{
    if n > 0 {
        let rest = s.drop_first();
        assert forall|k: int| 0 <= k < n - 1 implies rest[k] != c by {
            assert(rest[k] == s[k + 1]);
        }
        assert(s[0] != c);
        lemma_position(rest, c, n - 1);
    }
}

/// The place of the first `c` among `chars[from..to]`, counted from the
/// start of `chars`; `to` if there is none.
pub fn find(chars: &Vec<char>, from: usize, to: usize, c: char) -> (at: usize)
    requires
        from <= to <= chars@.len(),
    ensures
        from <= at <= to,
        at == from + position(chars@.subrange(from as int, to as int), c),
{
    let mut at: usize = from;
    while at < to && chars[at] != c
        invariant
            from <= at <= to <= chars@.len(),
            forall|k: int| from <= k < at ==> chars@[k] != c,
        decreases to - at,
    {
        at += 1;
    }
    proof {
        lemma_position(chars@.subrange(from as int, to as int), c, at - from);
    }
    at
}

fn blank(c: char) -> (b: bool)
    ensures
        b == is_blank(c),
{
    c == ' ' || c == '\t' || c == '\r' || c == '\n'
}

/// The bounds of `chars[from..to]` without the blanks around it.
pub fn trim_bounds(chars: &Vec<char>, from: usize, to: usize) -> (bounds: (usize, usize))
    requires
        from <= to <= chars@.len(),
    ensures
        from <= bounds.0 <= bounds.1 <= to,
        chars@.subrange(bounds.0 as int, bounds.1 as int) == trim(
            chars@.subrange(from as int, to as int),
        ),
{
    let mut a: usize = from;
    while a < to && blank(chars[a])
        invariant
            from <= a <= to <= chars@.len(),
            trim_start(chars@.subrange(from as int, to as int)) == trim_start(
                chars@.subrange(a as int, to as int),
            ),
        decreases to - a,
    {
        proof {
            assert(chars@.subrange(a as int, to as int).drop_first() =~= chars@.subrange(
                a + 1,
                to as int,
            ));
        }
        a += 1;
    }
    let mut b: usize = to;
    while b > a && blank(chars[b - 1])
        invariant
            a <= b <= to <= chars@.len(),
            trim_end(chars@.subrange(a as int, to as int)) == trim_end(
                chars@.subrange(a as int, b as int),
            ),
        decreases b,
    {
        proof {
            assert(chars@.subrange(a as int, b as int).drop_last() =~= chars@.subrange(
                a as int,
                b - 1,
            ));
        }
        b -= 1;
    }
    (a, b)
}

proof fn lemma_decimal_grows(s: Seq<char>, k: int)
    requires
        0 <= k <= s.len(),
        all_digits(s),
    ensures
        decimal(s.take(k)) <= decimal(s),
    decreases s.len() - k,
{
    if k == s.len() {
        assert(s.take(k) =~= s);
    } else {
        lemma_decimal_grows(s, k + 1);
        assert(s.take(k + 1).drop_last() =~= s.take(k));
        assert(is_digit(s[k]));
        assert(s.take(k + 1).last() == s[k]);
    }
}

/// Reads `chars[from..to]` as a number of at most `limit`.
pub fn read_number(chars: &Vec<char>, from: usize, to: usize, limit: u64) -> (value: Option<u64>)
    requires
        from <= to <= chars@.len(),
    ensures
        value == number(chars@.subrange(from as int, to as int), limit),
{
    if from == to {
        return None;
    }
    let ghost s = chars@.subrange(from as int, to as int);
    let mut value: u64 = 0;
    let mut i: usize = from;
    proof {
        assert(s.take(0) =~= Seq::<char>::empty());
    }
    while i < to
        invariant
            from <= i <= to <= chars@.len(),
            s == chars@.subrange(from as int, to as int),
            all_digits(s.take(i - from)),
            value == decimal(s.take(i - from)),
            value <= limit,
        decreases to - i,
    {
        let c = chars[i];
        proof {
            assert(s[i - from] == c);
            assert(s.take(i - from + 1).drop_last() =~= s.take(i - from));
            assert(s.take(i - from + 1).last() == c);
        }
        if !(c >= '0' && c <= '9') {
            return None;
        }
        let digit = (c as u32 - '0' as u32) as u64;
        let ghost next = value * 10 + digit;
        proof {
            assert(all_digits(s.take(i - from + 1))) by {
                assert forall|k: int| 0 <= k < i - from + 1 implies is_digit(
                    #[trigger] s.take(i - from + 1)[k],
                ) by {
                    if k < i - from {
                        assert(s.take(i - from)[k] == s[k]);
                    }
                }
            }
            assert(decimal(s.take(i - from + 1)) == next);
            if next > limit {
                if all_digits(s) {
                    lemma_decimal_grows(s, i - from + 1);
                }
            }
        }
        if value > limit / 10 {
            return None;
        }
        if digit > limit - value * 10 {
            return None;
        }
        value = value * 10 + digit;
        i += 1;
    }
    proof {
        assert(s.take(to - from) =~= s);
    }
    Some(value)
}

/// The place behind the plus sign that `chars[from..to]` may begin with.
fn behind_sign(chars: &Vec<char>, from: usize, to: usize) -> (start: usize)
    requires
        from <= to <= chars@.len(),
    ensures
        from <= start <= to,
        chars@.subrange(start as int, to as int) == unsigned(chars@.subrange(from as int, to as int)),
{
    let ghost s = chars@.subrange(from as int, to as int);
    if from < to && chars[from] == '+' {
        proof {
            assert(s[0] == '+');
            assert(s.drop_first() =~= chars@.subrange(from + 1, to as int));
        }
        from + 1
    } else {
        proof {
            if from < to {
                assert(s[0] == chars@[from as int]);
            }
        }
        from
    }
}

/// The place of the exponent mark of `chars[from..to]`, and the power of ten
/// behind it as a sign and a size.
fn read_exponent(chars: &Vec<char>, from: usize, to: usize) -> (res: (usize, Option<(bool, u64)>))
    requires
        from <= to <= chars@.len(),
    ensures
        from <= res.0 <= to,
        res.0 == from + mark(chars@.subrange(from as int, to as int)),
        match exponent(chars@.subrange(from as int, to as int)) {
            Some(e) => res.1 matches Some(power) && power.1 <= EXPONENT_LIMIT && e == if power.0 {
                -(power.1 as int)
            } else {
                power.1 as int
            },
            None => res.1 is None,
        },
{
    let ghost body = chars@.subrange(from as int, to as int);
    let small = find(chars, from, to, 'e');
    let capital = find(chars, from, to, 'E');
    let m = if small <= capital {
        small
    } else {
        capital
    };
    if m == to {
        return (m, Some((false, 0)));
    }
    let ghost power = body.subrange(m - from + 1, body.len() as int);
    proof {
        assert(power =~= chars@.subrange(m + 1, to as int));
    }
    if m + 1 < to && chars[m + 1] == '-' {
        proof {
            assert(power[0] == '-');
            assert(power.drop_first() =~= chars@.subrange(m + 2, to as int));
        }
        match read_number(chars, m + 2, to, EXPONENT_LIMIT) {
            Some(n) => (m, Some((true, n))),
            None => (m, None),
        }
    } else {
        proof {
            if m + 1 < to {
                assert(power[0] == chars@[m + 1]);
            }
        }
        let start = behind_sign(chars, m + 1, to);
        match read_number(chars, start, to, EXPONENT_LIMIT) {
            Some(n) => (m, Some((false, n))),
            None => (m, None),
        }
    }
}

/// The number of decimal places that the time `chars[from..to]` asks for.
pub fn count_decimals(chars: &Vec<char>, from: usize, to: usize) -> (places: usize)
    requires
        from <= to <= chars@.len(),
    ensures
        places == decimals(chars@.subrange(from as int, to as int)),
{
    let start = behind_sign(chars, from, to);
    let ghost body = chars@.subrange(start as int, to as int);
    let (m, power) = read_exponent(chars, start, to);
    let (negative, size) = match power {
        Some(power) => power,
        None => {
            return 0;
        },
    };
    let dot = find(chars, start, m, '.');
    proof {
        assert(mantissa(body) =~= chars@.subrange(start as int, m as int));
        if dot < m {
            assert(fraction_part(mantissa(body)) =~= chars@.subrange(dot + 1, m as int));
        }
    }
    let written: u128 = if dot < m {
        (m - dot - 1) as u128
    } else {
        0
    };
    let asked: u128 = if negative {
        written + size as u128
    } else if written > size as u128 {
        written - size as u128
    } else {
        0
    };
    if asked > PLACES_LIMIT as u128 {
        PLACES_LIMIT
    } else {
        asked as usize
    }
}

/// Reads `chars[from..to]` as a time in ticks of which ten to the power of
/// `places` make one unit.
pub fn read_ticks(chars: &Vec<char>, from: usize, to: usize, places: usize) -> (value: Option<u64>)
    requires
        from <= to <= chars@.len(),
    ensures
        value == ticks(chars@.subrange(from as int, to as int), places as nat),
{
    let start = behind_sign(chars, from, to);
    let ghost body = chars@.subrange(start as int, to as int);
    let (m, power) = read_exponent(chars, start, to);
    let (negative, size) = match power {
        Some(power) => power,
        None => {
            return None;
        },
    };
    let ghost s = mantissa(body);
    let dot = find(chars, start, m, '.');
    let behind = if dot < m {
        dot + 1
    } else {
        m
    };
    let ghost whole = whole_part(s);
    let ghost fraction = fraction_part(s);
    proof {
        assert(s =~= chars@.subrange(start as int, m as int));
        assert(whole =~= chars@.subrange(start as int, dot as int));
        assert(fraction =~= chars@.subrange(behind as int, m as int));
    }
    if (dot - start) + (m - behind) == 0 {
        return None;
    }
    let written: u128 = (m - behind) as u128;
    let room: u128 = if negative {
        places as u128
    } else {
        places as u128 + size as u128
    };
    let taken: u128 = if negative {
        written + size as u128
    } else {
        written
    };
    if taken > room {
        return None;
    }
    let ghost e: int = if negative {
        -(size as int)
    } else {
        size as int
    };
    let fill: u128 = room - taken;
    let mut digits: Vec<char> = Vec::new();
    let mut i: usize = start;
    while i < dot
        invariant
            start <= i <= dot <= chars@.len(),
            digits@ == chars@.subrange(start as int, i as int),
        decreases dot - i,
    {
        digits.push(chars[i]);
        proof {
            assert(digits@ =~= chars@.subrange(start as int, i + 1));
        }
        i += 1;
    }
    i = behind;
    while i < m
        invariant
            behind <= i <= m <= chars@.len(),
            digits@ == whole + chars@.subrange(behind as int, i as int),
        decreases m - i,
    {
        digits.push(chars[i]);
        proof {
            assert(digits@ =~= whole + chars@.subrange(behind as int, i + 1));
        }
        i += 1;
    }
    let mut filled: u128 = 0;
    proof {
        assert(digits@ =~= whole + fraction + zeros(0));
    }
    while filled < fill
        invariant
            filled <= fill,
            digits@ == whole + fraction + zeros(filled as int),
        decreases fill - filled,
    {
        digits.push('0');
        proof {
            assert(digits@ =~= whole + fraction + zeros(filled + 1));
        }
        filled += 1;
    }
    proof {
        assert(fill == places - (fraction.len() - e));
        assert(digits@.subrange(0, digits@.len() as int) =~= digits@);
    }
    read_number(&digits, 0, digits.len(), u64::MAX)
}

} // verus!
