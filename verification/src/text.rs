use vstd::prelude::*;

verus! {

/// `String::push` appends one character.
pub assume_specification[ String::push ](s: &mut String, ch: char)
    ensures
        final(s)@ == old(s)@.push(ch),
;

/// The character of the decimal digit `d`.
pub open spec fn digit_char(d: int) -> char {
    (d + 48) as char
}

/// The decimal digits of `n`, without leading zeros.
pub open spec fn digits(n: nat) -> Seq<char>
    decreases n,
{
    if n < 10 {
        seq![digit_char(n as int)]
    } else {
        digits(n / 10) + seq![digit_char((n % 10) as int)]
    }
}

/// `n` written in decimal, with a minus sign when it is negative.
pub open spec fn decimal(n: int) -> Seq<char> {
    if n < 0 {
        seq!['-'] + digits((-n) as nat)
    } else {
        digits(n as nat)
    }
}

/// Appends the characters `cs`.
pub fn push_chars(out: &mut String, cs: &Vec<char>)
    ensures
        final(out)@ == old(out)@ + cs@,
{
    let n = cs.len();
    let mut i: usize = 0;
    while i < n
        invariant
            i <= n,
            n == cs@.len(),
            out@ == old(out)@ + cs@.take(i as int),
        decreases n - i,
    {
        out.push(cs[i]);
        assert(cs@.take(i + 1) =~= cs@.take(i as int).push(cs@[i as int]));
        i = i + 1;
    }
    assert(cs@.take(n as int) =~= cs@);
}

/// Appends `n` written in decimal.
pub fn push_decimal(out: &mut String, n: i32)
    ensures
        final(out)@ == old(out)@ + decimal(n as int),
{
    let mut rest: u64 = if n < 0 {
        (-(n as i64)) as u64
    } else {
        n as u64
    };
    let ghost m = rest as nat;
    let mut acc: Vec<char> = Vec::new();
    while rest >= 10
        invariant
            digits(m) == digits(rest as nat) + acc@,
        decreases rest,
    {
        let ch = ((rest % 10) as u8 + 48u8) as char;
        assert(ch == digit_char((rest % 10) as int));
        acc.insert(0, ch);
        assert(digits(rest as nat) == digits((rest / 10) as nat) + seq![ch]);
        rest = rest / 10;
    }
    let ch = (rest as u8 + 48u8) as char;
    assert(ch == digit_char(rest as int));
    acc.insert(0, ch);
    assert(acc@ =~= digits(m));
    if n < 0 {
        out.push('-');
    }
    push_chars(out, &acc);
    assert(decimal(n as int) =~= if n < 0 { seq!['-'] + digits(m) } else { digits(m) });
}


/// `c` is white space in the sense of Unicode's `White_Space` property, as
/// `char::is_whitespace` decides it.
pub open spec fn is_ws(c: char) -> bool {
    let u = c as u32;
    (9 <= u <= 13) || u == 32 || u == 0x85 || u == 0xA0 || u == 0x1680 || (0x2000 <= u <= 0x200A)
        || u == 0x2028 || u == 0x2029 || u == 0x202F || u == 0x205F || u == 0x3000
}

pub fn is_whitespace(c: char) -> (r: bool)
    ensures
        r == is_ws(c),
{
    let u = c as u32;
    (9 <= u && u <= 13) || u == 32 || u == 0x85 || u == 0xA0 || u == 0x1680 || (0x2000 <= u && u
        <= 0x200A) || u == 0x2028 || u == 0x2029 || u == 0x202F || u == 0x205F || u == 0x3000
}

/// `s` without its leading white space.
pub open spec fn trim_start(s: Seq<char>) -> Seq<char>
    decreases s.len(),
{
    if s.len() > 0 && is_ws(s[0]) {
        trim_start(s.drop_first())
    } else {
        s
    }
}

/// `s` without its trailing white space.
pub open spec fn trim_end(s: Seq<char>) -> Seq<char>
    decreases s.len(),
{
    if s.len() > 0 && is_ws(s.last()) {
        trim_end(s.drop_last())
    } else {
        s
    }
}

/// `s` without its leading and trailing white space, as `str::trim` gives it.
pub open spec fn trim(s: Seq<char>) -> Seq<char> {
    trim_end(trim_start(s))
}

pub proof fn lemma_trim_start_shape(s: Seq<char>)
    ensures
        trim_start(s).len() <= s.len(),
        trim_start(s) =~= s.subrange(s.len() - trim_start(s).len(), s.len() as int),
        trim_start(s).len() == 0 || !is_ws(trim_start(s)[0]),
    decreases s.len(),
{
    if s.len() > 0 && is_ws(s[0]) {
        lemma_trim_start_shape(s.drop_first());
    }
}

pub proof fn lemma_trim_end_shape(s: Seq<char>)
    ensures
        trim_end(s).len() <= s.len(),
        trim_end(s) =~= s.subrange(0, trim_end(s).len() as int),
        trim_end(s).len() == 0 || !is_ws(trim_end(s).last()),
    decreases s.len(),
{
    if s.len() > 0 && is_ws(s.last()) {
        lemma_trim_end_shape(s.drop_last());
    }
}

/// Trimming twice is trimming once.
pub proof fn lemma_trim_idempotent(s: Seq<char>)
    ensures
        trim(trim(s)) == trim(s),
{
    let z = trim_start(s);
    let y = trim_end(z);
    lemma_trim_start_shape(s);
    lemma_trim_end_shape(z);
    if y.len() > 0 {
        assert(y[0] == z[0]);
    }
    assert(trim_start(y) == y);
    lemma_trim_end_shape(y);
    if y.len() > 0 {
        assert(!is_ws(y.last()));
    }
    assert(trim_end(y) == y);
}

/// The characters of `v` from `lo` to `hi` without leading and trailing white space,
/// as a range `(a, b)` of `v`.
pub fn trim_range(v: &Vec<char>, lo: usize, hi: usize) -> (r: (usize, usize))
    requires
        lo <= hi <= v@.len(),
    ensures
        lo <= r.0 <= r.1 <= hi,
        v@.subrange(r.0 as int, r.1 as int) == trim(v@.subrange(lo as int, hi as int)),
{
    let mut a = lo;
    while a < hi && is_whitespace(v[a])
        invariant
            lo <= a <= hi <= v@.len(),
            trim_start(v@.subrange(lo as int, hi as int)) == trim_start(v@.subrange(a as int, hi as int)),
        decreases hi - a,
    {
        assert(v@.subrange(a as int, hi as int).drop_first() =~= v@.subrange(a + 1, hi as int));
        a = a + 1;
    }
    let mut b = hi;
    while b > a && is_whitespace(v[b - 1])
        invariant
            lo <= a <= b <= hi <= v@.len(),
            trim(v@.subrange(lo as int, hi as int)) == trim_end(v@.subrange(a as int, b as int)),
        decreases b - a,
    {
        assert(v@.subrange(a as int, b as int).drop_last() =~= v@.subrange(a as int, b - 1));
        b = b - 1;
    }
    (a, b)
}

/// The index of the first `c` in `s`, if any.
pub open spec fn find_char(s: Seq<char>, c: char) -> Option<int>
    decreases s.len(),
{
    if s.len() == 0 {
        None
    } else if s.last() == c && find_char(s.drop_last(), c) is None {
        Some(s.len() - 1)
    } else {
        find_char(s.drop_last(), c)
    }
}

pub proof fn lemma_find_char(s: Seq<char>, c: char)
    ensures
        find_char(s, c) matches Some(i) ==> 0 <= i < s.len() && s[i] == c && forall|j: int|
            0 <= j < i ==> s[j] != c,
        find_char(s, c) is None ==> forall|j: int| 0 <= j < s.len() ==> s[j] != c,
    decreases s.len(),
{
    if s.len() > 0 {
        let t = s.drop_last();
        lemma_find_char(t, c);
        assert forall|j: int| 0 <= j < t.len() implies t[j] == s[j] by {}
    }
}

/// The first `c` among the characters of `v` from `lo` to `hi`, as an index of `v`.
pub fn find_in_range(v: &Vec<char>, lo: usize, hi: usize, c: char) -> (r: Option<usize>)
    requires
        lo <= hi <= v@.len(),
    ensures
        r matches Some(i) ==> lo <= i < hi && find_char(v@.subrange(lo as int, hi as int), c) == Some(
            i - lo,
        ),
        r is None ==> find_char(v@.subrange(lo as int, hi as int), c) is None,
{
    let mut i = lo;
    while i < hi
        invariant
            lo <= i <= hi <= v@.len(),
            forall|j: int| lo <= j < i ==> v@[j] != c,
        decreases hi - i,
    {
        if v[i] == c {
            proof {
                let s = v@.subrange(lo as int, hi as int);
                lemma_find_char(s, c);
                let k = i - lo;
                match find_char(s, c) {
                    Some(m) => {
                        if m < k {
                            assert(s[m] == v@[lo + m]);
                        } else if m > k {
                            assert(s[k] == c);
                        }
                    },
                    None => {
                        assert(s[k] == c);
                    },
                }
            }
            return Some(i);
        }
        i = i + 1;
    }
    proof {
        let s = v@.subrange(lo as int, hi as int);
        lemma_find_char(s, c);
        match find_char(s, c) {
            Some(m) => {
                assert(s[m] == v@[lo + m]);
            },
            None => {},
        }
    }
    None
}


/// `c` is one of the ASCII digits `0` to `9`.
pub open spec fn is_digit(c: char) -> bool {
    48 <= c as u32 <= 57
}

pub open spec fn digit_value(c: char) -> int {
    c as u32 - 48
}

pub open spec fn all_digits(s: Seq<char>) -> bool {
    forall|i: int| 0 <= i < s.len() ==> is_digit(#[trigger] s[i])
}

/// The number that the digits `s` write in decimal.
pub open spec fn digits_value(s: Seq<char>) -> int
    decreases s.len(),
{
    if s.len() == 0 {
        0
    } else {
        digits_value(s.drop_last()) * 10 + digit_value(s.last())
    }
}

/// What `str::parse::<i32>` gives for `s`: an optional `+` or `-` and at least one
/// digit, naming a number in the range of `i32`; `None` for anything else.
pub open spec fn parse_i32_text(s: Seq<char>) -> Option<i32> {
    if s.len() == 0 {
        None
    } else {
        let body = if s[0] == '-' || s[0] == '+' {
            s.drop_first()
        } else {
            s
        };
        let v = if s[0] == '-' {
            -digits_value(body)
        } else {
            digits_value(body)
        };
        if body.len() == 0 || !all_digits(body) || v < i32::MIN || v > i32::MAX {
            None
        } else {
            Some(v as i32)
        }
    }
}

/// What `str::parse::<u8>` gives for `s`: an optional `+` and at least one digit,
/// naming a number in the range of `u8`; `None` for anything else.
pub open spec fn parse_u8_text(s: Seq<char>) -> Option<u8> {
    if s.len() == 0 {
        None
    } else {
        let body = if s[0] == '+' {
            s.drop_first()
        } else {
            s
        };
        if body.len() == 0 || !all_digits(body) || digits_value(body) > u8::MAX {
            None
        } else {
            Some(digits_value(body) as u8)
        }
    }
}

/// Above this bound the exact value of a digit string no longer matters.
pub const DIGITS_CAP: u64 = 0x1_0000_0000;

pub proof fn lemma_digits_value_nonneg(s: Seq<char>)
    requires
        all_digits(s),
    ensures
        digits_value(s) >= 0,
    decreases s.len(),
{
    if s.len() > 0 {
        assert(is_digit(s[s.len() - 1]));
        assert(all_digits(s.drop_last())) by {
            assert forall|i: int| 0 <= i < s.len() - 1 implies is_digit(#[trigger] s.drop_last()[i]) by {
                assert(s.drop_last()[i] == s[i]);
            }
        }
        lemma_digits_value_nonneg(s.drop_last());
    }
}

/// The value of the digits of `v` from `lo` to `hi`, capped at `DIGITS_CAP`; `None`
/// where the range is empty or holds something other than a digit.
fn scan_digits(v: &Vec<char>, lo: usize, hi: usize) -> (r: Option<u64>)
    requires
        lo <= hi <= v@.len(),
    ensures
        r is Some <==> (hi > lo && all_digits(v@.subrange(lo as int, hi as int))),
        r matches Some(x) ==> {
            &&& x <= DIGITS_CAP
            &&& (x < DIGITS_CAP ==> x == digits_value(v@.subrange(lo as int, hi as int)))
            &&& (x == DIGITS_CAP ==> digits_value(v@.subrange(lo as int, hi as int)) >= DIGITS_CAP)
        },
{
    if lo == hi {
        return None;
    }
    let mut acc: u64 = 0;
    let mut i = lo;
    while i < hi
        invariant
            lo <= i <= hi <= v@.len(),
            all_digits(v@.subrange(lo as int, i as int)),
            acc <= DIGITS_CAP,
            acc < DIGITS_CAP ==> acc == digits_value(v@.subrange(lo as int, i as int)),
            acc == DIGITS_CAP ==> digits_value(v@.subrange(lo as int, i as int)) >= DIGITS_CAP,
        decreases hi - i,
    {
        let c = v[i];
        let u = c as u32;
        if u < 48 || u > 57 {
            proof {
                let t = v@.subrange(lo as int, hi as int);
                assert(t[i - lo] == c);
            }
            return None;
        }
        let ghost prev = v@.subrange(lo as int, i as int);
        let ghost next = v@.subrange(lo as int, i + 1);
        proof {
            assert(next.drop_last() =~= prev);
            assert(next.last() == c);
            assert(all_digits(next)) by {
                assert forall|k: int| 0 <= k < next.len() implies is_digit(#[trigger] next[k]) by {
                    if k < prev.len() {
                        assert(next[k] == prev[k]);
                    }
                }
            }
            lemma_digits_value_nonneg(prev);
        }
        let d = (u - 48) as u64;
        if acc < DIGITS_CAP {
            let n = acc * 10 + d;
            acc = if n < DIGITS_CAP {
                n
            } else {
                DIGITS_CAP
            };
        }
        i = i + 1;
    }
    Some(acc)
}

/// `str::parse::<i32>` of the characters of `v` from `lo` to `hi`.
pub fn text_to_i32(v: &Vec<char>, lo: usize, hi: usize) -> (r: Option<i32>)
    requires
        lo <= hi <= v@.len(),
    ensures
        r == parse_i32_text(v@.subrange(lo as int, hi as int)),
{
    let ghost s = v@.subrange(lo as int, hi as int);
    if lo == hi {
        return None;
    }
    let first = v[lo];
    let start = if first == '-' || first == '+' {
        lo + 1
    } else {
        lo
    };
    assert(s[0] == first);
    let ghost body = v@.subrange(start as int, hi as int);
    assert(body =~= if first == '-' || first == '+' {
        s.drop_first()
    } else {
        s
    });
    match scan_digits(v, start, hi) {
        None => None,
        Some(m) => {
            if first == '-' {
                if m <= 0x8000_0000 {
                    Some((-(m as i64)) as i32)
                } else {
                    None
                }
            } else {
                if m <= 0x7fff_ffff {
                    Some(m as i32)
                } else {
                    None
                }
            }
        },
    }
}

/// `str::parse::<u8>` of the characters of `v` from `lo` to `hi`.
pub fn text_to_u8(v: &Vec<char>, lo: usize, hi: usize) -> (r: Option<u8>)
    requires
        lo <= hi <= v@.len(),
    ensures
        r == parse_u8_text(v@.subrange(lo as int, hi as int)),
{
    let ghost s = v@.subrange(lo as int, hi as int);
    if lo == hi {
        return None;
    }
    let first = v[lo];
    let start = if first == '+' {
        lo + 1
    } else {
        lo
    };
    assert(s[0] == first);
    let ghost body = v@.subrange(start as int, hi as int);
    assert(body =~= if first == '+' {
        s.drop_first()
    } else {
        s
    });
    match scan_digits(v, start, hi) {
        None => None,
        Some(m) => {
            if m <= 255 {
                Some(m as u8)
            } else {
                None
            }
        },
    }
}


pub proof fn lemma_digits(m: nat)
    ensures
        digits(m).len() >= 1,
        all_digits(digits(m)),
        digits_value(digits(m)) == m,
    decreases m,
{
    if m < 10 {
        let c = digit_char(m as int);
        assert(c as u32 == m + 48);
        assert(digits(m)[0] == c);
        assert(digits(m).drop_last() =~= Seq::<char>::empty());
        assert(digits_value(digits(m)) == digits_value(Seq::<char>::empty()) * 10 + digit_value(c));
    } else {
        lemma_digits(m / 10);
        let c = digit_char((m % 10) as int);
        assert(c as u32 == m % 10 + 48);
        let s = digits(m);
        assert(s.drop_last() =~= digits(m / 10));
        assert(s.last() == c);
        assert(m == (m / 10) * 10 + m % 10);
        assert(digits_value(s) == digits_value(digits(m / 10)) * 10 + digit_value(c));
        assert forall|i: int| 0 <= i < s.len() implies is_digit(#[trigger] s[i]) by {
            if i < s.len() - 1 {
                assert(s[i] == digits(m / 10)[i]);
            }
        }
    }
}

/// Writing a number in decimal and reading it back gives the number: what the
/// commands write of a snake id, the input format reads as that id.
pub proof fn law_decimal_round_trip(n: i32)
    ensures
        parse_i32_text(decimal(n as int)) == Some(n),
{
    if n < 0 {
        let m = (-n) as nat;
        lemma_digits(m);
        let s = decimal(n as int);
        assert(s[0] == '-');
        assert(s.drop_first() =~= digits(m));
    } else {
        let m = n as nat;
        lemma_digits(m);
        let s = digits(m);
        assert(is_digit(s[0]));
    }
}

} // verus!
