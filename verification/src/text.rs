use vstd::prelude::*;

verus! {

/// Appends one character to a string.
///
/// Trusted: calls `String::push`, whose documentation says it appends the
/// given `char` to the end of the `String`.
#[verifier::external_body]
pub(crate) fn push_char(s: &mut String, c: char)
    ensures
        final(s)@ == old(s)@.push(c),
{
    s.push(c);
}

/// The characters of a string slice, in order.
pub fn chars_of(s: &str) -> (v: Vec<char>)
    ensures
        v@ == s@,
{
    let mut v: Vec<char> = Vec::new();
    for c in it: s.chars()
        invariant
            v@ == it.seq().take(it.index() as int),
    {
        v.push(c);
    }
    v
}

/// The string made of `v[lo..hi]`.
pub fn string_of(v: &Vec<char>, lo: usize, hi: usize) -> (s: String)
    requires
        lo <= hi <= v.len(),
    ensures
        s@ == v@.subrange(lo as int, hi as int),
{
    let mut s = String::new();
    let mut i = lo;
    while i < hi
        invariant
            lo <= i <= hi <= v.len(),
            s@ == v@.subrange(lo as int, i as int),
        decreases hi - i,
    {
        push_char(&mut s, v[i]);
        i = i + 1;
    }
    s
}


// ---------------------------------------------------------------------------
// Decimal numbers
// ---------------------------------------------------------------------------

pub open spec fn is_digit(c: char) -> bool {
    '0' <= c && c <= '9'
}

/// A character of the Unicode general category `Decimal_Number` (Nd), as of
/// Unicode 16.0: the class that `\d` names in a pattern of the `regex` crate.
/// Only the ASCII digits among them read as a number (`is_digit`).
pub open spec fn is_decimal_digit(c: char) -> bool {
    ||| is_digit(c)
    ||| ('\u{660}' <= c && c <= '\u{669}')
    ||| ('\u{6f0}' <= c && c <= '\u{6f9}')
    ||| ('\u{7c0}' <= c && c <= '\u{7c9}')
    ||| ('\u{966}' <= c && c <= '\u{96f}')
    ||| ('\u{9e6}' <= c && c <= '\u{9ef}')
    ||| ('\u{a66}' <= c && c <= '\u{a6f}')
    ||| ('\u{ae6}' <= c && c <= '\u{aef}')
    ||| ('\u{b66}' <= c && c <= '\u{b6f}')
    ||| ('\u{be6}' <= c && c <= '\u{bef}')
    ||| ('\u{c66}' <= c && c <= '\u{c6f}')
    ||| ('\u{ce6}' <= c && c <= '\u{cef}')
    ||| ('\u{d66}' <= c && c <= '\u{d6f}')
    ||| ('\u{de6}' <= c && c <= '\u{def}')
    ||| ('\u{e50}' <= c && c <= '\u{e59}')
    ||| ('\u{ed0}' <= c && c <= '\u{ed9}')
    ||| ('\u{f20}' <= c && c <= '\u{f29}')
    ||| ('\u{1040}' <= c && c <= '\u{1049}')
    ||| ('\u{1090}' <= c && c <= '\u{1099}')
    ||| ('\u{17e0}' <= c && c <= '\u{17e9}')
    ||| ('\u{1810}' <= c && c <= '\u{1819}')
    ||| ('\u{1946}' <= c && c <= '\u{194f}')
    ||| ('\u{19d0}' <= c && c <= '\u{19d9}')
    ||| ('\u{1a80}' <= c && c <= '\u{1a89}')
    ||| ('\u{1a90}' <= c && c <= '\u{1a99}')
    ||| ('\u{1b50}' <= c && c <= '\u{1b59}')
    ||| ('\u{1bb0}' <= c && c <= '\u{1bb9}')
    ||| ('\u{1c40}' <= c && c <= '\u{1c49}')
    ||| ('\u{1c50}' <= c && c <= '\u{1c59}')
    ||| ('\u{a620}' <= c && c <= '\u{a629}')
    ||| ('\u{a8d0}' <= c && c <= '\u{a8d9}')
    ||| ('\u{a900}' <= c && c <= '\u{a909}')
    ||| ('\u{a9d0}' <= c && c <= '\u{a9d9}')
    ||| ('\u{a9f0}' <= c && c <= '\u{a9f9}')
    ||| ('\u{aa50}' <= c && c <= '\u{aa59}')
    ||| ('\u{abf0}' <= c && c <= '\u{abf9}')
    ||| ('\u{ff10}' <= c && c <= '\u{ff19}')
    ||| ('\u{104a0}' <= c && c <= '\u{104a9}')
    ||| ('\u{10d30}' <= c && c <= '\u{10d39}')
    ||| ('\u{10d40}' <= c && c <= '\u{10d49}')
    ||| ('\u{11066}' <= c && c <= '\u{1106f}')
    ||| ('\u{110f0}' <= c && c <= '\u{110f9}')
    ||| ('\u{11136}' <= c && c <= '\u{1113f}')
    ||| ('\u{111d0}' <= c && c <= '\u{111d9}')
    ||| ('\u{112f0}' <= c && c <= '\u{112f9}')
    ||| ('\u{11450}' <= c && c <= '\u{11459}')
    ||| ('\u{114d0}' <= c && c <= '\u{114d9}')
    ||| ('\u{11650}' <= c && c <= '\u{11659}')
    ||| ('\u{116c0}' <= c && c <= '\u{116c9}')
    ||| ('\u{116d0}' <= c && c <= '\u{116e3}')
    ||| ('\u{11730}' <= c && c <= '\u{11739}')
    ||| ('\u{118e0}' <= c && c <= '\u{118e9}')
    ||| ('\u{11950}' <= c && c <= '\u{11959}')
    ||| ('\u{11bf0}' <= c && c <= '\u{11bf9}')
    ||| ('\u{11c50}' <= c && c <= '\u{11c59}')
    ||| ('\u{11d50}' <= c && c <= '\u{11d59}')
    ||| ('\u{11da0}' <= c && c <= '\u{11da9}')
    ||| ('\u{11f50}' <= c && c <= '\u{11f59}')
    ||| ('\u{16130}' <= c && c <= '\u{16139}')
    ||| ('\u{16a60}' <= c && c <= '\u{16a69}')
    ||| ('\u{16ac0}' <= c && c <= '\u{16ac9}')
    ||| ('\u{16b50}' <= c && c <= '\u{16b59}')
    ||| ('\u{16d70}' <= c && c <= '\u{16d79}')
    ||| ('\u{1ccf0}' <= c && c <= '\u{1ccf9}')
    ||| ('\u{1d7ce}' <= c && c <= '\u{1d7ff}')
    ||| ('\u{1e140}' <= c && c <= '\u{1e149}')
    ||| ('\u{1e2f0}' <= c && c <= '\u{1e2f9}')
    ||| ('\u{1e4f0}' <= c && c <= '\u{1e4f9}')
    ||| ('\u{1e5f1}' <= c && c <= '\u{1e5fa}')
    ||| ('\u{1e950}' <= c && c <= '\u{1e959}')
    ||| ('\u{1fbf0}' <= c && c <= '\u{1fbf9}')
}

/// `is_decimal_digit(c)`.
pub fn decimal_digit(c: char) -> (b: bool)
    ensures
        b == is_decimal_digit(c),
{
        ('0' <= c && c <= '9')
        || ('\u{660}' <= c && c <= '\u{669}')
        || ('\u{6f0}' <= c && c <= '\u{6f9}')
        || ('\u{7c0}' <= c && c <= '\u{7c9}')
        || ('\u{966}' <= c && c <= '\u{96f}')
        || ('\u{9e6}' <= c && c <= '\u{9ef}')
        || ('\u{a66}' <= c && c <= '\u{a6f}')
        || ('\u{ae6}' <= c && c <= '\u{aef}')
        || ('\u{b66}' <= c && c <= '\u{b6f}')
        || ('\u{be6}' <= c && c <= '\u{bef}')
        || ('\u{c66}' <= c && c <= '\u{c6f}')
        || ('\u{ce6}' <= c && c <= '\u{cef}')
        || ('\u{d66}' <= c && c <= '\u{d6f}')
        || ('\u{de6}' <= c && c <= '\u{def}')
        || ('\u{e50}' <= c && c <= '\u{e59}')
        || ('\u{ed0}' <= c && c <= '\u{ed9}')
        || ('\u{f20}' <= c && c <= '\u{f29}')
        || ('\u{1040}' <= c && c <= '\u{1049}')
        || ('\u{1090}' <= c && c <= '\u{1099}')
        || ('\u{17e0}' <= c && c <= '\u{17e9}')
        || ('\u{1810}' <= c && c <= '\u{1819}')
        || ('\u{1946}' <= c && c <= '\u{194f}')
        || ('\u{19d0}' <= c && c <= '\u{19d9}')
        || ('\u{1a80}' <= c && c <= '\u{1a89}')
        || ('\u{1a90}' <= c && c <= '\u{1a99}')
        || ('\u{1b50}' <= c && c <= '\u{1b59}')
        || ('\u{1bb0}' <= c && c <= '\u{1bb9}')
        || ('\u{1c40}' <= c && c <= '\u{1c49}')
        || ('\u{1c50}' <= c && c <= '\u{1c59}')
        || ('\u{a620}' <= c && c <= '\u{a629}')
        || ('\u{a8d0}' <= c && c <= '\u{a8d9}')
        || ('\u{a900}' <= c && c <= '\u{a909}')
        || ('\u{a9d0}' <= c && c <= '\u{a9d9}')
        || ('\u{a9f0}' <= c && c <= '\u{a9f9}')
        || ('\u{aa50}' <= c && c <= '\u{aa59}')
        || ('\u{abf0}' <= c && c <= '\u{abf9}')
        || ('\u{ff10}' <= c && c <= '\u{ff19}')
        || ('\u{104a0}' <= c && c <= '\u{104a9}')
        || ('\u{10d30}' <= c && c <= '\u{10d39}')
        || ('\u{10d40}' <= c && c <= '\u{10d49}')
        || ('\u{11066}' <= c && c <= '\u{1106f}')
        || ('\u{110f0}' <= c && c <= '\u{110f9}')
        || ('\u{11136}' <= c && c <= '\u{1113f}')
        || ('\u{111d0}' <= c && c <= '\u{111d9}')
        || ('\u{112f0}' <= c && c <= '\u{112f9}')
        || ('\u{11450}' <= c && c <= '\u{11459}')
        || ('\u{114d0}' <= c && c <= '\u{114d9}')
        || ('\u{11650}' <= c && c <= '\u{11659}')
        || ('\u{116c0}' <= c && c <= '\u{116c9}')
        || ('\u{116d0}' <= c && c <= '\u{116e3}')
        || ('\u{11730}' <= c && c <= '\u{11739}')
        || ('\u{118e0}' <= c && c <= '\u{118e9}')
        || ('\u{11950}' <= c && c <= '\u{11959}')
        || ('\u{11bf0}' <= c && c <= '\u{11bf9}')
        || ('\u{11c50}' <= c && c <= '\u{11c59}')
        || ('\u{11d50}' <= c && c <= '\u{11d59}')
        || ('\u{11da0}' <= c && c <= '\u{11da9}')
        || ('\u{11f50}' <= c && c <= '\u{11f59}')
        || ('\u{16130}' <= c && c <= '\u{16139}')
        || ('\u{16a60}' <= c && c <= '\u{16a69}')
        || ('\u{16ac0}' <= c && c <= '\u{16ac9}')
        || ('\u{16b50}' <= c && c <= '\u{16b59}')
        || ('\u{16d70}' <= c && c <= '\u{16d79}')
        || ('\u{1ccf0}' <= c && c <= '\u{1ccf9}')
        || ('\u{1d7ce}' <= c && c <= '\u{1d7ff}')
        || ('\u{1e140}' <= c && c <= '\u{1e149}')
        || ('\u{1e2f0}' <= c && c <= '\u{1e2f9}')
        || ('\u{1e4f0}' <= c && c <= '\u{1e4f9}')
        || ('\u{1e5f1}' <= c && c <= '\u{1e5fa}')
        || ('\u{1e950}' <= c && c <= '\u{1e959}')
        || ('\u{1fbf0}' <= c && c <= '\u{1fbf9}')
}

pub open spec fn digit_value(c: char) -> int {
    c as int - '0' as int
}

pub open spec fn digit_char(d: int) -> char {
    ('0' as int + d) as char
}

pub open spec fn all_digits(s: Seq<char>) -> bool {
    forall|i: int| 0 <= i < s.len() ==> is_digit(#[trigger] s[i])
}

/// The number that a string of decimal digits writes.
pub open spec fn digits_value(s: Seq<char>) -> int
    decreases s.len(),
{
    if s.len() == 0 {
        0
    } else {
        digits_value(s.drop_last()) * 10 + digit_value(s.last())
    }
}

/// The digits of an unsigned number after its optional `+` sign.
pub open spec fn unsigned_digits(s: Seq<char>) -> Seq<char> {
    if s.len() > 0 && s[0] == '+' {
        s.drop_first()
    } else {
        s
    }
}

/// What `str::parse` gives for an unsigned integer type whose greatest value
/// is `max`: an optional `+`, then one or more ASCII digits whose value fits.
pub open spec fn parse_unsigned(s: Seq<char>, max: int) -> Option<int> {
    let digits = unsigned_digits(s);
    if digits.len() > 0 && all_digits(digits) && digits_value(digits) <= max {
        Some(digits_value(digits))
    } else {
        None
    }
}

/// The decimal writing of `n`, as `Display` gives it for unsigned integers.
pub open spec fn decimal(n: nat) -> Seq<char>
    decreases n,
{
    if n < 10 {
        seq![digit_char(n as int)]
    } else {
        decimal(n / 10).push(digit_char((n % 10) as int))
    }
}

pub proof fn lemma_digit_char(d: int)
    requires
        0 <= d < 10,
    ensures
        is_digit(digit_char(d)),
        digit_value(digit_char(d)) == d,
        digit_char(d) != '+',
{
}

pub proof fn lemma_decimal(n: nat)
    ensures
        decimal(n).len() > 0,
        all_digits(decimal(n)),
        digits_value(decimal(n)) == n,
        decimal(n)[0] != '+',
    decreases n,
{
    if n < 10 {
        lemma_digit_char(n as int);
        assert(decimal(n).drop_last() =~= Seq::<char>::empty());
        assert(digits_value(Seq::<char>::empty()) == 0);
        assert(decimal(n).last() == digit_char(n as int));
    } else {
        lemma_decimal(n / 10);
        lemma_digit_char((n % 10) as int);
        let d = decimal(n);
        assert(d.drop_last() =~= decimal(n / 10));
        assert(d.last() == digit_char((n % 10) as int));
        assert(digits_value(d) == (n / 10) * 10 + n % 10);
        assert forall|i: int| 0 <= i < d.len() implies is_digit(#[trigger] d[i]) by {
            if i < d.len() - 1 {
                assert(d[i] == decimal(n / 10)[i]);
            }
        }
    }
}

/// Parsing the decimal writing of a number gives the number back.
pub proof fn lemma_parse_decimal(n: nat, max: int)
    requires
        n <= max,
    ensures
        parse_unsigned(decimal(n), max) == Some(n as int),
{
    lemma_decimal(n);
}

pub proof fn lemma_digits_value_nonneg(s: Seq<char>)
    requires
        all_digits(s),
    ensures
        digits_value(s) >= 0,
    decreases s.len(),
{
    if s.len() > 0 {
        assert(all_digits(s.drop_last()));
        assert(is_digit(s[s.len() - 1]));
        lemma_digits_value_nonneg(s.drop_last());
    }
}

/// Writes the decimal digits of `n` at the end of `s`.
pub fn push_decimal(s: &mut String, n: u64)
    ensures
        final(s)@ == old(s)@ + decimal(n as nat),
    decreases n,
{
    if n >= 10 {
        push_decimal(s, n / 10);
    }
    let d: u8 = (n % 10) as u8;
    let c: char = (48u8 + d) as char;
    proof {
        assert(c == digit_char((n % 10) as int));
    }
    push_char(s, c);
    proof {
        if n < 10 {
            assert(decimal(n as nat) =~= seq![c]);
        }
    }
}

/// Parses `v[lo..hi]` as `str::parse` does for an unsigned type with
/// greatest value `max`.
pub fn parse_unsigned_chars(v: &Vec<char>, lo: usize, hi: usize, max: u64) -> (r: Option<u64>)
    requires
        lo <= hi <= v.len(),
    ensures
        r is Some <==> parse_unsigned(v@.subrange(lo as int, hi as int), max as int) is Some,
        r is Some ==> r->0 == parse_unsigned(v@.subrange(lo as int, hi as int), max as int)->0,
{
    let ghost s = v@.subrange(lo as int, hi as int);
    let mut start = lo;
    if lo < hi && v[lo] == '+' {
        start = lo + 1;
    }
    let ghost digits = v@.subrange(start as int, hi as int);
    proof {
        if lo < hi && v[lo as int] == '+' {
            assert(s.drop_first() =~= digits);
        } else {
            assert(s =~= digits);
        }
    }
    if start == hi {
        return None;
    }
    assert(v@.subrange(start as int, start as int) =~= Seq::<char>::empty());
    let mut acc: u64 = 0;
    let mut overflow = false;
    let mut i = start;
    while i < hi
        invariant
            lo <= start <= i <= hi <= v.len(),
            digits == v@.subrange(start as int, hi as int),
            unsigned_digits(v@.subrange(lo as int, hi as int)) == digits,
            all_digits(v@.subrange(start as int, i as int)),
            !overflow ==> acc as int == digits_value(v@.subrange(start as int, i as int)),
            !overflow ==> acc <= max,
            overflow ==> digits_value(v@.subrange(start as int, i as int)) > max,
        decreases hi - i,
    {
        let c = v[i];
        if !('0' <= c && c <= '9') {
            proof {
                assert(digits[i - start] == c);
            }
            return None;
        }
        let d: u64 = ((c as u32) - 48) as u64;
        let ghost prev = v@.subrange(start as int, i as int);
        let ghost next = v@.subrange(start as int, i + 1);
        proof {
            assert(next.drop_last() =~= prev);
            assert(next.last() == c);
            assert forall|k: int| 0 <= k < next.len() implies is_digit(#[trigger] next[k]) by {
                if k < prev.len() {
                    assert(next[k] == prev[k]);
                }
            }
            lemma_digits_value_nonneg(prev);
        }
        if !overflow {
            if d > max || acc > (max - d) / 10 {
                overflow = true;
                assert(acc * 10 + d > max) by (nonlinear_arith)
                    requires d > max || acc > (max - d) / 10, d <= max ==> max - d >= 0;
            } else {
                assert(acc * 10 + d <= max) by (nonlinear_arith)
                    requires acc <= (max - d) / 10, d <= 9, max >= 0;
                acc = acc * 10 + d;
            }
        }
        i = i + 1;
    }
    proof {
        assert(v@.subrange(start as int, i as int) =~= digits);
    }
    if overflow {
        None
    } else {
        Some(acc)
    }
}

/// `str::parse::<u32>`.
pub fn parse_u32(s: &str) -> (r: Option<u32>)
    ensures
        r is Some <==> parse_unsigned(s@, u32::MAX as int) is Some,
        r is Some ==> r->0 == parse_unsigned(s@, u32::MAX as int)->0,
{
    let v = chars_of(s);
    assert(v@.subrange(0, v@.len() as int) =~= s@);
    match parse_unsigned_chars(&v, 0, v.len(), 4294967295u64) {
        Some(x) => Some(x as u32),
        None => None,
    }
}


// ---------------------------------------------------------------------------
// Characters and string helpers
// ---------------------------------------------------------------------------

/// The characters of each string of a sequence.
pub open spec fn views(v: Seq<String>) -> Seq<Seq<char>> {
    v.map_values(|x: String| x@)
}

/// `char::is_whitespace`: the characters with the Unicode `White_Space` property.
pub open spec fn is_white_space(c: char) -> bool {
    ||| ('\u{9}' <= c && c <= '\u{d}')
    ||| c == ' '
    ||| c == '\u{85}'
    ||| c == '\u{a0}'
    ||| c == '\u{1680}'
    ||| ('\u{2000}' <= c && c <= '\u{200a}')
    ||| c == '\u{2028}'
    ||| c == '\u{2029}'
    ||| c == '\u{202f}'
    ||| c == '\u{205f}'
    ||| c == '\u{3000}'
}

pub fn white_space(c: char) -> (b: bool)
    ensures
        b == is_white_space(c),
{
    ('\u{9}' <= c && c <= '\u{d}') || c == ' ' || c == '\u{85}' || c == '\u{a0}' || c
        == '\u{1680}' || ('\u{2000}' <= c && c <= '\u{200a}') || c == '\u{2028}' || c
        == '\u{2029}' || c == '\u{202f}' || c == '\u{205f}' || c == '\u{3000}'
}

pub open spec fn trim_start(s: Seq<char>) -> Seq<char>
    decreases s.len(),
{
    if s.len() > 0 && is_white_space(s[0]) {
        trim_start(s.drop_first())
    } else {
        s
    }
}

pub open spec fn trim_end(s: Seq<char>) -> Seq<char>
    decreases s.len(),
{
    if s.len() > 0 && is_white_space(s.last()) {
        trim_end(s.drop_last())
    } else {
        s
    }
}

/// `str::trim`: white space removed at both ends.
pub open spec fn trim(s: Seq<char>) -> Seq<char> {
    trim_end(trim_start(s))
}

/// The bounds of `trim(v[lo..hi])` in `v`.
pub fn trim_bounds(v: &Vec<char>, lo: usize, hi: usize) -> (r: (usize, usize))
    requires
        lo <= hi <= v.len(),
    ensures
        lo <= r.0 <= r.1 <= hi,
        v@.subrange(r.0 as int, r.1 as int) == trim(v@.subrange(lo as int, hi as int)),
{
    let mut a = lo;
    while a < hi && white_space(v[a])
        invariant
            lo <= a <= hi <= v.len(),
            trim_start(v@.subrange(lo as int, hi as int)) == trim_start(
                v@.subrange(a as int, hi as int),
            ),
        decreases hi - a,
    {
        assert(v@.subrange(a as int, hi as int).drop_first() =~= v@.subrange(a + 1, hi as int));
        a = a + 1;
    }
    let mut b = hi;
    while b > a && white_space(v[b - 1])
        invariant
            lo <= a <= b <= hi <= v.len(),
            trim_end(v@.subrange(a as int, hi as int)) == trim_end(
                v@.subrange(a as int, b as int),
            ),
        decreases b - a,
    {
        assert(v@.subrange(a as int, b as int).drop_last() =~= v@.subrange(a as int, b - 1));
        b = b - 1;
    }
    (a, b)
}

/// Each `c` of `s` doubled.
pub open spec fn doubled(s: Seq<char>, c: char) -> Seq<char>
    decreases s.len(),
{
    if s.len() == 0 {
        Seq::empty()
    } else {
        doubled(s.drop_last(), c) + if s.last() == c {
            seq![c, c]
        } else {
            seq![s.last()]
        }
    }
}

/// Each doubled `c` of `s` read as one `c`, as a quoted string of the editor
/// is read when `c` is its quote.
pub open spec fn undoubled(s: Seq<char>, c: char) -> Seq<char>
    decreases s.len(),
{
    if s.len() >= 2 && s[0] == c && s[1] == c {
        seq![c] + undoubled(s.skip(2), c)
    } else if s.len() >= 1 {
        seq![s[0]] + undoubled(s.drop_first(), c)
    } else {
        Seq::empty()
    }
}

/// Each `'` doubled, as the editor's single-quoted strings write it.
pub open spec fn escape_quotes(s: Seq<char>) -> Seq<char> {
    doubled(s, '\'')
}

pub proof fn lemma_doubled_concat(a: Seq<char>, b: Seq<char>, c: char)
    ensures
        doubled(a + b, c) == doubled(a, c) + doubled(b, c),
    decreases b.len(),
{
    if b.len() == 0 {
        assert(a + b =~= a);
        assert(doubled(a, c) + doubled(b, c) =~= doubled(a, c));
    } else {
        lemma_doubled_concat(a, b.drop_last(), c);
        assert((a + b).drop_last() =~= a + b.drop_last());
        assert((a + b).last() == b.last());
        let tail = if b.last() == c {
            seq![c, c]
        } else {
            seq![b.last()]
        };
        assert(doubled(a + b, c) =~= doubled(a, c) + (doubled(b.drop_last(), c) + tail));
    }
}

/// Reading back a doubled string gives the string: what `editor_escape`
/// writes between quotes, the editor reads as the text it was given.
pub proof fn lemma_undoubled_doubled(s: Seq<char>, c: char)
    ensures
        undoubled(doubled(s, c), c) == s,
    decreases s.len(),
{
    if s.len() > 0 {
        let first = seq![s[0]];
        let rest = s.drop_first();
        assert(s =~= first + rest);
        lemma_doubled_concat(first, rest, c);
        assert(first.drop_last() =~= Seq::<char>::empty());
        assert(doubled(first.drop_last(), c) =~= Seq::<char>::empty());
        assert(first.last() == s[0]);
        assert(doubled(first, c) =~= if s[0] == c {
            seq![c, c]
        } else {
            seq![s[0]]
        });
        lemma_undoubled_doubled(rest, c);
        let d = doubled(s, c);
        if s[0] == c {
            assert(d.skip(2) =~= doubled(rest, c));
        } else {
            assert(d.drop_first() =~= doubled(rest, c));
        }
        assert(seq![s[0]] + rest =~= s);
    } else {
        assert(doubled(s, c) =~= Seq::<char>::empty());
        assert(s =~= Seq::<char>::empty());
    }
}

/// The number of times `c` occurs in `s`.
pub open spec fn count_char(s: Seq<char>, c: char) -> nat
    decreases s.len(),
{
    if s.len() == 0 {
        0
    } else {
        count_char(s.drop_last(), c) + if s.last() == c {
            1nat
        } else {
            0nat
        }
    }
}

/// Whether `s[i..j]` is a maximal run of `c`: only `c` inside, no `c` just
/// before or just after.
pub open spec fn is_run(s: Seq<char>, c: char, i: int, j: int) -> bool {
    &&& 0 <= i <= j <= s.len()
    &&& forall|k: int| i <= k < j ==> s[k] == c
    &&& (i == 0 || s[i - 1] != c)
    &&& (j == s.len() || s[j] != c)
}

/// Every maximal run of `c` in `s` has an even length.
pub open spec fn runs_even(s: Seq<char>, c: char) -> bool {
    forall|i: int, j: int| #[trigger] is_run(s, c, i, j) ==> (j - i) % 2 == 0
}

/// Doubling adds one character for each `c`.
pub proof fn lemma_doubled_len(s: Seq<char>, c: char)
    ensures
        doubled(s, c).len() == s.len() + count_char(s, c),
    decreases s.len(),
{
    if s.len() > 0 {
        lemma_doubled_len(s.drop_last(), c);
    }
}

/// In a doubled string each run of `c` has an even length.
pub proof fn lemma_doubled_runs_even(s: Seq<char>, c: char)
    ensures
        runs_even(doubled(s, c), c),
    decreases s.len(),
{
    if s.len() > 0 {
        let d0 = doubled(s.drop_last(), c);
        let d = doubled(s, c);
        lemma_doubled_runs_even(s.drop_last(), c);
        let n = d0.len() as int;
        assert forall|i: int, j: int| #[trigger] is_run(d, c, i, j) implies (j - i) % 2 == 0 by {
            if s.last() == c {
                assert(d == d0 + seq![c, c]);
                assert(d[n] == c && d[n + 1] == c);
                if j < d.len() {
                    assert(j < n);
                    assert forall|k: int| i <= k < j implies d0[k] == c by {
                        assert(d[k] == d0[k]);
                    }
                    if i > 0 {
                        assert(d[i - 1] == d0[i - 1]);
                    }
                    assert(d[j] == d0[j]);
                    assert(is_run(d0, c, i, j));
                } else {
                    assert(i <= n);
                    assert forall|k: int| i <= k < n implies d0[k] == c by {
                        assert(d[k] == d0[k]);
                    }
                    if i > 0 {
                        assert(d[i - 1] == d0[i - 1]);
                    }
                    assert(is_run(d0, c, i, n));
                }
            } else {
                assert(d == d0 + seq![s.last()]);
                assert(d[n] != c);
                if i < j {
                    assert(j <= n) by {
                        if j == n + 1 {
                            assert(d[j - 1] == c);
                        }
                    }
                    assert forall|k: int| i <= k < j implies d0[k] == c by {
                        assert(d[k] == d0[k]);
                    }
                    if i > 0 {
                        assert(d[i - 1] == d0[i - 1]);
                    }
                    if j < n {
                        assert(d[j] == d0[j]);
                    }
                    assert(is_run(d0, c, i, j));
                }
            }
        }
    }
}

/// Names what `char::is_alphanumeric` returns for `c`.
pub uninterp spec fn char_is_alphanumeric(c: char) -> bool;

/// Trusted: calls `char::is_alphanumeric`, which tells whether `c` is
/// alphabetic or numeric in the Unicode sense. Its result is named
/// `char_is_alphanumeric`; the Unicode tables behind it are not restated.
#[verifier::external_body]
pub(crate) fn is_alphanumeric(c: char) -> (b: bool)
    ensures
        b == char_is_alphanumeric(c),
{
    c.is_alphanumeric()
}

/// The alphanumeric characters of `s`, in order.
pub open spec fn keep_alphanumeric(s: Seq<char>) -> Seq<char>
    decreases s.len(),
{
    if s.len() == 0 {
        Seq::empty()
    } else {
        keep_alphanumeric(s.drop_last()) + if char_is_alphanumeric(s.last()) {
            seq![s.last()]
        } else {
            Seq::empty()
        }
    }
}

/// What `keep_alphanumeric` keeps is all alphanumeric.
pub proof fn lemma_keep_alphanumeric_all(s: Seq<char>)
    ensures
        forall|k: int| 0 <= k < keep_alphanumeric(s).len() ==> char_is_alphanumeric(
            #[trigger] keep_alphanumeric(s)[k],
        ),
    decreases s.len(),
{
    if s.len() > 0 {
        lemma_keep_alphanumeric_all(s.drop_last());
        let a = keep_alphanumeric(s.drop_last());
        assert forall|k: int| 0 <= k < keep_alphanumeric(s).len() implies char_is_alphanumeric(
            #[trigger] keep_alphanumeric(s)[k],
        ) by {
            if k < a.len() {
                assert(keep_alphanumeric(s)[k] == a[k]);
            }
        }
    }
}

/// A string of alphanumeric characters keeps all of them.
pub proof fn lemma_keep_alphanumeric_id(s: Seq<char>)
    requires
        forall|k: int| 0 <= k < s.len() ==> char_is_alphanumeric(#[trigger] s[k]),
    ensures
        keep_alphanumeric(s) == s,
    decreases s.len(),
{
    if s.len() > 0 {
        assert(char_is_alphanumeric(s[s.len() - 1]));
        lemma_keep_alphanumeric_id(s.drop_last());
        assert(s.drop_last() + seq![s.last()] =~= s);
    } else {
        assert(s =~= Seq::<char>::empty());
    }
}

// ---------------------------------------------------------------------------
// Searching and splitting
// ---------------------------------------------------------------------------

/// The first index at or after `from` where `c` stands in `s`.
pub open spec fn find_char_from(s: Seq<char>, c: char, from: int) -> Option<int>
    decreases s.len() - from,
{
    if from < 0 || from >= s.len() {
        None
    } else if s[from] == c {
        Some(from)
    } else {
        find_char_from(s, c, from + 1)
    }
}

/// The first index of `c` in `v[from..hi]`, or `hi`.
pub fn find_char(v: &Vec<char>, c: char, from: usize, hi: usize) -> (r: usize)
    requires
        from <= hi <= v.len(),
    ensures
        from <= r <= hi,
        r < hi ==> v@[r as int] == c,
        forall|k: int| from <= k < r ==> v@[k] != c,
{
    let mut i = from;
    while i < hi && v[i] != c
        invariant
            from <= i <= hi <= v.len(),
            forall|k: int| from <= k < i ==> v@[k] != c,
        decreases hi - i,
    {
        i = i + 1;
    }
    i
}

/// Whether `pat` stands in `s` at `at`.
pub open spec fn occurs_at(s: Seq<char>, pat: Seq<char>, at: int) -> bool {
    0 <= at && at + pat.len() <= s.len() && s.subrange(at, at + pat.len()) == pat
}

/// The first index at or after `from` where the non-empty `pat` stands in `s`.
pub open spec fn find_from(s: Seq<char>, pat: Seq<char>, from: int) -> Option<int>
    decreases s.len() - from,
{
    if pat.len() == 0 || from < 0 || from + pat.len() > s.len() {
        None
    } else if occurs_at(s, pat, from) {
        Some(from)
    } else {
        find_from(s, pat, from + 1)
    }
}

pub proof fn lemma_find_from(s: Seq<char>, pat: Seq<char>, from: int)
    requires
        0 <= from,
    ensures
        find_from(s, pat, from) matches Some(i) ==> from <= i && i + pat.len() <= s.len()
            && pat.len() > 0 && occurs_at(s, pat, i),
    decreases s.len() - from,
{
    if pat.len() > 0 && from + pat.len() <= s.len() && !occurs_at(s, pat, from) {
        lemma_find_from(s, pat, from + 1);
    }
}

/// `str::split` with a non-empty pattern, from index `start` of `s` on.
pub open spec fn split_from(s: Seq<char>, pat: Seq<char>, start: int) -> Seq<Seq<char>>
    decreases s.len() - start,
{
    if start < 0 || start > s.len() || pat.len() == 0 {
        seq![]
    } else {
        match find_from(s, pat, start) {
            Some(i) => {
                if i < start || i + pat.len() <= start || i + pat.len() > s.len() {
                    seq![]
                } else {
                    seq![s.subrange(start, i)] + split_from(s, pat, i + pat.len())
                }
            },
            None => seq![s.subrange(start, s.len() as int)],
        }
    }
}

/// `str::split` with a non-empty pattern.
pub open spec fn split(s: Seq<char>, pat: Seq<char>) -> Seq<Seq<char>> {
    split_from(s, pat, 0)
}

/// Whether `pat` stands in `v` at `at`.
fn occurs_at_exec(v: &Vec<char>, pat: &Vec<char>, at: usize) -> (b: bool)
    requires
        at <= v.len(),
    ensures
        b == occurs_at(v@, pat@, at as int),
{
    if pat.len() > v.len() - at {
        return false;
    }
    let mut k: usize = 0;
    while k < pat.len()
        invariant
            at + pat.len() <= v.len(),
            k <= pat.len(),
            forall|j: int| 0 <= j < k ==> v@[at + j] == pat@[j],
        decreases pat.len() - k,
    {
        if v[at + k] != pat[k] {
            proof {
                assert(v@.subrange(at as int, at + pat.len())[k as int] != pat@[k as int]);
            }
            return false;
        }
        k = k + 1;
    }
    assert(v@.subrange(at as int, at + pat.len()) =~= pat@);
    true
}

/// `s.split(pat)` for a non-empty `pat`, each piece as a `String`.
pub fn split_str(s: &str, pat: &str) -> (r: Vec<String>)
    requires
        pat@.len() > 0,
    ensures
        views(r@) == split(s@, pat@),
{
    let v = chars_of(s);
    let p = chars_of(pat);
    let mut out: Vec<String> = Vec::new();
    let mut start: usize = 0;
    let mut i: usize = 0;
    while p.len() <= v.len() - i
        invariant
            v@ == s@,
            p@ == pat@,
            p.len() > 0,
            start <= i <= v.len(),
            find_from(v@, p@, start as int) == find_from(v@, p@, i as int),
            views(out@) + split_from(v@, p@, start as int) == split(v@, p@),
        decreases v.len() - i,
    {
        if occurs_at_exec(&v, &p, i) {
            let piece = string_of(&v, start, i);
            proof {
                lemma_find_from(v@, p@, start as int);
                assert(split_from(v@, p@, start as int) == seq![v@.subrange(start as int, i as int)]
                    + split_from(v@, p@, i + p@.len()));
                assert(views(out@.push(piece)) =~= views(out@).push(piece@));
                assert(views(out@).push(piece@) + split_from(v@, p@, i + p@.len()) =~= views(out@)
                    + (seq![piece@] + split_from(v@, p@, i + p@.len())));
            }
            out.push(piece);
            start = i + p.len();
            i = start;
        } else {
            i = i + 1;
        }
    }
    let piece = string_of(&v, start, v.len());
    proof {
        assert(find_from(v@, p@, i as int) is None);
        assert(split_from(v@, p@, start as int) == seq![v@.subrange(start as int, v@.len() as int)]);
        assert(views(out@.push(piece)) =~= views(out@).push(piece@));
        assert(views(out@).push(piece@) =~= views(out@) + seq![piece@]);
    }
    out.push(piece);
    out
}

// ---------------------------------------------------------------------------
// Joining and de-duplicating (itertools)
// ---------------------------------------------------------------------------

/// The pieces written one after the other with `sep` between each two.
pub open spec fn join(parts: Seq<Seq<char>>, sep: Seq<char>) -> Seq<char>
    decreases parts.len(),
{
    if parts.len() == 0 {
        Seq::empty()
    } else if parts.len() == 1 {
        parts[0]
    } else {
        join(parts.drop_last(), sep) + sep + parts.last()
    }
}

/// Trusted: calls `Itertools::join` on the strings, which writes the first
/// item and then, for each further item, `sep` followed by that item, each
/// through `Display` (which writes a `String` as it is).
#[verifier::external_body]
pub(crate) fn join_strings(parts: &Vec<String>, sep: &str) -> (r: String)
    ensures
        r@ == join(views(parts@), sep@),
{
    itertools::Itertools::join(&mut parts.iter(), sep)
}

/// The sequence with each run of equal neighbours kept once.
pub open spec fn dedup(s: Seq<Seq<char>>) -> Seq<Seq<char>>
    decreases s.len(),
{
    if s.len() == 0 {
        s
    } else {
        let d = dedup(s.drop_last());
        if d.len() > 0 && d.last() == s.last() {
            d
        } else {
            d.push(s.last())
        }
    }
}

/// Trusted: calls `Itertools::dedup` and collects, which keeps the first
/// string of each run of consecutive equal strings (equal by `==`, that is
/// by their characters) and drops the rest of the run.
#[verifier::external_body]
pub(crate) fn dedup_strings(items: Vec<String>) -> (r: Vec<String>)
    ensures
        views(r@) == dedup(views(items@)),
{
    itertools::Itertools::dedup(items.into_iter()).collect()
}

pub proof fn lemma_dedup_contains(s: Seq<Seq<char>>, x: Seq<char>)
    ensures
        dedup(s).contains(x) <==> s.contains(x),
    decreases s.len(),
{
    if s.len() > 0 {
        let d = dedup(s.drop_last());
        lemma_dedup_contains(s.drop_last(), x);
        if s.drop_last().contains(x) {
            let k = choose|k: int| 0 <= k < s.drop_last().len() && s.drop_last()[k] == x;
            assert(s[k] == x);
        }
        if s.contains(x) {
            let k = choose|k: int| 0 <= k < s.len() && s[k] == x;
            if k < s.len() - 1 {
                assert(s.drop_last()[k] == x);
            }
        }
        if d.len() > 0 && d.last() == s.last() {
            if s.last() == x {
                assert(d[d.len() - 1] == x);
            }
        } else {
            if d.contains(x) {
                let k = choose|k: int| 0 <= k < d.len() && d[k] == x;
                assert(d.push(s.last())[k] == x);
            }
            if d.push(s.last()).contains(x) {
                let k = choose|k: int| 0 <= k < d.len() + 1 && d.push(s.last())[k] == x;
                if k < d.len() {
                    assert(d[k] == x);
                } else {
                    assert(s[s.len() - 1] == x);
                }
            }
            assert(d.push(s.last())[d.len() as int] == s.last());
        }
    }
}

/// Whether `x` is one of the strings of `v`.
pub fn contains_string(v: &Vec<String>, x: &String) -> (b: bool)
    ensures
        b == views(v@).contains(x@),
{
    let mut i: usize = 0;
    while i < v.len()
        invariant
            i <= v.len(),
            forall|k: int| 0 <= k < i ==> v@[k]@ != x@,
        decreases v.len() - i,
    {
        if v[i] == *x {
            assert(views(v@)[i as int] == x@);
            return true;
        }
        i = i + 1;
    }
    proof {
        if views(v@).contains(x@) {
            let k = choose|k: int| 0 <= k < views(v@).len() && views(v@)[k] == x@;
            assert(v@[k]@ == x@);
        }
    }
    false
}


/// The first occurrence of `c` at or after `from` is the index `k` where `c`
/// stands with no `c` before it.
pub proof fn lemma_find_char_first(s: Seq<char>, c: char, from: int, k: int)
    requires
        0 <= from <= k <= s.len(),
        forall|j: int| from <= j < k ==> s[j] != c,
    ensures
        k < s.len() && s[k] == c ==> find_char_from(s, c, from) == Some(k),
        k == s.len() ==> find_char_from(s, c, from) is None,
    decreases k - from,
{
    if from < k {
        lemma_find_char_first(s, c, from + 1, k);
    }
}


/// The number of decimal digits (`is_decimal_digit`) that stand in a row in
/// `s` from index `from` on: what `\d+` takes there.
pub open spec fn digit_run(s: Seq<char>, from: int) -> nat
    decreases s.len() - from,
{
    if 0 <= from < s.len() && is_decimal_digit(s[from]) {
        1 + digit_run(s, from + 1)
    } else {
        0
    }
}

/// A run of `k` digits that ends at the end or before a non-digit.
pub proof fn lemma_digit_run_exact(s: Seq<char>, from: int, k: int)
    requires
        0 <= from,
        0 <= k,
        from + k <= s.len(),
        forall|j: int| from <= j < from + k ==> is_decimal_digit(#[trigger] s[j]),
        from + k < s.len() ==> !is_decimal_digit(s[from + k]),
    ensures
        digit_run(s, from) == k,
    decreases k,
{
    if k > 0 {
        lemma_digit_run_exact(s, from + 1, k - 1);
    }
}

/// `digit_run(v@, from)`.
pub fn digit_run_exec(v: &Vec<char>, from: usize) -> (r: usize)
    ensures
        r == digit_run(v@, from as int),
        from <= v.len() ==> from + r <= v.len(),
        from > v.len() ==> r == 0,
{
    let mut i = from;
    while i < v.len() && decimal_digit(v[i])
        invariant
            from <= i,
            from <= v.len() ==> i <= v.len(),
            from > v.len() ==> i == from,
            digit_run(v@, from as int) == (i - from) + digit_run(v@, i as int),
        decreases v.len() - i,
    {
        i = i + 1;
    }
    i - from
}

/// Copies `v[lo..hi]`.
pub fn copy_range(v: &Vec<char>, lo: usize, hi: usize) -> (r: Vec<char>)
    requires
        lo <= hi <= v.len(),
    ensures
        r@ == v@.subrange(lo as int, hi as int),
{
    let mut r: Vec<char> = Vec::new();
    let mut i = lo;
    while i < hi
        invariant
            lo <= i <= hi <= v.len(),
            r@ == v@.subrange(lo as int, i as int),
        decreases hi - i,
    {
        r.push(v[i]);
        i = i + 1;
    }
    r
}

// ---------------------------------------------------------------------------
// Lines (`str::lines`)
// ---------------------------------------------------------------------------

/// A line without the `\r` that ends it, if any.
pub open spec fn strip_cr(l: Seq<char>) -> Seq<char> {
    if l.len() > 0 && l.last() == '\r' {
        l.drop_last()
    } else {
        l
    }
}

/// `str::lines` from index `start` of `s` on: pieces ended by `\n` (with a
/// `\r` just before the `\n` removed too), and a last piece without `\n` if
/// it is not empty.
pub open spec fn lines_from(s: Seq<char>, start: int) -> Seq<Seq<char>>
    decreases s.len() - start,
{
    if start < 0 || start >= s.len() {
        seq![]
    } else {
        match find_char_from(s, '\n', start) {
            Some(i) => if i < start || i >= s.len() {
                seq![]
            } else {
                seq![strip_cr(s.subrange(start, i))] + lines_from(s, i + 1)
            },
            None => seq![s.subrange(start, s.len() as int)],
        }
    }
}

/// `str::lines`.
pub open spec fn lines(s: Seq<char>) -> Seq<Seq<char>> {
    lines_from(s, 0)
}

pub proof fn lemma_join_front(parts: Seq<Seq<char>>, sep: Seq<char>)
    requires
        parts.len() >= 2,
    ensures
        join(parts, sep) == parts[0] + sep + join(parts.drop_first(), sep),
    decreases parts.len(),
{
    let dl = parts.drop_last();
    let df = parts.drop_first();
    assert(join(parts, sep) == join(dl, sep) + sep + parts.last());
    if parts.len() == 2 {
        assert(dl.len() == 1);
        assert(join(dl, sep) == dl[0]);
        assert(dl[0] == parts[0]);
        assert(df.len() == 1);
        assert(join(df, sep) == df[0]);
        assert(df[0] == parts[1]);
        assert(parts.last() == parts[1]);
        assert(join(parts, sep) =~= parts[0] + sep + join(df, sep));
    } else {
        lemma_join_front(dl, sep);
        assert(df.drop_last() =~= dl.drop_first());
        assert(dl[0] == parts[0]);
        assert(df.last() == parts.last());
        assert(join(df, sep) == join(df.drop_last(), sep) + sep + df.last());
        assert(join(parts, sep) =~= parts[0] + sep + join(df, sep));
    }
}


pub proof fn lemma_find_from_shift(c: Seq<char>, u: Seq<char>, pat: Seq<char>, i: int)
    requires
        0 <= i,
    ensures
        find_from(c + u, pat, c.len() + i) == match find_from(u, pat, i) {
            Some(k) => Some(k + c.len()),
            None => None,
        },
    decreases u.len() - i,
{
    let s = c + u;
    let n = c.len() as int;
    if pat.len() > 0 && i + pat.len() <= u.len() {
        assert(s.subrange(n + i, n + i + pat.len()) =~= u.subrange(i, i + pat.len()));
        lemma_find_from_shift(c, u, pat, i + 1);
    }
}

pub proof fn lemma_split_from_shift(c: Seq<char>, u: Seq<char>, pat: Seq<char>, i: int)
    requires
        0 <= i <= u.len(),
    ensures
        split_from(c + u, pat, c.len() + i) == split_from(u, pat, i),
    decreases u.len() - i,
{
    let s = c + u;
    let n = c.len() as int;
    lemma_find_from_shift(c, u, pat, i);
    lemma_find_from(u, pat, i);
    match find_from(u, pat, i) {
        Some(k) => {
            assert(s.subrange(n + i, n + k) =~= u.subrange(i, k));
            lemma_split_from_shift(c, u, pat, k + pat.len());
        },
        None => {
            assert(s.subrange(n + i, s.len() as int) =~= u.subrange(i, u.len() as int));
        },
    }
}

/// Splitting at a separator that starts with `q` the pieces joined by it
/// gives the pieces back, where no piece holds `q`.
pub proof fn lemma_split_join(parts: Seq<Seq<char>>, sep: Seq<char>, q: char)
    requires
        parts.len() >= 1,
        sep.len() > 0,
        sep[0] == q,
        forall|i: int| 0 <= i < parts.len() ==> !(#[trigger] parts[i]).contains(q),
    ensures
        split(join(parts, sep), sep) == parts,
    decreases parts.len(),
{
    let p0 = parts[0];
    if parts.len() == 1 {
        let s = join(parts, sep);
        assert(s == p0);
        no_occurrence(p0, sep, q, 0);
        assert(s.subrange(0, s.len() as int) =~= s);
        assert(seq![p0] =~= parts);
    } else {
        let rest = parts.drop_first();
        assert forall|i: int| 0 <= i < rest.len() implies !(#[trigger] rest[i]).contains(q) by {
            assert(rest[i] == parts[i + 1]);
        }
        lemma_split_join(rest, sep, q);
        lemma_join_front(parts, sep);
        let u = join(rest, sep);
        let s = join(parts, sep);
        assert(s =~= p0 + (sep + u));
        // The first occurrence is the separator after the first piece.
        assert forall|j: int| 0 <= j < p0.len() implies !occurs_at(s, sep, j) by {
            assert(s[j] == p0[j]);
            if occurs_at(s, sep, j) {
                assert(s.subrange(j, j + sep.len())[0] == s[j]);
            }
        }
        assert(s.subrange(p0.len() as int, p0.len() + sep.len() as int) =~= sep);
        first_occurrence(s, sep, 0, p0.len() as int);
        assert(s.subrange(0, p0.len() as int) =~= p0);
        lemma_split_from_shift(p0 + sep, u, sep, 0);
        assert(p0 + sep + u =~= s);
        assert(seq![p0] + rest =~= parts);
    }
}

proof fn no_occurrence(s: Seq<char>, pat: Seq<char>, q: char, from: int)
    requires
        0 <= from,
        pat.len() > 0,
        pat[0] == q,
        !s.contains(q),
    ensures
        find_from(s, pat, from) is None,
    decreases s.len() - from,
{
    if from + pat.len() <= s.len() {
        if occurs_at(s, pat, from) {
            assert(s.subrange(from, from + pat.len())[0] == s[from]);
        }
        no_occurrence(s, pat, q, from + 1);
    }
}

proof fn first_occurrence(s: Seq<char>, pat: Seq<char>, from: int, k: int)
    requires
        0 <= from <= k,
        pat.len() > 0,
        occurs_at(s, pat, k),
        forall|j: int| from <= j < k ==> !occurs_at(s, pat, j),
    ensures
        find_from(s, pat, from) == Some(k),
    decreases k - from,
{
    if from < k {
        first_occurrence(s, pat, from + 1, k);
    }
}

} // verus!
