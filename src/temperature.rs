use vstd::prelude::*;

verus! {

/// Largest representable value, in tenths (99.9).
pub const MAX_TENTHS: i16 = 999;

/// Smallest representable value, in tenths (-99.9).
pub const MIN_TENTHS: i16 = -999;

/// The numeric value of one ASCII digit.
pub open spec fn digit_value(c: u8) -> int {
    c as int - 48
}

pub open spec fn is_digit(c: u8) -> bool {
    48 <= c && c <= 57
}

/// Unsigned text of the form `d.d` or `dd.d`.
pub open spec fn valid_unsigned(s: Seq<u8>) -> bool {
    (s.len() == 3 || s.len() == 4)
        && is_digit(s[s.len() - 1])
        && s[s.len() - 2] == 46u8
        && is_digit(s[s.len() - 3])
        && (s.len() == 4 ==> is_digit(s[0]))
}

/// Text of the form `-?\d{1,2}\.\d`.
pub open spec fn valid_text(s: Seq<u8>) -> bool {
    if s.len() > 0 && s[0] == 45u8 {
        valid_unsigned(s.drop_first())
    } else {
        valid_unsigned(s)
    }
}

/// Value in tenths of unsigned text.
pub open spec fn unsigned_value(s: Seq<u8>) -> int {
    digit_value(s[s.len() - 1]) + 10 * digit_value(s[s.len() - 3])
        + if s.len() == 4 { 100 * digit_value(s[0]) } else { 0 }
}

/// Value in tenths of valid text.
pub open spec fn text_value(s: Seq<u8>) -> int {
    if s.len() > 0 && s[0] == 45u8 {
        -unsigned_value(s.drop_first())
    } else {
        unsigned_value(s)
    }
}

/// A decimal with one fractional digit, held as its value times ten.
#[derive(Debug, Clone, Copy, PartialEq, Eq, PartialOrd, Ord)]
pub struct Temperature(pub i16);

impl Temperature {
    pub open spec fn tenths(self) -> int {
        self.0 as int
    }

    pub open spec fn wf(self) -> bool {
        MIN_TENTHS <= self.0 <= MAX_TENTHS
    }

    /// Reads text of the form `-?\d{1,2}\.\d` without a general number parse.
    pub fn from_bytes(bytes: &[u8]) -> (r: Temperature)
        requires
            valid_text(bytes@),
        ensures
            r.tenths() == text_value(bytes@),
            r.wf(),
    {
        let neg = bytes[0] == 45u8;
        let start: usize = if neg { 1 } else { 0 };
        let len = bytes.len() - start;
        proof {
            let u = bytes@.subrange(start as int, bytes@.len() as int);
            if neg {
                assert(u =~= bytes@.drop_first());
            } else {
                assert(u =~= bytes@);
            }
        }
        let mut total: i16 = byte_to_num(bytes[bytes.len() - 1]);
        total = total + 10 * byte_to_num(bytes[bytes.len() - 3]);
        if len >= 4 {
            total = total + 100 * byte_to_num(bytes[bytes.len() - 4]);
        }
        if neg {
            total = -total;
        }
        Temperature(total)
    }

    /// The text of this value, with exactly one fractional digit.
    pub fn to_bytes(&self) -> (r: Vec<u8>)
        requires
            self.wf(),
        ensures
            r@ == render_tenths(self.tenths()),
    {
        let mut out: Vec<u8> = Vec::new();
        push_tenths(&mut out, self.0 as i64);
        assert(out@ =~= render_tenths(self.tenths()));
        out
    }
}

/// Whether `bytes` has the form `-?\d{1,2}\.\d`.
pub fn is_valid_text(bytes: &[u8]) -> (r: bool)
    ensures
        r == valid_text(bytes@),
{
    let n = bytes.len();
    if n == 0 {
        return false;
    }
    let start: usize = if bytes[0] == 45u8 { 1 } else { 0 };
    let len = n - start;
    proof {
        let u = bytes@.subrange(start as int, n as int);
        if start == 1 {
            assert(u =~= bytes@.drop_first());
        } else {
            assert(u =~= bytes@);
        }
    }
    if len != 3 && len != 4 {
        return false;
    }
    let last = bytes[n - 1];
    let point = bytes[n - 2];
    let units = bytes[n - 3];
    let tens_ok = len == 3 || (48u8 <= bytes[start] && bytes[start] <= 57u8);
    48u8 <= last && last <= 57u8 && point == 46u8 && 48u8 <= units && units <= 57u8 && tens_ok
}

/// The value of an ASCII digit.
pub fn byte_to_num(c: u8) -> (r: i16)
    requires
        is_digit(c),
    ensures
        r == digit_value(c),
        0 <= r <= 9,
{
    (c - 48) as i16
}

/// Text of a value in tenths: an optional `-`, the integer part without
/// leading zeros, `.`, and the tenths digit.
pub open spec fn render_tenths(v: int) -> Seq<u8> {
    let a = if v < 0 { -v } else { v };
    let ip = a / 10;
    let sign: Seq<u8> = if v < 0 { seq![45u8] } else { Seq::empty() };
    let int_digits: Seq<u8> = if ip >= 10 {
        seq![(48 + ip / 10) as u8, (48 + ip % 10) as u8]
    } else {
        seq![(48 + ip) as u8]
    };
    sign + int_digits + seq![46u8, (48 + a % 10) as u8]
}

/// Every value in range renders to valid text that reads back as itself.
pub proof fn lemma_render_valid(v: int)
    requires
        MIN_TENTHS <= v <= MAX_TENTHS,
    ensures
        valid_text(render_tenths(v)),
        text_value(render_tenths(v)) == v,
{
    let a = if v < 0 { -v } else { v };
    let ip = a / 10;
    let int_digits: Seq<u8> = if ip >= 10 {
        seq![(48 + ip / 10) as u8, (48 + ip % 10) as u8]
    } else {
        seq![(48 + ip) as u8]
    };
    let u = int_digits + seq![46u8, (48 + a % 10) as u8];
    assert(valid_unsigned(u));
    assert(unsigned_value(u) == a);
    if v < 0 {
        assert(render_tenths(v) =~= seq![45u8] + u);
        assert(render_tenths(v).drop_first() =~= u);
    } else {
        assert(render_tenths(v) =~= u);
    }
}

/// Valid text always holds a value in the representable range.
pub proof fn lemma_text_in_range(s: Seq<u8>)
    requires
        valid_text(s),
    ensures
        MIN_TENTHS <= text_value(s) <= MAX_TENTHS,
{
}

/// Reading valid text and rendering the value gives text with the same value.
pub proof fn lemma_round_trip(s: Seq<u8>)
    requires
        valid_text(s),
    ensures
        valid_text(render_tenths(text_value(s))),
        text_value(render_tenths(text_value(s))) == text_value(s),
{
    lemma_text_in_range(s);
    lemma_render_valid(text_value(s));
}

/// Appends the text of `v` to `out`.
pub fn push_tenths(out: &mut Vec<u8>, v: i64)
    requires
        MIN_TENTHS <= v <= MAX_TENTHS,
    ensures
        final(out)@ == old(out)@ + render_tenths(v as int),
{
    let a: i64 = if v < 0 { -v } else { v };
    let ip: i64 = a / 10;
    if v < 0 {
        out.push(45u8);
    }
    if ip >= 10 {
        out.push((48 + ip / 10) as u8);
        out.push((48 + ip % 10) as u8);
    } else {
        out.push((48 + ip) as u8);
    }
    out.push(46u8);
    out.push((48 + a % 10) as u8);
    assert(out@ =~= old(out)@ + render_tenths(v as int));
}

} // verus!
