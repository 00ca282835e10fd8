//! The W3C `traceparent` header: `00-<trace id>-<parent id>-<flags>`.
use vstd::prelude::*;
use vstd::arithmetic::div_mod::{lemma_breakdown, lemma_fundamental_div_mod_converse_div, lemma_fundamental_div_mod_converse_mod};

verus! {

/// The value of a lowercase hexadecimal digit, or `None` for any other character.
pub open spec fn hex_digit_value(c: char) -> Option<nat> {
    if '0' <= c && c <= '9' {
        Some((c as int - '0' as int) as nat)
    } else if 'a' <= c && c <= 'f' {
        Some((c as int - 'a' as int + 10) as nat)
    } else {
        None
    }
}

/// The lowercase hexadecimal digit for `d < 16`.
pub open spec fn hex_digit_char(d: nat) -> char {
    if d < 10 {
        (d + '0' as int) as char
    } else {
        (d - 10 + 'a' as int) as char
    }
}

/// `16` to the power `n`.
pub open spec fn pow16(n: nat) -> nat
    decreases n,
{
    if n == 0 {
        1
    } else {
        16 * pow16((n - 1) as nat)
    }
}

/// The number written by `s` in lowercase hexadecimal, most significant digit first;
/// `None` when some character of `s` is not a lowercase hexadecimal digit.
pub open spec fn hex_value(s: Seq<char>) -> Option<nat>
    decreases s.len(),
{
    if s.len() == 0 {
        Some(0)
    } else {
        match (hex_value(s.drop_last()), hex_digit_value(s.last())) {
            (Some(high), Some(low)) => Some(high * 16 + low),
            _ => None,
        }
    }
}

/// The `width` lowest hexadecimal digits of `n`, zero-padded, most significant first.
pub open spec fn hex_digits(n: nat, width: nat) -> Seq<char>
    decreases width,
{
    if width == 0 {
        Seq::empty()
    } else {
        hex_digits(n / 16, (width - 1) as nat).push(hex_digit_char(n % 16))
    }
}

proof fn lemma_digit_roundtrip(d: nat)
    requires
        d < 16,
    ensures
        hex_digit_value(hex_digit_char(d)) == Some(d),
{
}

proof fn lemma_char_roundtrip(c: char)
    requires
        hex_digit_value(c) is Some,
    ensures
        hex_digit_value(c).unwrap() < 16,
        hex_digit_char(hex_digit_value(c).unwrap()) == c,
{
}

/// A parsed W3C trace context: a 128-bit trace id, a 64-bit parent (span) id and
/// eight flag bits, of which the lowest says whether the trace is sampled.
#[derive(Clone, Copy, Debug, PartialEq, Eq, Structural)]
pub struct TraceParent {
    pub trace_id: u128,
    pub span_id: u64,
    pub flags: u8,
}

/// Why a string is not a `traceparent`.
#[derive(Clone, Copy, Debug, PartialEq, Eq, Structural)]
pub enum TraceParentError {
    /// The string does not have the 55 characters of version `00`.
    InvalidLength,
    /// A `-` separator is missing after the version, the trace id or the parent id.
    MissingSeparator,
    /// The version is not `00`.
    UnsupportedVersion,
    /// The trace id, the parent id or the flags are not lowercase hexadecimal.
    InvalidHex,
}

impl TraceParent {
    /// The trace is sampled when the lowest flag bit is set.
    pub open spec fn is_sampled(self) -> bool {
        self.flags % 2 == 1
    }

    /// The header text: `00-` then 32, 16 and 2 lowercase hexadecimal digits,
    /// separated by `-`.
    pub open spec fn w3c(self) -> Seq<char> {
        seq!['0', '0', '-'] + hex_digits(self.trace_id as nat, 32) + seq!['-']
            + hex_digits(self.span_id as nat, 16) + seq!['-'] + hex_digits(self.flags as nat, 2)
    }
}

/// What parsing `s` as a `traceparent` gives.
pub open spec fn spec_parse_traceparent(s: Seq<char>) -> Result<TraceParent, TraceParentError> {
    if s.len() != 55 {
        Err(TraceParentError::InvalidLength)
    } else if s[2] != '-' || s[35] != '-' || s[52] != '-' {
        Err(TraceParentError::MissingSeparator)
    } else if s[0] != '0' || s[1] != '0' {
        Err(TraceParentError::UnsupportedVersion)
    } else {
        match (
            hex_value(s.subrange(3, 35)),
            hex_value(s.subrange(36, 52)),
            hex_value(s.subrange(53, 55)),
        ) {
            (Some(t), Some(p), Some(f)) => Ok(
                TraceParent { trace_id: t as u128, span_id: p as u64, flags: f as u8 },
            ),
            _ => Err(TraceParentError::InvalidHex),
        }
    }
}


proof fn lemma_pow16_positive(n: nat)
    ensures
        pow16(n) > 0,
    decreases n,
{
    if n > 0 {
        lemma_pow16_positive((n - 1) as nat);
    }
}

proof fn lemma_pow16_monotone(m: nat, n: nat)
    requires
        m <= n,
    ensures
        pow16(m) <= pow16(n),
    decreases n,
{
    lemma_pow16_positive(n);
    if m < n {
        lemma_pow16_monotone(m, (n - 1) as nat);
    }
}

proof fn lemma_pow16_values()
    ensures
        pow16(2) == 0x100,
        pow16(16) == 0x1_0000_0000_0000_0000,
        pow16(32) == 0x1_0000_0000_0000_0000_0000_0000_0000_0000,
{
    reveal_with_fuel(pow16, 33);
}

/// Reading back `width` digits of `n` gives `n` modulo `16^width`.
proof fn lemma_hex_digits_value(n: nat, width: nat)
    ensures
        hex_digits(n, width).len() == width,
        hex_value(hex_digits(n, width)) == Some(n % pow16(width)),
    decreases width,
{
    if width > 0 {
        let w1 = (width - 1) as nat;
        lemma_hex_digits_value(n / 16, w1);
        lemma_digit_roundtrip(n % 16);
        let s = hex_digits(n, width);
        assert(s.drop_last() =~= hex_digits(n / 16, w1));
        lemma_pow16_positive(w1);
        lemma_breakdown(n as int, 16, pow16(w1) as int);
    }
}

/// A string of hexadecimal digits is the zero-padded rendering of its value.
proof fn lemma_hex_value_digits(s: Seq<char>)
    requires
        hex_value(s) is Some,
    ensures
        hex_value(s).unwrap() < pow16(s.len()),
        hex_digits(hex_value(s).unwrap(), s.len()) == s,
    decreases s.len(),
{
    if s.len() > 0 {
        let t = s.drop_last();
        lemma_hex_value_digits(t);
        lemma_char_roundtrip(s.last());
        let v = hex_value(s).unwrap();
        let h = hex_value(t).unwrap();
        let d = hex_digit_value(s.last()).unwrap();
        assert(v == h * 16 + d);
        lemma_fundamental_div_mod_converse_div(v as int, 16, h as int, d as int);
        lemma_fundamental_div_mod_converse_mod(v as int, 16, h as int, d as int);
        assert(hex_digits(v, s.len()) =~= s);
    }
}

/// Every prefix of a hexadecimal string is hexadecimal.
proof fn lemma_hex_value_prefix(s: Seq<char>, k: int)
    requires
        hex_value(s) is Some,
        0 <= k <= s.len(),
    ensures
        hex_value(s.subrange(0, k)) is Some,
    decreases s.len(),
{
    if k < s.len() {
        lemma_hex_value_prefix(s.drop_last(), k);
        assert(s.drop_last().subrange(0, k) =~= s.subrange(0, k));
    } else {
        assert(s.subrange(0, k) =~= s);
    }
}

/// Rendering a trace context and parsing the text gives the same context back.
pub proof fn lemma_parse_renders_back(tp: TraceParent)
    ensures
        spec_parse_traceparent(tp.w3c()) == Ok::<TraceParent, TraceParentError>(tp),
{
    let w = tp.w3c();
    lemma_hex_digits_value(tp.trace_id as nat, 32);
    lemma_hex_digits_value(tp.span_id as nat, 16);
    lemma_hex_digits_value(tp.flags as nat, 2);
    lemma_pow16_values();
    assert(w.subrange(3, 35) =~= hex_digits(tp.trace_id as nat, 32));
    assert(w.subrange(36, 52) =~= hex_digits(tp.span_id as nat, 16));
    assert(w.subrange(53, 55) =~= hex_digits(tp.flags as nat, 2));
}

/// A string that parses is exactly the text of the context it parses to.
pub proof fn lemma_parsed_text_is_canonical(s: Seq<char>)
    requires
        spec_parse_traceparent(s) is Ok,
    ensures
        spec_parse_traceparent(s).unwrap().w3c() == s,
{
    let a = s.subrange(3, 35);
    let b = s.subrange(36, 52);
    let c = s.subrange(53, 55);
    lemma_hex_value_digits(a);
    lemma_hex_value_digits(b);
    lemma_hex_value_digits(c);
    lemma_pow16_values();
    let tp = spec_parse_traceparent(s).unwrap();
    assert(tp.trace_id as nat == hex_value(a).unwrap());
    assert(tp.span_id as nat == hex_value(b).unwrap());
    assert(tp.flags as nat == hex_value(c).unwrap());
    assert(tp.w3c() =~= s);
}

/// Appends `c` to `s`: a call of `String::push`.
#[verifier::external_body]
pub(crate) fn push_char(s: &mut String, c: char)
    ensures
        final(s)@ == old(s)@.push(c),
{
    s.push(c)
}

/// The characters of `s`, in order.
pub(crate) fn str_chars(s: &str) -> (r: Vec<char>)
    ensures
        r@ == s@,
{
    let mut r: Vec<char> = Vec::new();
    for c in it: s.chars()
        invariant
            r@ == it.seq().take(it.index() as int),
    {
        r.push(c);
    }
    r
}

fn hex_digit(c: char) -> (r: Option<u8>)
    ensures
        r matches Some(d) ==> hex_digit_value(c) == Some(d as nat),
        r is None ==> hex_digit_value(c) is None,
{
    if '0' <= c && c <= '9' {
        Some((c as u32 - '0' as u32) as u8)
    } else if 'a' <= c && c <= 'f' {
        Some((c as u32 - 'a' as u32 + 10) as u8)
    } else {
        None
    }
}

fn hex_char(d: u8) -> (c: char)
    requires
        d < 16,
    ensures
        c == hex_digit_char(d as nat),
{
    if d < 10 {
        (d + 48) as char
    } else {
        (d + 87) as char
    }
}

/// The value of `chars[start..end]` read as lowercase hexadecimal.
fn parse_hex_field(chars: &Vec<char>, start: usize, end: usize) -> (r: Option<u128>)
    requires
        start <= end <= chars.len(),
        end - start <= 32,
    ensures
        match hex_value(chars@.subrange(start as int, end as int)) {
            Some(v) => r == Some(v as u128) && v < pow16((end - start) as nat),
            None => r is None,
        },
{
    let mut acc: u128 = 0;
    let mut i: usize = start;
    proof {
        lemma_pow16_values();
        assert(chars@.subrange(start as int, start as int) =~= Seq::<char>::empty());
    }
    while i < end
        invariant
            start <= i <= end <= chars.len(),
            end - start <= 32,
            hex_value(chars@.subrange(start as int, i as int)) == Some(acc as nat),
            acc < pow16((i - start) as nat),
            pow16(32) == 0x1_0000_0000_0000_0000_0000_0000_0000_0000,
        decreases end - i,
    {
        let ghost next = chars@.subrange(start as int, i + 1);
        proof {
            assert(next.drop_last() =~= chars@.subrange(start as int, i as int));
        }
        match hex_digit(chars[i]) {
            Some(d) => {
                proof {
                    lemma_pow16_monotone((i + 1 - start) as nat, 32);
                }
                acc = acc * 16 + d as u128;
                i = i + 1;
            },
            None => {
                proof {
                    let whole = chars@.subrange(start as int, end as int);
                    if hex_value(whole) is Some {
                        lemma_hex_value_prefix(whole, i + 1 - start);
                        assert(whole.subrange(0, i + 1 - start) =~= next);
                    }
                }
                return None;
            },
        }
    }
    proof {
        lemma_hex_value_digits(chars@.subrange(start as int, end as int));
    }
    Some(acc)
}

/// Appends the `width` lowest hexadecimal digits of `n`.
fn push_hex(out: &mut String, n: u128, width: usize)
    ensures
        final(out)@ == old(out)@ + hex_digits(n as nat, width as nat),
    decreases width,
{
    if width > 0 {
        push_hex(out, n / 16, width - 1);
        push_char(out, hex_char((n % 16) as u8));
        assert(final(out)@ =~= old(out)@ + hex_digits(n as nat, width as nat));
    } else {
        assert(final(out)@ =~= old(out)@ + hex_digits(n as nat, width as nat));
    }
}

impl TraceParent {
    /// A trace context made of its three parts.
    pub fn new(trace_id: u128, span_id: u64, flags: u8) -> (r: TraceParent)
        ensures
            r.trace_id == trace_id,
            r.span_id == span_id,
            r.flags == flags,
    {
        TraceParent { trace_id, span_id, flags }
    }

    /// Whether the trace is sampled (the lowest flag bit).
    pub fn sampled(&self) -> (r: bool)
        ensures
            r == self.is_sampled(),
    {
        self.flags % 2 == 1
    }

    /// Parses the text of a `traceparent` header.
    pub fn parse(s: &str) -> (r: Result<TraceParent, TraceParentError>)
        ensures
            r == spec_parse_traceparent(s@),
    {
        let chars = str_chars(s);
        if chars.len() != 55 {
            return Err(TraceParentError::InvalidLength);
        }
        if chars[2] != '-' || chars[35] != '-' || chars[52] != '-' {
            return Err(TraceParentError::MissingSeparator);
        }
        if chars[0] != '0' || chars[1] != '0' {
            return Err(TraceParentError::UnsupportedVersion);
        }
        proof {
            lemma_pow16_values();
        }
        let trace_id = parse_hex_field(&chars, 3, 35);
        let span_id = parse_hex_field(&chars, 36, 52);
        let flags = parse_hex_field(&chars, 53, 55);
        match (trace_id, span_id, flags) {
            (Some(t), Some(p), Some(f)) => Ok(TraceParent { trace_id: t, span_id: p as u64, flags: f as u8 }),
            _ => Err(TraceParentError::InvalidHex),
        }
    }

    /// The text of the `traceparent` header for this context.
    pub fn to_string(&self) -> (r: String)
        ensures
            r@ == self.w3c(),
    {
        let mut out = String::new();
        push_char(&mut out, '0');
        push_char(&mut out, '0');
        push_char(&mut out, '-');
        push_hex(&mut out, self.trace_id, 32);
        push_char(&mut out, '-');
        push_hex(&mut out, self.span_id as u128, 16);
        push_char(&mut out, '-');
        push_hex(&mut out, self.flags as u128, 2);
        assert(out@ =~= self.w3c());
        out
    }
}

impl std::str::FromStr for TraceParent {
    type Err = TraceParentError;

    fn from_str(s: &str) -> (r: Result<TraceParent, TraceParentError>)
        ensures
            r == spec_parse_traceparent(s@),
    {
        TraceParent::parse(s)
    }
}

} // verus!
