use vstd::prelude::*;
use vstd::string::StringSliceAdditionalSpecFns;

verus! {

/// A half-open interval `[start, end)` of byte offsets into a file.
#[derive(Clone, Copy, Debug, PartialEq, Eq, Structural)]
pub struct Range {
    pub start: u64,
    pub end: u64,
}

/// How the length of an edited part compares with the length of its range.
#[derive(Clone, Copy, Debug, PartialEq, Eq, Structural)]
pub enum SizeChange {
    Same,
    Grew(u64),
    Shrank(u64),
}

/// Why a `"start-end"` token was rejected.
#[derive(Clone, Copy, Debug, PartialEq, Eq, Structural)]
pub enum ParseError {
    /// The token does not hold exactly one `-`.
    Separator,
    /// One of the two halves is not a decimal number that fits in 64 bits.
    Number,
    /// The start lies after the end.
    Reversed,
}

/// An ASCII decimal digit.
pub open spec fn is_digit(b: u8) -> bool {
    48 <= b <= 57
}

/// The value of a string of decimal digits, most significant first.
pub open spec fn digits_value(b: Seq<u8>) -> nat
    decreases b.len(),
{
    if b.len() == 0 {
        0
    } else {
        digits_value(b.drop_last()) * 10 + (b.last() - 48) as nat
    }
}

/// A non-empty string of decimal digits whose value fits in a `u64`.
pub open spec fn is_decimal(b: Seq<u8>) -> bool {
    &&& b.len() > 0
    &&& forall|i: int| 0 <= i < b.len() ==> is_digit(#[trigger] b[i])
    &&& digits_value(b) <= u64::MAX
}

/// The text of an unsigned number without its optional leading `+`.
pub open spec fn unsigned_digits(b: Seq<u8>) -> Seq<u8> {
    if b.len() > 0 && b[0] == 43 {
        b.subrange(1, b.len() as int)
    } else {
        b
    }
}

/// An unsigned 64-bit number as text: an optional `+`, then decimal digits.
pub open spec fn is_u64_text(b: Seq<u8>) -> bool {
    is_decimal(unsigned_digits(b))
}

/// The value of text for which `is_u64_text` holds.
pub open spec fn u64_text_value(b: Seq<u8>) -> nat {
    digits_value(unsigned_digits(b))
}

/// The number of `-` bytes in `b`.
pub open spec fn dash_count(b: Seq<u8>) -> nat
    decreases b.len(),
{
    if b.len() == 0 {
        0
    } else {
        dash_count(b.drop_last()) + if b.last() == 45 { 1nat } else { 0nat }
    }
}

/// The position of the single `-` of a token that holds exactly one.
pub open spec fn dash_at(b: Seq<u8>) -> int {
    choose|p: int| 0 <= p < b.len() && b[p] == 45
}

/// What parsing the token with bytes `b` yields.
pub open spec fn parse_spec(b: Seq<u8>) -> Result<Range, ParseError> {
    if dash_count(b) != 1 {
        Err(ParseError::Separator)
    } else {
        let p = dash_at(b);
        let lo = b.subrange(0, p);
        let hi = b.subrange(p + 1, b.len() as int);
        if !is_u64_text(lo) || !is_u64_text(hi) {
            Err(ParseError::Number)
        } else if u64_text_value(lo) > u64_text_value(hi) {
            Err(ParseError::Reversed)
        } else {
            Ok(Range { start: u64_text_value(lo) as u64, end: u64_text_value(hi) as u64 })
        }
    }
}

proof fn lemma_digits_value_grows(b: Seq<u8>, k: int)
    requires
        0 <= k <= b.len(),
    ensures
        digits_value(b.subrange(0, k)) <= digits_value(b),
    decreases b.len() - k,
{
    if k < b.len() {
        lemma_digits_value_grows(b, k + 1);
        assert(b.subrange(0, k + 1).drop_last() =~= b.subrange(0, k));
    } else {
        assert(b.subrange(0, k) =~= b);
    }
}

/// The decimal digits of `n` as ASCII bytes, most significant first, with no
/// leading zeros.
pub open spec fn decimal_bytes(n: nat) -> Seq<u8>
    decreases n,
{
    if n < 10 {
        seq![(48 + n) as u8]
    } else {
        decimal_bytes(n / 10).push((48 + n % 10) as u8)
    }
}

proof fn lemma_decimal_bytes(n: nat)
    ensures
        decimal_bytes(n).len() > 0,
        forall|i: int| 0 <= i < decimal_bytes(n).len() ==> is_digit(#[trigger] decimal_bytes(n)[i]),
        digits_value(decimal_bytes(n)) == n,
    decreases n,
{
    if n >= 10 {
        lemma_decimal_bytes(n / 10);
        let d = decimal_bytes(n);
        assert(d.drop_last() =~= decimal_bytes(n / 10));
        assert(((48 + n % 10) as u8) as nat == 48 + n % 10);
        assert(d.last() == (48 + n % 10) as u8);
        assert(n == (n / 10) * 10 + n % 10) by (nonlinear_arith);
        assert forall|i: int| 0 <= i < d.len() implies is_digit(#[trigger] d[i]) by {
            if i < d.len() - 1 {
                assert(d[i] == decimal_bytes(n / 10)[i]);
            }
        }
    } else {
        assert(seq![(48 + n) as u8].drop_last() =~= Seq::<u8>::empty());
        assert(digits_value(Seq::<u8>::empty()) == 0);
    }
}

proof fn lemma_dash_count_concat(a: Seq<u8>, c: Seq<u8>)
    ensures
        dash_count(a + c) == dash_count(a) + dash_count(c),
    decreases c.len(),
{
    if c.len() == 0 {
        assert(a + c =~= a);
    } else {
        lemma_dash_count_concat(a, c.drop_last());
        assert((a + c).drop_last() =~= a + c.drop_last());
    }
}

proof fn lemma_no_dash(b: Seq<u8>)
    requires
        forall|i: int| 0 <= i < b.len() ==> is_digit(#[trigger] b[i]),
    ensures
        dash_count(b) == 0,
    decreases b.len(),
{
    if b.len() > 0 {
        lemma_no_dash(b.drop_last());
        assert(is_digit(b[b.len() - 1]));
    }
}

/// Two offsets `a <= b` written in decimal as `"a-b"` parse back to the
/// range from `a` to `b`.
pub proof fn lemma_parse_printed(a: u64, b: u64)
    requires
        a <= b,
    ensures
        parse_spec(decimal_bytes(a as nat) + seq![45u8] + decimal_bytes(b as nat)) == Ok::<
            Range,
            ParseError,
        >(Range { start: a, end: b }),
{
    let x = decimal_bytes(a as nat);
    let y = decimal_bytes(b as nat);
    let t = x + seq![45u8] + y;
    lemma_decimal_bytes(a as nat);
    lemma_decimal_bytes(b as nat);
    lemma_no_dash(x);
    lemma_no_dash(y);
    lemma_dash_count_concat(x + seq![45u8], y);
    lemma_dash_count_concat(x, seq![45u8]);
    assert(seq![45u8].drop_last() =~= Seq::<u8>::empty());
    assert(dash_count(Seq::<u8>::empty()) == 0);
    assert(dash_count(seq![45u8]) == 1);
    assert(t[x.len() as int] == 45);
    let p = dash_at(t);
    assert(p == x.len()) by {
        if p < x.len() {
            assert(t[p] == x[p]);
            assert(is_digit(x[p]));
        } else if p > x.len() {
            assert(t[p] == y[p - x.len() - 1]);
            assert(is_digit(y[p - x.len() - 1]));
        }
    }
    assert(t.subrange(0, p) =~= x);
    assert(t.subrange(p + 1, t.len() as int) =~= y);
    assert(is_digit(x[0]) && is_digit(y[0]));
    assert(unsigned_digits(x) == x);
    assert(unsigned_digits(y) == y);
}

/// Reads the number `b[from..to]`, with an optional leading `+`, as a `u64`.
fn parse_u64(b: &[u8], from: usize, to: usize) -> (r: Option<u64>)
    requires
        from <= to <= b@.len(),
    ensures
        r is Some <==> is_u64_text(b@.subrange(from as int, to as int)),
        r matches Some(v) ==> v == u64_text_value(b@.subrange(from as int, to as int)),
{
    let ghost t = b@.subrange(from as int, to as int);
    if from < to && b[from] == 43 {
        assert(unsigned_digits(t) =~= b@.subrange(from + 1, to as int));
        parse_digits(b, from + 1, to)
    } else {
        parse_digits(b, from, to)
    }
}

/// Reads the digits `b[from..to]` as a `u64`.
fn parse_digits(b: &[u8], from: usize, to: usize) -> (r: Option<u64>)
    requires
        from <= to <= b@.len(),
    ensures
        r is Some <==> is_decimal(b@.subrange(from as int, to as int)),
        r matches Some(v) ==> v == digits_value(b@.subrange(from as int, to as int)),
{
    let ghost t = b@.subrange(from as int, to as int);
    if from == to {
        return None;
    }
    let mut v: u64 = 0;
    let mut i: usize = from;
    while i < to
        invariant
            from <= i <= to <= b@.len(),
            t == b@.subrange(from as int, to as int),
            forall|j: int| from <= j < i ==> is_digit(b@[j]),
            v == digits_value(t.subrange(0, i - from)),
        decreases to - i,
    {
        let d = b[i];
        if d < 48 || d > 57 {
            assert(!is_digit(t[i - from]));
            return None;
        }
        let dv: u64 = (d - 48) as u64;
        assert(t.subrange(0, i + 1 - from).drop_last() =~= t.subrange(0, i - from));
        if v > (u64::MAX - dv) / 10 {
            assert(v * 10 + dv > u64::MAX) by (nonlinear_arith)
                requires
                    v > (u64::MAX - dv) / 10,
                    dv <= 9,
            ;
            proof {
                lemma_digits_value_grows(t, i + 1 - from);
            }
            return None;
        }
        assert(v * 10 + dv <= u64::MAX) by (nonlinear_arith)
            requires
                v <= (u64::MAX - dv) / 10,
                dv <= 9,
        ;
        v = v * 10 + dv;
        i = i + 1;
    }
    assert(t.subrange(0, to - from) =~= t);
    Some(v)
}

impl Range {
    /// Number of bytes the range covers.
    pub open spec fn spec_len(self) -> nat {
        (self.end - self.start) as nat
    }

    /// The start does not lie after the end.
    pub open spec fn wf(self) -> bool {
        self.start <= self.end
    }

    pub fn len(&self) -> (r: u64)
        requires
            self.wf(),
        ensures
            r == self.spec_len(),
    {
        self.end - self.start
    }

    /// How a part of `new_len` bytes differs in length from the range.
    pub fn size_change(&self, new_len: u64) -> (r: SizeChange)
        requires
            self.wf(),
        ensures
            new_len == self.spec_len() <==> r == SizeChange::Same,
            new_len > self.spec_len() <==> r == SizeChange::Grew((new_len - self.spec_len()) as u64),
            new_len < self.spec_len() <==> r == SizeChange::Shrank((self.spec_len() - new_len) as u64),
    {
        let old_len = self.end - self.start;
        if old_len == new_len {
            SizeChange::Same
        } else if old_len < new_len {
            SizeChange::Grew(new_len - old_len)
        } else {
            SizeChange::Shrank(old_len - new_len)
        }
    }

    /// Parses a `"start-end"` token of two decimal offsets.
    pub fn parse(s: &str) -> (r: Result<Range, ParseError>)
        ensures
            r == parse_spec(s.spec_bytes()),
            r matches Ok(range) ==> range.wf(),
    {
        let b = s.as_bytes();
        let ghost bs = b@;
        let n = b.len();
        let mut dashes: usize = 0;
        let mut pos: usize = 0;
        let mut i: usize = 0;
        while i < n
            invariant
                n == bs.len(),
                b@ == bs,
                0 <= i <= n,
                dashes == dash_count(bs.subrange(0, i as int)),
                dashes <= i,
                dashes >= 1 ==> pos < i && bs[pos as int] == 45,
                dashes == 0 ==> forall|j: int| 0 <= j < i ==> bs[j] != 45,
                dashes == 1 ==> forall|j: int| 0 <= j < i && j != pos ==> bs[j] != 45,
            decreases n - i,
        {
            assert(bs.subrange(0, i + 1).drop_last() =~= bs.subrange(0, i as int));
            if b[i] == 45 {
                if dashes == 0 {
                    pos = i;
                }
                dashes = dashes + 1;
            }
            i = i + 1;
        }
        assert(bs.subrange(0, n as int) =~= bs);
        if dashes != 1 {
            return Err(ParseError::Separator);
        }
        proof {
            let p = dash_at(bs);
            assert(0 <= pos < bs.len() && bs[pos as int] == 45);
            assert(p == pos);
        }
        let lo = parse_u64(b, 0, pos);
        let hi = parse_u64(b, pos + 1, n);
        match (lo, hi) {
            (Some(start), Some(end)) => {
                if start > end {
                    Err(ParseError::Reversed)
                } else {
                    Ok(Range { start, end })
                }
            },
            _ => Err(ParseError::Number),
        }
    }
}

impl std::str::FromStr for Range {
    type Err = ParseError;

    fn from_str(s: &str) -> (r: Result<Range, ParseError>)
        ensures
            r == parse_spec(s.spec_bytes()),
            r matches Ok(range) ==> range.wf(),
    {
        Range::parse(s)
    }
}

} // verus!
