use vstd::prelude::*;

verus! {

/// The decimal digits of `n`, most significant first, with no leading zeros.
pub open spec fn decimal(n: nat) -> Seq<char>
    decreases n,
{
    if n < 10 {
        seq![digit_char(n)]
    } else {
        decimal(n / 10).push(digit_char(n % 10))
    }
}

pub open spec fn digit_char(d: nat) -> char {
    ((48 + d) as u8) as char
}

/// The name of the part file that holds range `idx` of a split of `orig`.
pub open spec fn part_name(orig: Seq<char>, idx: nat) -> Seq<char> {
    orig + ".part."@ + decimal(idx)
}

/// Relies on `String::push_str`: appends the slice to the string.
#[verifier::external_body]
fn append(s: &mut String, t: &str)
    ensures
        final(s)@ == old(s)@ + t@,
{
    s.push_str(t)
}

/// Relies on `String::push`: appends the character to the string.
#[verifier::external_body]
fn append_char(s: &mut String, c: char)
    ensures
        final(s)@ == old(s)@.push(c),
{
    s.push(c)
}

/// Appends the decimal digits of `n` to `s`.
fn append_decimal(s: &mut String, n: usize)
    ensures
        final(s)@ == old(s)@ + decimal(n as nat),
    decreases n,
{
    if n >= 10 {
        append_decimal(s, n / 10);
    }
    let d: u8 = (n % 10) as u8;
    append_char(s, (48 + d) as char);
    assert(final(s)@ =~= old(s)@ + decimal(n as nat));
}

/// Sets `s` to the name of the part file for range `idx` of a split of
/// `orig`: `<orig>.part.<idx>`.
pub fn set_file_name(s: &mut String, orig: &str, idx: usize)
    ensures
        final(s)@ == part_name(orig@, idx as nat),
{
    *s = String::new();
    append(s, orig);
    append(s, ".part.");
    append_decimal(s, idx);
    assert(final(s)@ =~= part_name(orig@, idx as nat));
}

/// The name of the manifest that a split of `path` writes: `<path>.spec`.
pub fn manifest_file_name(path: &str) -> (r: String)
    ensures
        r@ == path@ + ".spec"@,
{
    let mut s = path.to_owned();
    append(&mut s, ".spec");
    s
}

/// The name of the file that a combine of `path` writes: `<path>.new`.
pub fn output_file_name(path: &str) -> (r: String)
    ensures
        r@ == path@ + ".new"@,
{
    let mut s = path.to_owned();
    append(&mut s, ".new");
    s
}

} // verus!
