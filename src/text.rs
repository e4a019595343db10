use vstd::prelude::*;

verus! {

/// Whether a character has the Unicode `White_Space` property.
pub uninterp spec fn white_space(c: char) -> bool;

/// Relies on `char::is_whitespace`: it tests the Unicode `White_Space`
/// property, which holds of the ASCII space, tab, line feed and carriage return.
#[verifier::external_body]
pub(crate) fn is_white(c: char) -> (r: bool)
    ensures
        r == white_space(c),
        c == ' ' || c == '\t' || c == '\n' || c == '\r' ==> r,
{
    c.is_whitespace()
}

/// Relies on `String::push`: appends one character.
#[verifier::external_body]
pub(crate) fn push_char(s: &mut String, c: char)
    ensures
        final(s)@ == old(s)@.push(c),
{
    s.push(c)
}

/// Relies on `str::chars`: the characters of a string, in order.
#[verifier::external_body]
pub(crate) fn chars_of(s: &str) -> (r: Vec<char>)
    ensures
        r@ == s@,
{
    s.chars().collect()
}

/// The text with its leading white space removed.
pub open spec fn trim_start(s: Seq<char>) -> Seq<char>
    decreases s.len(),
{
    if s.len() > 0 && white_space(s[0]) {
        trim_start(s.drop_first())
    } else {
        s
    }
}

/// The text with its trailing white space removed.
pub open spec fn trim_end(s: Seq<char>) -> Seq<char>
    decreases s.len(),
{
    if s.len() > 0 && white_space(s.last()) {
        trim_end(s.drop_last())
    } else {
        s
    }
}

/// The text with leading and trailing white space removed.
pub open spec fn trim(s: Seq<char>) -> Seq<char> {
    trim_end(trim_start(s))
}

/// The bounds of the trimmed part of a sequence of characters.
fn trim_bounds(s: &Vec<char>) -> (r: (usize, usize))
    ensures
        r.0 <= r.1 <= s@.len(),
        s@.subrange(r.0 as int, r.1 as int) == trim(s@),
{
    let n = s.len();
    let mut lo: usize = 0;
    assert(s@.subrange(0, n as int) =~= s@);
    while lo < n && is_white(s[lo])
        invariant
            lo <= n == s@.len(),
            trim_start(s@) == trim_start(s@.subrange(lo as int, n as int)),
        decreases n - lo,
    {
        assert(s@.subrange(lo as int, n as int).drop_first() =~= s@.subrange(lo + 1, n as int));
        lo = lo + 1;
    }
    assert(trim_start(s@) == s@.subrange(lo as int, n as int));
    let mut hi: usize = n;
    while hi > lo && is_white(s[hi - 1])
        invariant
            lo <= hi <= n == s@.len(),
            trim(s@) == trim_end(s@.subrange(lo as int, hi as int)),
        decreases hi - lo,
    {
        assert(s@.subrange(lo as int, hi as int).drop_last() =~= s@.subrange(lo as int, hi - 1));
        hi = hi - 1;
    }
    (lo, hi)
}

/// Whether two strings are equal once leading and trailing white space is
/// removed from each.
pub fn trimmed_eq(a: &str, b: &str) -> (r: bool)
    ensures
        r == (trim(a@) == trim(b@)),
{
    let x = chars_of(a);
    let y = chars_of(b);
    let (xl, xh) = trim_bounds(&x);
    let (yl, yh) = trim_bounds(&y);
    assert(trim(a@) == x@.subrange(xl as int, xh as int));
    assert(trim(b@) == y@.subrange(yl as int, yh as int));
    if xh - xl != yh - yl {
        return false;
    }
    let len = xh - xl;
    let mut i: usize = 0;
    while i < len
        invariant
            xl <= xh <= x@.len(),
            yl <= yh <= y@.len(),
            len == xh - xl == yh - yl,
            trim(a@) == x@.subrange(xl as int, xh as int),
            trim(b@) == y@.subrange(yl as int, yh as int),
            i <= len,
            x@.subrange(xl as int, xl + i) == y@.subrange(yl as int, yl + i),
        decreases len - i,
    {
        if x[xl + i] != y[yl + i] {
            assert(trim(a@)[i as int] == x@[xl + i]);
            assert(trim(b@)[i as int] == y@[yl + i]);
            return false;
        }
        assert(x@.subrange(xl as int, xl + i + 1) =~= x@.subrange(xl as int, xl + i).push(x@[xl + i]));
        assert(y@.subrange(yl as int, yl + i + 1) =~= y@.subrange(yl as int, yl + i).push(y@[yl + i]));
        i = i + 1;
    }
    assert(trim(a@) =~= trim(b@));
    true
}

/// The decimal digit character of a value below ten.
pub open spec fn digit_char(d: nat) -> char {
    ((d + 48) as u8) as char
}

/// The decimal representation of a natural number, without leading zeros.
pub open spec fn decimal(n: nat) -> Seq<char>
    decreases n,
{
    if n < 10 {
        seq![digit_char(n)]
    } else {
        decimal(n / 10).push(digit_char(n % 10))
    }
}

/// `count` spaces.
pub open spec fn spaces(count: nat) -> Seq<char> {
    Seq::new(count, |i: int| ' ')
}

/// The text right-aligned in a field of `width` characters; text at least
/// that long is left as it is.
pub open spec fn pad_left(s: Seq<char>, width: nat) -> Seq<char> {
    if s.len() >= width {
        s
    } else {
        spaces((width - s.len()) as nat) + s
    }
}

/// Appends the decimal representation of `n`.
pub fn push_decimal(s: &mut String, n: usize)
    ensures
        final(s)@ == old(s)@ + decimal(n as nat),
    decreases n,
{
    if n >= 10 {
        push_decimal(s, n / 10);
    }
    let d: u8 = (n % 10) as u8;
    push_char(s, (d + 48) as char);
    assert(final(s)@ =~= old(s)@ + decimal(n as nat));
}

/// The number right-aligned in a field of `width` characters.
pub fn format_number(n: usize, width: usize) -> (r: String)
    ensures
        r@ == pad_left(decimal(n as nat), width as nat),
{
    let mut digits = String::new();
    push_decimal(&mut digits, n);
    assert(digits@ =~= decimal(n as nat));
    let mut r = String::new();
    if digits.unicode_len() < width {
        let fill = width - digits.unicode_len();
        let mut i: usize = 0;
        while i < fill
            invariant
                i <= fill,
                r@ == spaces(i as nat),
            decreases fill - i,
        {
            push_char(&mut r, ' ');
            i = i + 1;
            assert(r@ =~= spaces(i as nat));
        }
    }
    r.append(digits.as_str());
    assert(r@ =~= pad_left(decimal(n as nat), width as nat));
    r
}

} // verus!
