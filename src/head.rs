use vstd::prelude::*;
use crate::text::chars_of;

verus! {

/// Whether a character is an ASCII decimal digit.
pub open spec fn is_digit(c: char) -> bool {
    '0' <= c && c <= '9'
}

/// Whether a text is one or more decimal digits.
pub open spec fn all_digits(t: Seq<char>) -> bool {
    t.len() > 0 && forall|i: int| 0 <= i < t.len() ==> is_digit(#[trigger] t[i])
}

/// The value of a sequence of decimal digits.
pub open spec fn digits_value(t: Seq<char>) -> nat
    decreases t.len(),
{
    if t.len() == 0 {
        0
    } else {
        digits_value(t.drop_last()) * 10 + ((t.last() as u32 - '0' as u32) as nat)
    }
}

/// A number's digits: the text without one leading `+`.
pub open spec fn unsigned_part(s: Seq<char>) -> Seq<char> {
    if s.len() > 0 && s[0] == '+' {
        s.drop_first()
    } else {
        s
    }
}

/// Whether a text is an unsigned decimal number that fits in `usize`.
pub open spec fn is_number(s: Seq<char>) -> bool {
    all_digits(unsigned_part(s)) && digits_value(unsigned_part(s)) <= usize::MAX
}

proof fn lemma_value_grows(t: Seq<char>, k: int)
    requires
        0 <= k <= t.len(),
        forall|i: int| 0 <= i < t.len() ==> is_digit(#[trigger] t[i]),
    ensures
        digits_value(t.take(k)) <= digits_value(t),
    decreases t.len(),
{
    if k < t.len() {
        assert(t.drop_last().take(k) =~= t.take(k));
        lemma_value_grows(t.drop_last(), k);
    } else {
        assert(t.take(k) =~= t);
    }
}

/// Reads an unsigned decimal number: an optional `+` and one or more digits,
/// whose value fits in `usize`.
pub fn parse_number(s: &str) -> (r: Option<usize>)
    ensures
        r is Some <==> is_number(s@),
        r matches Some(n) ==> n == digits_value(unsigned_part(s@)),
{
    let d = chars_of(s);
    let start: usize = if d.len() > 0 && d[0] == '+' { 1 } else { 0 };
    let ghost body = unsigned_part(s@);
    assert(body =~= d@.subrange(start as int, d@.len() as int));
    if start == d.len() {
        return None;
    }
    let mut acc: usize = 0;
    let mut i: usize = start;
    while i < d.len()
        invariant
            start <= i <= d@.len(),
            start < d@.len(),
            body == d@.subrange(start as int, d@.len() as int),
            body == unsigned_part(s@),
            forall|j: int| 0 <= j < i - start ==> is_digit(#[trigger] body[j]),
            acc == digits_value(body.take(i - start)),
        decreases d@.len() - i,
    {
        let c = d[i];
        if !('0' <= c && c <= '9') {
            assert(!is_digit(body[i - start]));
            return None;
        }
        let ghost k = (i - start) as int;
        assert(body.take(k + 1).drop_last() =~= body.take(k));
        assert(body[k] == c);
        assert(digits_value(body.take(k + 1)) == acc * 10 + (c as u32 - '0' as u32));
        let dv = (c as u32 - '0' as u32) as usize;
        let m = acc.checked_mul(10);
        if m.is_none() {
            proof {
                if all_digits(body) {
                    lemma_value_grows(body, k + 1);
                }
            }
            return None;
        }
        let a = m.unwrap().checked_add(dv);
        if a.is_none() {
            proof {
                if all_digits(body) {
                    lemma_value_grows(body, k + 1);
                }
            }
            return None;
        }
        acc = a.unwrap();
        i = i + 1;
    }
    assert(body.take(body.len() as int) =~= body);
    Some(acc)
}

/// Reads a positive count; any other text gives `message` followed by the text.
fn parse_positive(val: &str, message: &str) -> (r: Result<usize, String>)
    ensures
        r is Ok <==> is_number(val@) && digits_value(unsigned_part(val@)) > 0,
        r matches Ok(n) ==> n == digits_value(unsigned_part(val@)),
        r matches Err(e) ==> e@ == message@ + val@,
{
    match parse_number(val) {
        Some(n) if n > 0 => Ok(n),
        _ => {
            let mut e = String::from_str(message);
            e.append(val);
            Err(e)
        },
    }
}

/// Reads the number of lines to show: a positive decimal number.
pub fn parse_lines(val: &str) -> (r: Result<usize, String>)
    ensures
        r is Ok <==> is_number(val@) && digits_value(unsigned_part(val@)) > 0,
        r matches Ok(n) ==> n == digits_value(unsigned_part(val@)),
        r matches Err(e) ==> e@ == "illegal line count -- "@ + val@,
{
    parse_positive(val, "illegal line count -- ")
}

/// Reads the number of bytes to show: a positive decimal number.
pub fn parse_bytes(val: &str) -> (r: Result<usize, String>)
    ensures
        r is Ok <==> is_number(val@) && digits_value(unsigned_part(val@)) > 0,
        r matches Ok(n) ==> n == digits_value(unsigned_part(val@)),
        r matches Err(e) ==> e@ == "illegal byte count -- "@ + val@,
{
    parse_positive(val, "illegal byte count -- ")
}

} // verus!
