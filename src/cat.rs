use vstd::prelude::*;
use crate::text::{decimal, format_number, pad_left};

verus! {

/// Which lines get a number.
#[derive(Clone, Copy, Debug, PartialEq, Eq, Structural)]
pub enum Numbering {
    /// No line is numbered.
    Off,
    /// Every line is numbered.
    All,
    /// Every line but the empty ones is numbered.
    NonBlank,
}

/// Whether a line gets a number under a numbering mode.
pub open spec fn numbered(mode: Numbering, line: Seq<char>) -> bool {
    match mode {
        Numbering::Off => false,
        Numbering::All => true,
        Numbering::NonBlank => line.len() > 0,
    }
}

/// A line with its number right-aligned in six columns and a tab before it.
pub open spec fn with_number(n: nat, line: Seq<char>) -> Seq<char> {
    pad_left(decimal(n), 6) + seq!['\t'] + line
}

/// The output for one line, given the number that the next numbered line
/// gets, and that number afterwards.
pub fn number_line(line: &str, mode: Numbering, next: usize) -> (r: (String, usize))
    requires
        next < usize::MAX,
    ensures
        numbered(mode, line@) ==> r.0@ == with_number(next as nat, line@) && r.1 == next + 1,
        !numbered(mode, line@) ==> r.0@ == line@ && r.1 == next,
{
    let show = match mode {
        Numbering::Off => false,
        Numbering::All => true,
        Numbering::NonBlank => line.unicode_len() > 0,
    };
    if show {
        let mut s = format_number(next, 6);
        s.append("\t");
        s.append(line);
        proof { reveal_strlit("\t"); }
        assert(s@ =~= with_number(next as nat, line@));
        (s, next + 1)
    } else {
        (String::from_str(line), next)
    }
}

} // verus!
