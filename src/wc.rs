use vstd::prelude::*;
use crate::text::{chars_of, decimal, format_number, is_white, pad_left, white_space};

verus! {

/// Line, word, byte and character counts of one input.
#[derive(Clone, Copy, Debug, PartialEq, Eq, Structural)]
pub struct FileInfo {
    pub num_lines: usize,
    pub num_words: usize,
    pub num_bytes: usize,
    pub num_chars: usize,
}

/// Which counts to show.
#[derive(Clone, Copy, Debug, PartialEq, Eq, Structural)]
pub struct Flags {
    pub lines: bool,
    pub words: bool,
    pub bytes: bool,
    pub chars: bool,
}

/// The number of bytes of a character in UTF-8.
pub open spec fn utf8_width(c: char) -> nat {
    if (c as u32) < 0x80 {
        1
    } else if (c as u32) < 0x800 {
        2
    } else if (c as u32) < 0x10000 {
        3
    } else {
        4
    }
}

/// The number of bytes of a text in UTF-8.
pub open spec fn utf8_size(t: Seq<char>) -> nat
    decreases t.len(),
{
    if t.len() == 0 {
        0
    } else {
        utf8_size(t.drop_last()) + utf8_width(t.last())
    }
}

/// The number of line feeds in a text.
pub open spec fn newlines(t: Seq<char>) -> nat
    decreases t.len(),
{
    if t.len() == 0 {
        0
    } else {
        newlines(t.drop_last()) + if t.last() == '\n' { 1nat } else { 0nat }
    }
}

/// The number of words: maximal runs of characters that are not white space.
pub open spec fn words(t: Seq<char>) -> nat
    decreases t.len(),
{
    if t.len() == 0 {
        0
    } else {
        words(t.drop_last()) + if !white_space(t.last()) && (t.len() == 1 || white_space(t[t.len() - 2])) {
            1nat
        } else {
            0nat
        }
    }
}

/// Whether the text ends in a line without a line feed; such a line is
/// counted as if it had one.
pub open spec fn open_line(t: Seq<char>) -> nat {
    if t.len() > 0 && t.last() != '\n' {
        1
    } else {
        0
    }
}

/// Counts a text: its lines, words, and its bytes and characters, where a
/// last line without a line feed counts one for the missing line feed.
pub fn count(text: &str) -> (r: FileInfo)
    requires
        text@.len() < usize::MAX / 4,
    ensures
        r.num_lines == newlines(text@) + open_line(text@),
        r.num_words == words(text@),
        r.num_bytes == utf8_size(text@) + open_line(text@),
        r.num_chars == text@.len() + open_line(text@),
{
    let t = chars_of(text);
    let n = t.len();
    let mut lines: usize = 0;
    let mut num_words: usize = 0;
    let mut bytes: usize = 0;
    let mut prev_white = true;
    let mut i: usize = 0;
    while i < n
        invariant
            i <= n == t@.len() == text@.len() < usize::MAX / 4,
            t@ == text@,
            lines == newlines(t@.take(i as int)) <= i,
            num_words == words(t@.take(i as int)) <= i,
            bytes == utf8_size(t@.take(i as int)) <= 4 * i,
            i == 0 ==> prev_white,
            i > 0 ==> prev_white == white_space(t@[i - 1]),
        decreases n - i,
    {
        let c = t[i];
        assert(t@.take(i + 1).drop_last() =~= t@.take(i as int));
        let w = is_white(c);
        if !w && prev_white {
            num_words = num_words + 1;
        }
        if c == '\n' {
            lines = lines + 1;
        }
        let v = c as u32;
        if v < 0x80 {
            bytes = bytes + 1;
        } else if v < 0x800 {
            bytes = bytes + 2;
        } else if v < 0x10000 {
            bytes = bytes + 3;
        } else {
            bytes = bytes + 4;
        }
        prev_white = w;
        i = i + 1;
    }
    assert(t@.take(n as int) =~= t@);
    let extra: usize = if n > 0 && t[n - 1] != '\n' { 1 } else { 0 };
    FileInfo {
        num_lines: lines + extra,
        num_words: num_words,
        num_bytes: bytes + extra,
        num_chars: n + extra,
    }
}

impl FileInfo {
    /// The field-wise sum of two counts, or `None` where a sum overflows.
    pub fn combine(&self, other: &FileInfo) -> (r: Option<FileInfo>)
        ensures
            r is Some <==> (self.num_lines + other.num_lines <= usize::MAX
                && self.num_words + other.num_words <= usize::MAX
                && self.num_bytes + other.num_bytes <= usize::MAX
                && self.num_chars + other.num_chars <= usize::MAX),
            r matches Some(s) ==> (s.num_lines == self.num_lines + other.num_lines
                && s.num_words == self.num_words + other.num_words
                && s.num_bytes == self.num_bytes + other.num_bytes
                && s.num_chars == self.num_chars + other.num_chars),
    {
        let l = self.num_lines.checked_add(other.num_lines)?;
        let w = self.num_words.checked_add(other.num_words)?;
        let b = self.num_bytes.checked_add(other.num_bytes)?;
        let c = self.num_chars.checked_add(other.num_chars)?;
        Some(FileInfo { num_lines: l, num_words: w, num_bytes: b, num_chars: c })
    }
}

impl Flags {
    /// The counts shown where none is asked for: lines, words and bytes.
    pub fn or_default(self) -> (r: Flags)
        ensures
            !self.lines && !self.words && !self.bytes && !self.chars ==> r == (Flags {
                lines: true,
                words: true,
                bytes: true,
                chars: false,
            }),
            self.lines || self.words || self.bytes || self.chars ==> r == self,
    {
        if !self.lines && !self.words && !self.bytes && !self.chars {
            Flags { lines: true, words: true, bytes: true, chars: false }
        } else {
            self
        }
    }
}

/// One count right-aligned in eight columns where it is shown, else nothing.
pub open spec fn column(show: bool, n: nat) -> Seq<char> {
    if show {
        pad_left(decimal(n), 8)
    } else {
        Seq::empty()
    }
}

/// The output line for one input: the counts asked for, lines, words, then
/// bytes or else characters, and the input's name unless it is `-`.
pub open spec fn output_line(flags: Flags, counts: FileInfo, descriptor: Seq<char>) -> Seq<char> {
    column(flags.lines, counts.num_lines as nat) + column(flags.words, counts.num_words as nat)
        + if flags.bytes {
        column(true, counts.num_bytes as nat)
    } else {
        column(flags.chars, counts.num_chars as nat)
    } + if descriptor == seq!['-'] {
        Seq::empty()
    } else {
        seq![' '] + descriptor
    }
}

/// Formats the counts of one input as its output line.
pub fn format_output(flags: &Flags, counts: &FileInfo, descriptor: &str) -> (r: String)
    ensures
        r@ == output_line(*flags, *counts, descriptor@),
{
    let mut r = String::new();
    if flags.lines {
        let f = format_number(counts.num_lines, 8);
        r.append(f.as_str());
    }
    if flags.words {
        let f = format_number(counts.num_words, 8);
        r.append(f.as_str());
    }
    if flags.bytes {
        let f = format_number(counts.num_bytes, 8);
        r.append(f.as_str());
    } else if flags.chars {
        let f = format_number(counts.num_chars, 8);
        r.append(f.as_str());
    }
    let d = chars_of(descriptor);
    let is_dash = d.len() == 1 && d[0] == '-';
    assert(is_dash == (descriptor@ == seq!['-'])) by {
        if descriptor@ == seq!['-'] {
            assert(d@[0] == '-');
        }
        if is_dash {
            assert(descriptor@ =~= seq!['-']);
        }
    }
    if !is_dash {
        r.append(" ");
        r.append(descriptor);
        proof { reveal_strlit(" "); }
    }
    assert(r@ =~= output_line(*flags, *counts, descriptor@));
    r
}

} // verus!
