use vstd::prelude::*;
use crate::text::{decimal, format_number, pad_left, trim, trimmed_eq};

verus! {

/// The text of each line.
pub open spec fn texts(lines: Seq<String>) -> Seq<Seq<char>> {
    lines.map_values(|l: String| l@)
}

/// The records as (count, text) pairs of mathematical values.
pub open spec fn records(v: Seq<(usize, String)>) -> Seq<(int, Seq<char>)> {
    v.map_values(|p: (usize, String)| (p.0 as int, p.1@))
}

/// One record per maximal run of adjacent lines whose trimmed texts are
/// equal: the length of the run and the untrimmed text of its first line.
pub open spec fn collapse_spec(s: Seq<Seq<char>>) -> Seq<(int, Seq<char>)>
    decreases s.len(),
{
    if s.len() == 0 {
        Seq::empty()
    } else {
        let r = collapse_spec(s.drop_last());
        if s.len() >= 2 && trim(s[s.len() - 2]) == trim(s.last()) {
            r.update(r.len() - 1, (r.last().0 + 1, r.last().1))
        } else {
            r.push((1int, s.last()))
        }
    }
}

/// The number of lines covered by the first `k` records.
#[verifier::opaque]
pub open spec fn offset(r: Seq<(int, Seq<char>)>, k: int) -> int
    decreases k,
{
    if k <= 0 {
        0
    } else {
        offset(r, k - 1) + r[k - 1].0
    }
}

proof fn lemma_offset_push(r: Seq<(int, Seq<char>)>, x: (int, Seq<char>), k: int)
    requires
        0 <= k <= r.len(),
    ensures
        offset(r.push(x), k) == offset(r, k),
    decreases k,
{
    reveal(offset);
    if k > 0 {
        lemma_offset_push(r, x, k - 1);
    }
}

proof fn lemma_offset_update(r: Seq<(int, Seq<char>)>, j: int, x: (int, Seq<char>), k: int)
    requires
        0 <= k <= j < r.len(),
    ensures
        offset(r.update(j, x), k) == offset(r, k),
    decreases k,
{
    reveal(offset);
    if k > 0 {
        lemma_offset_update(r, j, x, k - 1);
    }
}

/// The records of `s` tile it: they are in order, each covers at least one
/// line, holds the text of the first line it covers, and records meet exactly
/// where the trimmed text changes.
pub open spec fn tiles(s: Seq<Seq<char>>, r: Seq<(int, Seq<char>)>) -> bool {
    &&& offset(r, r.len() as int) == s.len()
    &&& forall|j: int, k: int| 0 <= j < k <= r.len() ==> #[trigger] offset(r, j) < #[trigger] offset(r, k)
    &&& forall|k: int| 0 <= k < r.len() ==> #[trigger] r[k].1 == s[offset(r, k)]
    &&& forall|k: int| 0 < k < r.len() ==> trim(s[#[trigger] offset(r, k) - 1]) != trim(s[offset(r, k)])
    &&& forall|k: int, i: int| #![trigger offset(r, k), s[i]]
        0 <= k < r.len() && offset(r, k) < i < offset(r, k + 1) ==> trim(s[i - 1]) == trim(s[i])
}

/// What holds after a line that continues the last run is added.
spec fn merge_ready(s: Seq<Seq<char>>) -> bool {
    let s0 = s.drop_last();
    let r0 = collapse_spec(s0);
    let r = collapse_spec(s);
    let m = r0.len() as int;
    &&& s.len() >= 2
    &&& trim(s[s.len() - 2]) == trim(s.last())
    &&& tiles(s0, r0)
    &&& m >= 1
    &&& r == r0.update(m - 1, (r0.last().0 + 1, r0.last().1))
    &&& forall|k: int| 0 <= k <= m - 1 ==> #[trigger] offset(r, k) == offset(r0, k)
    &&& offset(r, m) == offset(r0, m) + 1
}

proof fn lemma_merge_order(s: Seq<Seq<char>>)
    requires
        merge_ready(s),
    ensures
        forall|j: int, k: int| 0 <= j < k <= collapse_spec(s).len() ==> #[trigger] offset(collapse_spec(s), j) < #[trigger] offset(collapse_spec(s), k),
{
    let r = collapse_spec(s);
    let s0 = s.drop_last();
    let r0 = collapse_spec(s0);
    let n = s.len() as int;
    let m = r0.len() as int;
    assert forall|i: int| 0 <= i < n - 1 implies s[i] == s0[i] by {}
    assert forall|j: int, k: int| 0 <= j < k <= r.len() implies #[trigger] offset(r, j) < #[trigger] offset(r, k) by {
        if k < m {
            assert(offset(r0, j) < offset(r0, k));
        } else {
            assert(offset(r0, j) <= offset(r0, m - 1));
            if j < m - 1 {
                assert(offset(r0, j) < offset(r0, m - 1));
            }
            assert(offset(r0, m - 1) < offset(r0, m));
        }
    }
}

proof fn lemma_merge_text(s: Seq<Seq<char>>)
    requires
        merge_ready(s),
    ensures
        forall|k: int| 0 <= k < collapse_spec(s).len() ==> #[trigger] collapse_spec(s)[k].1 == s[offset(collapse_spec(s), k)],
{
    let r = collapse_spec(s);
    let s0 = s.drop_last();
    let r0 = collapse_spec(s0);
    let n = s.len() as int;
    let m = r0.len() as int;
    assert forall|i: int| 0 <= i < n - 1 implies s[i] == s0[i] by {}
    assert forall|k: int| 0 <= k < r.len() implies #[trigger] r[k].1 == s[offset(r, k)] by {
        assert(offset(r, k) == offset(r0, k));
        assert(r[k].1 == r0[k].1);
        assert(offset(r0, k) < offset(r0, m));
        assert(offset(r0, 0) == 0) by { reveal(offset); }
        if k > 0 {
            assert(offset(r0, 0) < offset(r0, k));
        }
        assert(s[offset(r0, k)] == s0[offset(r0, k)]);
    }
}

proof fn lemma_merge_bound(s: Seq<Seq<char>>)
    requires
        merge_ready(s),
    ensures
        forall|k: int| 0 < k < collapse_spec(s).len() ==> trim(s[#[trigger] offset(collapse_spec(s), k) - 1]) != trim(s[offset(collapse_spec(s), k)]),
{
    let r = collapse_spec(s);
    let s0 = s.drop_last();
    let r0 = collapse_spec(s0);
    let n = s.len() as int;
    let m = r0.len() as int;
    assert forall|i: int| 0 <= i < n - 1 implies s[i] == s0[i] by {}
    assert forall|k: int| 0 < k < r.len() implies trim(s[#[trigger] offset(r, k) - 1]) != trim(s[offset(r, k)]) by {
        assert(offset(r, k) == offset(r0, k));
        assert(offset(r0, k) < offset(r0, m));
        assert(offset(r0, 0) == 0) by { reveal(offset); }
        assert(offset(r0, 0) < offset(r0, k));
        assert(s[offset(r0, k)] == s0[offset(r0, k)]);
        assert(s[offset(r0, k) - 1] == s0[offset(r0, k) - 1]);
    }
}

proof fn lemma_merge_within(s: Seq<Seq<char>>)
    requires
        merge_ready(s),
    ensures
        forall|k: int, i: int| #![trigger offset(collapse_spec(s), k), s[i]]
            0 <= k < collapse_spec(s).len() && offset(collapse_spec(s), k) < i < offset(collapse_spec(s), k + 1)
            ==> trim(s[i - 1]) == trim(s[i]),
{
    let r = collapse_spec(s);
    let s0 = s.drop_last();
    let r0 = collapse_spec(s0);
    let n = s.len() as int;
    let m = r0.len() as int;
        assert forall|k: int, i: int| #![trigger offset(r, k), s[i]]
        0 <= k < r.len() && offset(r, k) < i < offset(r, k + 1) implies trim(s[i - 1]) == trim(s[i]) by {
        assert(offset(r0, 0) == 0) by { reveal(offset); }
        assert(offset(r, k) == offset(r0, k));
        if k > 0 {
            assert(offset(r0, 0) < offset(r0, k));
        }
        if k < m - 1 {
            assert(offset(r, k + 1) == offset(r0, k + 1));
            assert(offset(r0, k + 1) <= offset(r0, m - 1)) by {
                if k + 1 < m - 1 {
                    assert(offset(r0, k + 1) < offset(r0, m - 1));
                }
            }
            assert(offset(r0, m - 1) < offset(r0, m));
            assert(s[i] == s0[i] && s[i - 1] == s0[i - 1]);
            assert(trim(s0[i - 1]) == trim(s0[i]));
        } else if i < n - 1 {
            assert(s[i] == s0[i] && s[i - 1] == s0[i - 1]);
            assert(trim(s0[i - 1]) == trim(s0[i]));
        }
    }
}

proof fn lemma_tiles_merge(s: Seq<Seq<char>>)
    requires
        s.len() >= 2,
        trim(s[s.len() - 2]) == trim(s.last()),
        tiles(s.drop_last(), collapse_spec(s.drop_last())),
    ensures
        tiles(s, collapse_spec(s)),
{
    let r = collapse_spec(s);
    let s0 = s.drop_last();
    let r0 = collapse_spec(s0);
    let n = s.len() as int;
    let m = r0.len() as int;
    assert forall|i: int| 0 <= i < n - 1 implies s[i] == s0[i] by {}
    assert(m >= 1) by {
        if m == 0 {
            assert(offset(r0, 0) == 0) by { reveal(offset); }
        }
    }
    assert(r.len() == m);
    assert forall|k: int| 0 <= k <= m - 1 implies offset(r, k) == offset(r0, k) by {
        lemma_offset_update(r0, m - 1, (r0.last().0 + 1, r0.last().1), k);
    }
    assert(offset(r, m) == offset(r0, m) + 1) by {
        reveal(offset);
    }
    assert(merge_ready(s));
    lemma_merge_order(s);
    lemma_merge_text(s);
    lemma_merge_bound(s);
    lemma_merge_within(s);
}

proof fn lemma_tiles_open(s: Seq<Seq<char>>)
    requires
        s.len() >= 1,
        s.len() == 1 || trim(s[s.len() - 2]) != trim(s.last()),
        tiles(s.drop_last(), collapse_spec(s.drop_last())),
    ensures
        tiles(s, collapse_spec(s)),
{
    let r = collapse_spec(s);
    let s0 = s.drop_last();
    let r0 = collapse_spec(s0);
    let n = s.len() as int;
    let m = r0.len() as int;
    assert forall|i: int| 0 <= i < n - 1 implies s[i] == s0[i] by {}
    let x = (1int, s.last());
    assert(r == r0.push(x));
    assert forall|k: int| 0 <= k <= m implies offset(r, k) == offset(r0, k) by {
        lemma_offset_push(r0, x, k);
    }
    assert(offset(r, m + 1) == n) by {
        reveal(offset);
    }
    assert forall|j: int, k: int| 0 <= j < k <= r.len() implies #[trigger] offset(r, j) < #[trigger] offset(r, k) by {
        if k <= m {
            assert(offset(r0, j) < offset(r0, k));
        } else if j < m {
            assert(offset(r0, j) < offset(r0, m));
        }
    }
    assert forall|k: int| 0 <= k < r.len() implies #[trigger] r[k].1 == s[offset(r, k)] by {
        assert(offset(r, k) == offset(r0, k));
        if k < m {
            assert(offset(r0, k) < offset(r0, m));
            assert(offset(r0, 0) == 0) by { reveal(offset); }
            if k > 0 {
                assert(offset(r0, 0) < offset(r0, k));
            }
            assert(r[k] == r0[k]);
            assert(s[offset(r0, k)] == s0[offset(r0, k)]);
        }
    }
    assert forall|k: int| 0 < k < r.len() implies trim(s[#[trigger] offset(r, k) - 1]) != trim(s[offset(r, k)]) by {
        assert(offset(r, k) == offset(r0, k));
        assert(offset(r0, 0) == 0) by { reveal(offset); }
        assert(offset(r0, 0) < offset(r0, k));
        if k < m {
            assert(offset(r0, k) < offset(r0, m));
            assert(s[offset(r0, k)] == s0[offset(r0, k)]);
            assert(s[offset(r0, k) - 1] == s0[offset(r0, k) - 1]);
        }
    }
    assert forall|k: int, i: int| #![trigger offset(r, k), s[i]]
        0 <= k < r.len() && offset(r, k) < i < offset(r, k + 1) implies trim(s[i - 1]) == trim(s[i]) by {
        if k == m {
            assert(offset(r, k + 1) == offset(r, k) + 1) by { reveal(offset); }
        }
        if k < m {
            assert(offset(r0, 0) == 0) by { reveal(offset); }
            if k > 0 {
                assert(offset(r0, 0) < offset(r0, k));
            }
            assert(offset(r, k) == offset(r0, k));
            assert(offset(r, k + 1) == offset(r0, k + 1));
            assert(offset(r0, k + 1) <= offset(r0, m)) by {
                if k + 1 < m {
                    assert(offset(r0, k + 1) < offset(r0, m));
                }
            }
            assert(s[i] == s0[i] && s[i - 1] == s0[i - 1]);
            assert(trim(s0[i - 1]) == trim(s0[i]));
        }
    }
}

proof fn lemma_tiles(s: Seq<Seq<char>>)
    ensures
        tiles(s, collapse_spec(s)),
    decreases s.len(),
{
    if s.len() == 0 {
        assert(offset(collapse_spec(s), 0) == 0) by { reveal(offset); }
    } else {
        lemma_tiles(s.drop_last());
        if s.len() >= 2 && trim(s[s.len() - 2]) == trim(s.last()) {
            lemma_tiles_merge(s);
        } else {
            lemma_tiles_open(s);
        }
    }
}

/// No line is lost or repeated: the counts of the records add up to the
/// number of lines.
pub proof fn lemma_mass_conservation(s: Seq<Seq<char>>)
    ensures
        offset(collapse_spec(s), collapse_spec(s).len() as int) == s.len(),
{
    lemma_tiles(s);
}

/// Each record holds, untrimmed, the first line of its run: the line at the
/// position where the record begins.
pub proof fn lemma_first_line_kept(s: Seq<Seq<char>>, k: int)
    requires
        0 <= k < collapse_spec(s).len(),
    ensures
        0 <= offset(collapse_spec(s), k) < s.len(),
        collapse_spec(s)[k].1 == s[offset(collapse_spec(s), k)],
{
    let r = collapse_spec(s);
    lemma_tiles(s);
    assert(offset(r, 0) == 0) by { reveal(offset); }
    if k > 0 {
        assert(offset(r, 0) < offset(r, k));
    }
    assert(offset(r, k) < offset(r, r.len() as int));
}

proof fn lemma_find_record(r: Seq<(int, Seq<char>)>, i: int, k: int)
    requires
        0 <= k < r.len(),
        offset(r, k) <= i < offset(r, r.len() as int),
    ensures
        exists|j: int| 0 <= j < r.len() && #[trigger] offset(r, j) <= i < offset(r, j + 1),
    decreases r.len() - k,
{
    if i >= offset(r, k + 1) {
        lemma_find_record(r, i, k + 1);
    } else {
        assert(offset(r, k) <= i < offset(r, k + 1));
    }
}

/// Every line falls in some record.
pub proof fn lemma_line_in_record(s: Seq<Seq<char>>, i: int)
    requires
        0 <= i < s.len(),
    ensures
        exists|k: int| 0 <= k < collapse_spec(s).len() && #[trigger] offset(collapse_spec(s), k) <= i < offset(collapse_spec(s), k + 1),
{
    lemma_tiles(s);
    let r = collapse_spec(s);
    assert(offset(r, 0) == 0) by { reveal(offset); }
    if r.len() == 0 {
        assert(false);
    }
    lemma_find_record(r, i, 0);
}

/// Two adjacent lines fall in the same record exactly when their trimmed
/// texts are equal.
pub proof fn lemma_run_boundary(s: Seq<Seq<char>>, i: int)
    requires
        0 < i < s.len(),
    ensures
        (exists|k: int| 0 <= k < collapse_spec(s).len() && #[trigger] offset(collapse_spec(s), k) <= i - 1
            && i < offset(collapse_spec(s), k + 1)) <==> trim(s[i - 1]) == trim(s[i]),
{
    let r = collapse_spec(s);
    lemma_tiles(s);
    lemma_line_in_record(s, i);
    assert(offset(r, 0) == 0) by { reveal(offset); }
    let k0 = choose|k: int| 0 <= k < r.len() && #[trigger] offset(r, k) <= i < offset(r, k + 1);
    if i > offset(r, k0) {
        assert(trim(s[i - 1]) == trim(s[i]));
        assert(offset(r, k0) <= i - 1 && i < offset(r, k0 + 1));
    } else {
        assert(k0 > 0) by {
            if k0 == 0 {
                assert(offset(r, 0) == 0);
            }
        }
        assert(trim(s[i - 1]) != trim(s[i]));
        assert forall|k: int| 0 <= k < r.len() && #[trigger] offset(r, k) <= i - 1 implies !(i < offset(r, k + 1)) by {
            if k >= k0 {
                if k > k0 {
                    assert(offset(r, k0) < offset(r, k));
                }
            } else if k + 1 < k0 {
                assert(offset(r, k + 1) < offset(r, k0));
            }
        }
    }
}

/// Records come in the order in which their runs begin in the input.
pub proof fn lemma_order_kept(s: Seq<Seq<char>>, j: int, k: int)
    requires
        0 <= j < k < collapse_spec(s).len(),
    ensures
        offset(collapse_spec(s), j) < offset(collapse_spec(s), k),
{
    lemma_tiles(s);
}

/// Empty input gives no record.
pub proof fn lemma_empty(s: Seq<Seq<char>>)
    requires
        s.len() == 0,
    ensures
        collapse_spec(s).len() == 0,
{
}

/// Collapses each run of adjacent lines that are equal once trimmed into one
/// record: the number of lines in the run and the first line's text.
pub fn collapse(lines: &Vec<String>) -> (r: Vec<(usize, String)>)
    ensures
        records(r@) == collapse_spec(texts(lines@)),
{
    let ghost s = texts(lines@);
    let mut out: Vec<(usize, String)> = Vec::new();
    let n = lines.len();
    if n == 0 {
        assert(records(out@) =~= collapse_spec(s));
        return out;
    }
    let mut rep = lines[0].clone();
    let mut cnt: usize = 1;
    assert(s.take(1).drop_last() =~= Seq::<Seq<char>>::empty());
    assert(collapse_spec(s.take(1).drop_last()) =~= Seq::empty());
    assert(s.take(1).last() == rep@);
    assert(records(out@).push((cnt as int, rep@)) =~= collapse_spec(s.take(1)));
    let mut i: usize = 1;
    while i < n
        invariant
            1 <= i <= n == lines@.len(),
            s == texts(lines@),
            1 <= cnt <= i,
            trim(rep@) == trim(s[i - 1]),
            records(out@).push((cnt as int, rep@)) == collapse_spec(s.take(i as int)),
        decreases n - i,
    {
        assert(s.take(i + 1).drop_last() =~= s.take(i as int));
        if trimmed_eq(lines[i].as_str(), rep.as_str()) {
            cnt = cnt + 1;
        } else {
            out.push((cnt, rep));
            rep = lines[i].clone();
            cnt = 1;
        }
        i = i + 1;
        assert(records(out@).push((cnt as int, rep@)) =~= collapse_spec(s.take(i as int)));
    }
    out.push((cnt, rep));
    assert(s.take(n as int) =~= s);
    assert(records(out@) =~= collapse_spec(s));
    out
}

/// One output line for a record: the count right-aligned in four columns and
/// a space before the text where counts are shown, else the text alone.
pub open spec fn record_line(count: nat, text: Seq<char>, show_count: bool) -> Seq<char> {
    if show_count {
        pad_left(decimal(count), 4) + seq![' '] + text
    } else {
        text
    }
}

/// Formats one record as an output line.
pub fn format_record(count: usize, text: &str, show_count: bool) -> (r: String)
    ensures
        r@ == record_line(count as nat, text@, show_count),
{
    if show_count {
        let mut r = format_number(count, 4);
        r.append(" ");
        r.append(text);
        proof { reveal_strlit(" "); }
        assert(r@ =~= record_line(count as nat, text@, show_count));
        r
    } else {
        String::from_str(text)
    }
}

} // verus!
