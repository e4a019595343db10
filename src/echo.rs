use vstd::prelude::*;

verus! {

/// The words joined by single spaces.
pub open spec fn joined(words: Seq<Seq<char>>) -> Seq<char>
    decreases words.len(),
{
    if words.len() == 0 {
        Seq::empty()
    } else if words.len() == 1 {
        words[0]
    } else {
        joined(words.drop_last()) + seq![' '] + words.last()
    }
}

/// The text to echo: the words joined by single spaces, then a line feed
/// unless it is left out.
pub fn echo_text(words: &Vec<String>, omit_newline: bool) -> (r: String)
    ensures
        r@ == joined(words@.map_values(|w: String| w@)) + if omit_newline {
            Seq::<char>::empty()
        } else {
            seq!['\n']
        },
{
    let ghost ws = words@.map_values(|w: String| w@);
    let mut r = String::new();
    let mut i: usize = 0;
    while i < words.len()
        invariant
            i <= words@.len(),
            ws == words@.map_values(|w: String| w@),
            r@ == joined(ws.take(i as int)),
        decreases words@.len() - i,
    {
        assert(ws.take(i + 1).drop_last() =~= ws.take(i as int));
        assert(ws.take(i + 1).last() == words@[i as int]@);
        assert(i == 0 ==> joined(ws.take(i as int)) =~= Seq::<char>::empty());
        if i > 0 {
            r.append(" ");
            proof { reveal_strlit(" "); }
        }
        r.append(words[i].as_str());
        i = i + 1;
        assert(r@ =~= joined(ws.take(i as int)));
    }
    assert(ws.take(words@.len() as int) =~= ws);
    if !omit_newline {
        r.append("\n");
        proof { reveal_strlit("\n"); }
    }
    assert(r@ =~= joined(ws) + if omit_newline { Seq::<char>::empty() } else { seq!['\n'] });
    r
}

} // verus!
