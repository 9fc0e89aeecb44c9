use vstd::prelude::*;

verus! {

/// The blocks of `s` from `start`, scanning for a blank-line separator
/// (`"\n\n"`) from `i`: separators are taken left to right, without overlap.
pub open spec fn blocks_from(s: Seq<char>, start: int, i: int) -> Seq<Seq<char>>
    decreases s.len() - i,
{
    if i < 0 || i + 1 >= s.len() {
        seq![s.subrange(start, s.len() as int)]
    } else if s[i] == '\n' && s[i + 1] == '\n' {
        seq![s.subrange(start, i)] + blocks_from(s, i + 2, i + 2)
    } else {
        blocks_from(s, start, i + 1)
    }
}

/// The blocks of `s` separated by blank lines.
pub open spec fn blocks(s: Seq<char>) -> Seq<Seq<char>> {
    blocks_from(s, 0, 0)
}

pub open spec fn views(v: Seq<String>) -> Seq<Seq<char>> {
    v.map_values(|x: String| x@)
}

/// Splits a text of rules at each `"\n\n"`, one rule per block.
pub fn read_bnfs(s: String) -> (r: Vec<String>)
    ensures
        views(r@) == blocks(s@),
{
    let text = s.as_str();
    let n = text.unicode_len();
    let chars = crate::parser::chars_of(text);
    let mut out: Vec<String> = Vec::new();
    let mut start: usize = 0;
    let mut i: usize = 0;
    while n - i > 1
        invariant
            n == s@.len(),
            chars@ == s@,
            text@ == s@,
            start <= i <= n,
            views(out@) + blocks_from(s@, start as int, i as int) == blocks(s@),
        decreases n - i,
    {
        if chars[i] == '\n' && chars[i + 1] == '\n' {
            let piece = String::from_str(text.substring_char(start, i));
            proof {
                assert(views(out@.push(piece)) =~= views(out@) + seq![piece@]);
                assert(views(out@) + blocks_from(s@, start as int, i as int) =~= views(
                    out@.push(piece),
                ) + blocks_from(s@, i + 2, i + 2));
            }
            out.push(piece);
            start = i + 2;
            i = i + 2;
        } else {
            i = i + 1;
        }
    }
    let last = String::from_str(text.substring_char(start, n));
    proof {
        assert(views(out@.push(last)) =~= views(out@) + seq![last@]);
    }
    out.push(last);
    out
}

} // verus!
