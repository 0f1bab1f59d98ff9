//! A readable view of a rank stream beside its text: after each line of the
//! text comes a line of one glyph per byte, showing how well it was predicted.
use vstd::prelude::*;

verus! {

/// The line feed, which ends a line of text.
pub const NEWLINE: u8 = 10;

/// The space that starts every line of glyphs.
pub const BLANK: u8 = 32;

/// `>`, which introduces a line of glyphs.
pub const MARKER: u8 = 62;

/// The glyph of a rank: `.` for 0, the digits `1`-`9` and the letters `a`-`f`
/// for 1 to 15, and `!` for anything higher.
pub open spec fn glyph(rank: u8) -> u8 {
    if rank == 0 {
        46
    } else if rank <= 9 {
        (48 + rank) as u8
    } else if rank <= 15 {
        (87 + rank) as u8
    } else {
        33
    }
}

/// The view of the first `i` bytes of `text` with their ranks: the output so
/// far and the glyphs of the line not yet ended.
pub open spec fn annotated_upto(text: Seq<u8>, ranks: Seq<u8>, i: nat) -> (Seq<u8>, Seq<u8>)
    decreases i,
{
    if i == 0 {
        (seq![BLANK], Seq::empty())
    } else {
        let (out, pending) = annotated_upto(text, ranks, (i - 1) as nat);
        let ch = text[i - 1];
        let glyphs = pending.push(glyph(ranks[i - 1]));
        if ch == NEWLINE {
            (out.push(ch).push(MARKER) + glyphs + seq![NEWLINE, BLANK], Seq::empty())
        } else {
            (out.push(ch), glyphs)
        }
    }
}

/// The view of `text` with its ranks (glyphs after the last line feed are
/// not shown).
pub open spec fn annotated(text: Seq<u8>, ranks: Seq<u8>) -> Seq<u8> {
    annotated_upto(text, ranks, text.len()).0
}

/// The glyph of a rank.
pub fn rank_glyph(rank: u8) -> (r: u8)
    ensures
        r == glyph(rank),
{
    if rank == 0 {
        46
    } else if rank <= 9 {
        48 + rank
    } else if rank <= 15 {
        87 + rank
    } else {
        33
    }
}

/// The view of `text` with the ranks it was coded with, or `None` if there
/// are fewer ranks than bytes of text.
pub fn rank_display(text: &[u8], ranks: &[u8]) -> (r: Option<Vec<u8>>)
    ensures
        ranks@.len() < text@.len() <==> r is None,
        r matches Some(v) ==> v@ == annotated(text@, ranks@),
{
    if ranks.len() < text.len() {
        return None;
    }
    let mut contents: Vec<u8> = Vec::new();
    contents.push(BLANK);
    let mut pending: Vec<u8> = Vec::new();
    let mut i: usize = 0;
    proof {
        assert(contents@ =~= seq![BLANK]);
        assert(pending@ =~= Seq::<u8>::empty());
    }
    while i < text.len()
        invariant
            i <= text@.len() <= ranks@.len(),
            annotated_upto(text@, ranks@, i as nat) == (contents@, pending@),
        decreases text@.len() - i,
    {
        let ch = text[i];
        pending.push(rank_glyph(ranks[i]));
        contents.push(ch);
        if ch == NEWLINE {
            contents.push(MARKER);
            let mut k: usize = 0;
            let ghost before = contents@;
            while k < pending.len()
                invariant
                    k <= pending@.len(),
                    contents@ == before + pending@.subrange(0, k as int),
                decreases pending@.len() - k,
            {
                contents.push(pending[k]);
                proof {
                    assert(contents@ =~= before + pending@.subrange(0, k + 1));
                }
                k += 1;
            }
            contents.push(NEWLINE);
            contents.push(BLANK);
            proof {
                assert(pending@.subrange(0, pending@.len() as int) =~= pending@);
                assert(contents@ =~= before + pending@ + seq![NEWLINE, BLANK]);
            }
            pending.clear();
            proof {
                assert(pending@ =~= Seq::<u8>::empty());
            }
        }
        i += 1;
    }
    Some(contents)
}

} // verus!
