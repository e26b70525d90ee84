//! What white space is and what trimming does.

use vstd::prelude::*;

use crate::text::spaces;

verus! {

/// White space is what Unicode says it is: the tab, the line breaks, the space, and the spaces of
/// other widths and scripts, the ideographic one among them. Text in any script is not.
pub proof fn law_white_space_is_that_of_unicode(c: char)
    ensures
        spaces::is_white(c) <==> {
            ||| '\u{9}' <= c <= '\u{d}'
            ||| c == ' '
            ||| c == '\u{85}'
            ||| c == '\u{a0}'
            ||| c == '\u{1680}'
            ||| '\u{2000}' <= c <= '\u{200a}'
            ||| '\u{2028}' <= c <= '\u{2029}'
            ||| c == '\u{202f}'
            ||| c == '\u{205f}'
            ||| c == '\u{3000}'
        },
{
}

/// Trimming takes the white space at either end of a text and leaves everything between.
pub proof fn law_trimming_takes_white_space_only(before: Seq<char>, core: Seq<char>, after: Seq<char>)
    requires
        spaces::all_white(before),
        spaces::all_white(after),
        core.len() > 0,
        !spaces::is_white(core[0]) && !spaces::is_white(core.last()),
    ensures
        spaces::trim(before + core + after) == core,
{
    lemma_trim_front(before, core + after);
    assert(before + (core + after) =~= before + core + after);
    assert((core + after)[0] == core[0]);
    lemma_trim_back(core, after);
}

pub proof fn lemma_trim_front(before: Seq<char>, rest: Seq<char>)
    requires
        spaces::all_white(before),
        rest.len() > 0,
        !spaces::is_white(rest[0]),
    ensures
        spaces::trim_start(before + rest) == rest,
    decreases before.len(),
{
    let all = before + rest;
    if before.len() > 0 {
        assert(all[0] == before[0]);
        assert(all.drop_first() =~= before.drop_first() + rest);
        let b = before.drop_first();
        assert forall|i: int| 0 <= i < b.len() implies spaces::is_white(#[trigger] b[i]) by {
            assert(b[i] == before[i + 1]);
        }
        lemma_trim_front(b, rest);
    } else {
        assert(all =~= rest);
    }
}

pub proof fn lemma_trim_back(core: Seq<char>, after: Seq<char>)
    requires
        spaces::all_white(after),
        core.len() > 0,
        !spaces::is_white(core.last()),
    ensures
        spaces::trim_end(core + after) == core,
    decreases after.len(),
{
    let all = core + after;
    if after.len() > 0 {
        assert(all.last() == after[after.len() - 1]);
        assert(all.drop_last() =~= core + after.drop_last());
        let b = after.drop_last();
        assert forall|i: int| 0 <= i < b.len() implies spaces::is_white(#[trigger] b[i]) by {
            assert(b[i] == after[i]);
        }
        lemma_trim_back(core, b);
    } else {
        assert(all =~= core);
    }
}

/// Trimming a text that is trimmed at its end gives the same as trimming it at once.
pub proof fn lemma_trim_after_trim_end(s: Seq<char>)
    ensures
        spaces::trim(spaces::trim_end(s)) == spaces::trim(s),
{
    let t = spaces::trim_end(s);
    spaces::lemma_trim_end(s);
    spaces::lemma_blank(s);
    spaces::lemma_blank(t);
    if spaces::all_white(s) {
        assert(t =~= Seq::<char>::empty());
        assert(spaces::trim(s) =~= spaces::trim(t));
    } else {
        let k = t.len() as int;
        let r = spaces::trim_start(s);
        spaces::lemma_trim_start(s);
        let j = s.len() - r.len();
        assert(r.len() > 0) by {
            if r.len() == 0 {
                assert(s.take(s.len() as int) =~= s);
            }
        }
        assert(s[j] == r[0]);
        assert(j < k) by {
            if j >= k {
                assert(s.skip(k)[j - k] == s[j]);
            }
        }
        let core = s.subrange(j, k);
        assert(core[0] == s[j]);
        assert(core.last() == t.last());
        lemma_trim_front(s.take(j), core);
        assert(s.take(j) + core =~= t);
        assert(spaces::trim_end(core) == core);
        lemma_trim_back(core, s.skip(k));
        assert(core + s.skip(k) =~= r);
    }
}

/// A text on one line has a space for each line break and every other character as it is.
pub proof fn law_one_line_has_no_breaks(text: Seq<char>)
    ensures
        spaces::one_line(text).len() == text.len(),
        forall|i: int|
            0 <= i < text.len() ==> #[trigger] spaces::one_line(text)[i] == (if text[i] == '\n' {
                ' '
            } else {
                text[i]
            }),
{
}

} // verus!
