//! Recognising replies that hand a subtitle back untranslated.

use vstd::prelude::*;

use crate::text::chars::{chars_of, same_chars, same_text};
use crate::text::spaces::trim_of;
use crate::text::spaces;
use crate::types;
use crate::types::{ItemView, SegmentView, SubtitleSegment, TranslateItem};

verus! {

/// How many characters two texts have in common, counting repetitions.
pub open spec fn common(s: Seq<char>, t: Seq<char>) -> nat {
    s.to_multiset().intersection_with(t.to_multiset()).len()
}

/// Nine tenths of the characters of two texts are common to both.
pub open spec fn alike(s: Seq<char>, t: Seq<char>) -> bool {
    20 * common(s, t) >= 9 * (s.len() + t.len())
}

/// Texts with fewer characters than this are never taken for copies: short words are often
/// written alike in two languages.
pub const COPY_MIN_CHARS: usize = 8;

/// A translation is a copy of the source if the two are the same, or of similar length and alike.
/// White space around them does not count, and short or empty texts are no copies.
pub open spec fn copied(source: Seq<char>, translated: Seq<char>) -> bool {
    let s = spaces::trim(source);
    let t = spaces::trim(translated);
    &&& t.len() > 0
    &&& s.len() >= COPY_MIN_CHARS
    &&& s == t || (5 * t.len() >= 3 * s.len() && 5 * t.len() <= 8 * s.len() && alike(s, t))
}

proof fn lemma_common_step(s: Seq<char>, t: Seq<char>, rest: Seq<char>, i: int)
    requires
        0 <= i < s.len(),
        forall|c: char| #[trigger]
            rest.to_multiset().count(c) == t.to_multiset().count(c) - s.take(
                i,
            ).to_multiset().intersection_with(t.to_multiset()).count(c),
    ensures
        s.take(i + 1).to_multiset() == s.take(i).to_multiset().insert(s[i]),
        rest.contains(s[i]) ==> s.take(i + 1).to_multiset().intersection_with(t.to_multiset())
            == s.take(i).to_multiset().intersection_with(t.to_multiset()).insert(s[i]),
        !rest.contains(s[i]) ==> s.take(i + 1).to_multiset().intersection_with(t.to_multiset())
            == s.take(i).to_multiset().intersection_with(t.to_multiset()),
{
    broadcast use vstd::seq_lib::group_to_multiset_ensures;
    broadcast use vstd::multiset::group_multiset_axioms;
    broadcast use vstd::multiset::group_multiset_properties;

    assert(s.take(i + 1) =~= s.take(i).push(s[i]));
    let p = s.take(i).to_multiset();
    let q = s.take(i + 1).to_multiset();
    let m = t.to_multiset();
    let c = s[i];
    assert(rest.to_multiset().count(c) == m.count(c) - p.intersection_with(m).count(c));
    if rest.contains(c) {
        assert(q.intersection_with(m) =~= p.intersection_with(m).insert(c));
    } else {
        assert(q.intersection_with(m) =~= p.intersection_with(m));
    }
}

proof fn lemma_taken_out(s: Seq<char>, k: int)
    requires
        0 <= k < s.len(),
    ensures
        s.contains(s[k]),
        forall|d: char| #[trigger]
            s.remove(k).to_multiset().count(d) == s.to_multiset().count(d) - (if d == s[k] {
                1int
            } else {
                0
            }),
{
    broadcast use vstd::seq_lib::group_to_multiset_ensures;
    broadcast use vstd::multiset::group_multiset_axioms;
    broadcast use vstd::multiset::group_multiset_properties;

    assert(s.remove(k).to_multiset() == s.to_multiset().remove(s[k]));
    assert(s.contains(s[k]));
    assert(s.to_multiset().count(s[k]) > 0);
}

proof fn lemma_insert_count(m: vstd::multiset::Multiset<char>, c: char, d: char)
    ensures
        m.insert(c).count(d) == m.count(d) + (if d == c {
            1int
        } else {
            0
        }),
{
    broadcast use vstd::multiset::group_multiset_axioms;
    broadcast use vstd::multiset::group_multiset_properties;

}

/// How many characters two texts have in common, counting repetitions.
pub fn common_chars(s: &[char], t: &[char]) -> (n: usize)
    ensures
        n == common(s@, t@),
        n <= s@.len(),
{
    broadcast use vstd::seq_lib::group_to_multiset_ensures;
    broadcast use vstd::multiset::group_multiset_axioms;
    broadcast use vstd::multiset::group_multiset_properties;

    let mut rest: Vec<char> = Vec::new();
    crate::text::pieces::push_chars(&mut rest, t);
    assert(rest@ =~= t@);
    let mut n: usize = 0;
    let ghost m = t@.to_multiset();
    proof {
        assert(s@.take(0) =~= Seq::<char>::empty());
        assert(s@.take(0).to_multiset().intersection_with(m) =~= vstd::multiset::Multiset::<
            char,
        >::empty());
    }
    for i in 0..s.len()
        invariant
            m == t@.to_multiset(),
            n <= i,
            n == s@.take(i as int).to_multiset().intersection_with(m).len(),
            forall|c: char| #[trigger]
                rest@.to_multiset().count(c) == m.count(c) - s@.take(
                    i as int,
                ).to_multiset().intersection_with(m).count(c),
    {
        let c: char = s[i];
        proof {
            lemma_common_step(s@, t@, rest@, i as int);
        }
        let ghost before = rest@;
        match position_of(rest.as_slice(), c) {
            Some(k) => {
                rest.remove(k);
                n = n + 1;
                proof {
                    lemma_taken_out(before, k as int);
                    let p = s@.take(i as int).to_multiset().intersection_with(m);
                    let q = s@.take(i + 1).to_multiset().intersection_with(m);
                    assert(q == p.insert(c));
                    assert forall|d: char| #[trigger]
                        rest@.to_multiset().count(d) == m.count(d) - q.count(d) by {
                        assert(before.to_multiset().count(d) == m.count(d) - p.count(d));
                        lemma_insert_count(p, c, d);
                    }
                }
            },
            None => {},
        }
    }
    assert(s@.take(s@.len() as int) =~= s@);
    n
}

fn position_of(s: &[char], c: char) -> (r: Option<usize>)
    ensures
        match r {
            Some(k) => k < s@.len() && s@[k as int] == c,
            None => !s@.contains(c),
        },
{
    for i in 0..s.len()
        invariant
            forall|j: int| 0 <= j < i ==> s@[j] != c,
    {
        if s[i] == c {
            return Some(i);
        }
    }
    None
}

/// Whether a translation only hands the source back.
pub fn looks_copied(source: &str, translated: &str) -> (r: bool)
    ensures
        r == copied(source@, translated@),
{
    let source = chars_of(source);
    let translated = chars_of(translated);
    let s = trim_of(source.as_slice());
    let t = trim_of(translated.as_slice());
    if t.len() == 0 || s.len() < COPY_MIN_CHARS {
        return false;
    }
    if same_chars(s, t) {
        return true;
    }
    let ls: u128 = s.len() as u128;
    let lt: u128 = t.len() as u128;
    if 5 * lt < 3 * ls || 5 * lt > 8 * ls {
        return false;
    }
    20 * (common_chars(s, t) as u128) >= 9 * (ls + lt)
}

/// The first item for a number.
pub open spec fn item_for(items: Seq<ItemView>, index: int) -> Option<ItemView>
    decreases items.len(),
{
    if items.len() == 0 {
        None
    } else if items[0].i == index {
        Some(items[0])
    } else {
        item_for(items.drop_first(), index)
    }
}

/// Where the first item for a number stands.
pub fn find_item(items: &Vec<TranslateItem>, index: usize) -> (r: Option<usize>)
    ensures
        match r {
            Some(k) => k < items@.len() && item_for(types::entries(items@), index as int) == Some(
                items@[k as int]@,
            ),
            None => item_for(types::entries(items@), index as int) is None,
        },
{
    let ghost all = types::entries(items@);
    assert(all.skip(0) =~= all);
    for k in 0..items.len()
        invariant
            all == types::entries(items@),
            item_for(all, index as int) == item_for(all.skip(k as int), index as int),
    {
        assert(all.skip(k as int)[0] == items@[k as int]@);
        if items[k].i >= 0 && items[k].i as u64 as u128 == index as u128 {
            return Some(k);
        }
        assert(all.skip(k as int).drop_first() =~= all.skip(k + 1));
    }
    assert(all.skip(items@.len() as int) =~= Seq::<ItemView>::empty());
    None
}

/// The subtitle's item is a copy of its text.
pub open spec fn item_copied(s: SegmentView, items: Seq<ItemView>) -> bool {
    match item_for(items, s.index) {
        Some(it) => copied(s.text, it.t),
        None => false,
    }
}

/// How many subtitles of a batch have an item that is a copy of their text.
pub open spec fn copies(batch: Seq<SegmentView>, items: Seq<ItemView>) -> nat
    decreases batch.len(),
{
    if batch.len() == 0 {
        0
    } else {
        copies(batch.drop_last(), items) + (if item_copied(batch.last(), items) {
            1nat
        } else {
            0
        })
    }
}

/// How many subtitles of a batch have an item that is a copy of their text.
pub fn count_copies(batch: &[SubtitleSegment], items: &Vec<TranslateItem>) -> (n: usize)
    ensures
        n == copies(types::cues(batch@), types::entries(items@)),
        n <= batch@.len(),
{
    let ghost all = types::cues(batch@);
    let mut n: usize = 0;
    for i in 0..batch.len()
        invariant
            all == types::cues(batch@),
            n <= i,
            n == copies(all.take(i as int), types::entries(items@)),
    {
        assert(all.take(i + 1).drop_last() =~= all.take(i as int));
        match find_item(items, batch[i].index) {
            Some(k) => {
                if looks_copied(batch[i].text.as_str(), items[k].t.as_str()) {
                    n = n + 1;
                }
            },
            None => {},
        }
    }
    assert(all.take(batch@.len() as int) =~= all);
    n
}

/// A character of the script: Japanese kana or Korean hangul. No other script is known.
pub open spec fn of_script(c: char, script: Seq<char>) -> bool {
    ||| script == "kana"@ && '\u{3040}' <= c <= '\u{30ff}'
    ||| script == "hangul"@ && '\u{ac00}' <= c <= '\u{d7af}'
}

/// Some character of the text is of the script.
pub open spec fn residual(text: Seq<char>, script: Seq<char>) -> bool {
    exists|i: int| 0 <= i < text.len() && of_script(#[trigger] text[i], script)
}

fn has_char_between(text: &str, low: char, high: char) -> (r: bool)
    ensures
        r == exists|i: int| 0 <= i < text@.len() && low <= #[trigger] text@[i] <= high,
{
    let v = chars_of(text);
    for i in 0..v.len()
        invariant
            v@ == text@,
            forall|j: int| 0 <= j < i ==> !(low <= #[trigger] text@[j] <= high),
    {
        if low <= v[i] && v[i] <= high {
            assert(low <= text@[i as int] <= high);
            return true;
        }
    }
    false
}

/// Whether a translation still holds characters of the source's script.
pub fn has_residual_script(text: &str, script: &str) -> (r: bool)
    ensures
        r == residual(text@, script@),
{
    proof {
        reveal_strlit("kana");
        reveal_strlit("hangul");
        assert("kana"@.len() != "hangul"@.len());
    }
    if same_text(script, "kana") {
        has_char_between(text, '\u{3040}', '\u{30ff}')
    } else if same_text(script, "hangul") {
        has_char_between(text, '\u{ac00}', '\u{d7af}')
    } else {
        false
    }
}

} // verus!
