//! Which translations are taken for copies, and which corrections are made.

use vstd::prelude::*;

use crate::text::spaces;
use crate::translate::{copies, merge};
use crate::types::{ItemView, SegmentView};

verus! {

/// Handing a text back is a copy exactly if the text has eight characters or more, white space
/// around it apart.
pub proof fn law_the_same_text_is_a_copy(source: Seq<char>, translated: Seq<char>)
    requires
        spaces::trim(source) == spaces::trim(translated),
    ensures
        copies::copied(source, translated) <==> spaces::trim(source).len() >= 8,
{
}

/// No short text is taken for a copy, no empty one, and none whose length is less than six tenths or
/// more than sixteen tenths of the source's.
pub proof fn law_what_is_no_copy(source: Seq<char>, translated: Seq<char>)
    ensures
        ({
            let s = spaces::trim(source);
            let t = spaces::trim(translated);
            &&& s.len() < 8 ==> !copies::copied(source, translated)
            &&& spaces::all_white(translated) ==> !copies::copied(source, translated)
            &&& 10 * t.len() < 6 * s.len() ==> !copies::copied(source, translated)
            &&& 10 * t.len() > 16 * s.len() ==> !copies::copied(source, translated)
        }),
{
    spaces::lemma_blank(translated);
}

/// White space around the two texts makes no difference to whether one is a copy of the other.
pub proof fn law_copies_do_not_depend_on_white_space(
    a: Seq<char>,
    b: Seq<char>,
    x: Seq<char>,
    y: Seq<char>,
)
    requires
        spaces::trim(a) == spaces::trim(b),
        spaces::trim(x) == spaces::trim(y),
    ensures
        copies::copied(a, x) == copies::copied(b, y),
{
}

/// How many times a character occurs in a text.
pub open spec fn times(s: Seq<char>, c: char) -> nat
    decreases s.len(),
{
    if s.len() == 0 {
        0
    } else {
        times(s.drop_last(), c) + (if s.last() == c {
            1nat
        } else {
            0
        })
    }
}

proof fn lemma_times(s: Seq<char>, c: char)
    ensures
        s.to_multiset().count(c) == times(s, c),
    decreases s.len(),
{
    broadcast use vstd::seq_lib::group_to_multiset_ensures;
    broadcast use vstd::multiset::group_multiset_axioms;
    broadcast use vstd::multiset::group_multiset_properties;

    if s.len() > 0 {
        lemma_times(s.drop_last(), c);
        assert(s.drop_last().push(s.last()) =~= s);
        assert(s.to_multiset() == s.drop_last().to_multiset().insert(s.last()));
    } else {
        assert(s.to_multiset().len() == 0);
        assert(s.to_multiset().count(c) == 0);
    }
}

/// The characters that two texts have in common are counted as often as they occur in both: one more
/// character adds to them exactly if the other text has it more often.
pub proof fn law_common_characters_are_counted(s: Seq<char>, c: char, t: Seq<char>)
    ensures
        copies::common(Seq::empty(), t) == 0,
        copies::common(s.push(c), t) == copies::common(s, t) + (if times(s, c) < times(t, c) {
            1nat
        } else {
            0
        }),
{
    broadcast use vstd::seq_lib::group_to_multiset_ensures;
    broadcast use vstd::multiset::group_multiset_axioms;
    broadcast use vstd::multiset::group_multiset_properties;

    let none = Seq::<char>::empty();
    let m = t.to_multiset();
    assert(none.to_multiset().intersection_with(m) =~= vstd::multiset::Multiset::<char>::empty());
    let p = s.to_multiset();
    let q = s.push(c).to_multiset();
    assert(q =~= p.insert(c));
    lemma_times(s, c);
    lemma_times(t, c);
    if times(s, c) < times(t, c) {
        assert(q.intersection_with(m) =~= p.intersection_with(m).insert(c));
    } else {
        assert(q.intersection_with(m) =~= p.intersection_with(m));
    }
}

/// A text of eight characters or more and another of similar length, between six and sixteen tenths,
/// are a copy exactly if they are the same or at least nine tenths of the characters of both are
/// common to them.
pub proof fn law_copies_share_nine_tenths(s: Seq<char>, t: Seq<char>)
    requires
        spaces::trim(s) == s,
        spaces::trim(t) == t,
        s.len() >= 8,
        t.len() > 0,
        6 * s.len() <= 10 * t.len() <= 16 * s.len(),
    ensures
        copies::copied(s, t) <==> s == t || 10 * (2 * copies::common(s, t)) >= 9 * (s.len()
            + t.len()),
{
}

/// A translation has text of the source's script left exactly if one of its characters is kana, or
/// hangul, as the script is named; under any other name none has.
pub proof fn law_script_is_found_anywhere(a: Seq<char>, c: char, b: Seq<char>)
    ensures
        '\u{3040}' <= c <= '\u{30ff}' ==> copies::residual(a + seq![c] + b, "kana"@),
        '\u{ac00}' <= c <= '\u{d7af}' ==> copies::residual(a + seq![c] + b, "hangul"@),
        copies::residual(a, "kana"@) ==> exists|i: int|
            0 <= i < a.len() && '\u{3040}' <= #[trigger] a[i] <= '\u{30ff}',
        copies::residual(a, "hangul"@) ==> exists|i: int|
            0 <= i < a.len() && '\u{ac00}' <= #[trigger] a[i] <= '\u{d7af}',
        forall|script: Seq<char>|
            script != "kana"@ && script != "hangul"@ ==> !#[trigger] copies::residual(a, script),
{
    reveal_strlit("kana");
    reveal_strlit("hangul");
    assert("kana"@.len() != "hangul"@.len());
    let all = a + seq![c] + b;
    assert(all[a.len() as int] == c);
    if '\u{3040}' <= c <= '\u{30ff}' {
        assert(copies::of_script(all[a.len() as int], "kana"@));
    }
    if '\u{ac00}' <= c <= '\u{d7af}' {
        assert(copies::of_script(all[a.len() as int], "hangul"@));
    }
}

/// The item for a number is the first one with it.
pub proof fn law_the_first_item_counts(items: Seq<ItemView>, index: int)
    ensures
        match copies::item_for(items, index) {
            Some(it) => exists|k: int|
                {
                    &&& 0 <= k < items.len()
                    &&& #[trigger] items[k] == it
                    &&& it.i == index
                    &&& forall|j: int| 0 <= j < k ==> (#[trigger] items[j]).i != index
                },
            None => forall|j: int| 0 <= j < items.len() ==> (#[trigger] items[j]).i != index,
        },
    decreases items.len(),
{
    if items.len() > 0 {
        let rest = items.drop_first();
        law_the_first_item_counts(rest, index);
        if items[0].i == index {
            assert(items[0].i == index);
        } else {
            match copies::item_for(rest, index) {
                Some(it) => {
                    let k = choose|k: int|
                        {
                            &&& 0 <= k < rest.len()
                            &&& #[trigger] rest[k] == it
                            &&& it.i == index
                            &&& forall|j: int| 0 <= j < k ==> (#[trigger] rest[j]).i != index
                        };
                    assert(items[k + 1] == it);
                    assert forall|j: int| 0 <= j < k + 1 implies (#[trigger] items[j]).i != index by {
                        if j > 0 {
                            assert(items[j] == rest[j - 1]);
                        }
                    }
                },
                None => {
                    assert forall|j: int| 0 <= j < items.len() implies (#[trigger] items[j]).i
                        != index by {
                        if j > 0 {
                            assert(items[j] == rest[j - 1]);
                        }
                    }
                },
            }
        }
    }
}

/// A correction for the subtitle at a position under review, the first there with its number, is
/// made exactly if its text is not blank, differs from the translation, white space around them
/// apart, and is no copy of the source. Nothing else changes then, and otherwise nothing does.
pub proof fn law_corrections_are_made(
    sources: Seq<SegmentView>,
    translated: Seq<SegmentView>,
    picks: Seq<int>,
    fix: ItemView,
    k: int,
)
    requires
        0 <= k < picks.len(),
        0 <= picks[k] < translated.len(),
        translated[picks[k]].index == fix.i,
        forall|j: int| 0 <= j < k ==> translated[#[trigger] picks[j]].index != fix.i,
    ensures
        ({
            let p = picks[k];
            let after = merge::fixed_once(sources, translated, picks, fix);
            let text = spaces::trim(fix.t);
            if text.len() > 0 && text != spaces::trim(translated[p].text) && !copies::copied(
                sources[p].text,
                text,
            ) {
                &&& after.len() == translated.len()
                &&& after[p].text == text
                &&& after[p].index == translated[p].index
                &&& after[p].start_ms == translated[p].start_ms
                &&& after[p].end_ms == translated[p].end_ms
                &&& forall|q: int|
                    0 <= q < after.len() && q != p ==> #[trigger] after[q] == translated[q]
            } else {
                after == translated
            }
        }),
{
    lemma_pick_is(translated, picks, fix.i, k);
}

proof fn lemma_pick_is(translated: Seq<SegmentView>, picks: Seq<int>, i: int, k: int)
    requires
        0 <= k < picks.len(),
        translated[picks[k]].index == i,
        forall|j: int| 0 <= j < k ==> translated[#[trigger] picks[j]].index != i,
    ensures
        merge::pick_for(translated, picks, i) == Some(picks[k]),
    decreases k,
{
    if k > 0 {
        assert(translated[picks[0]].index != i);
        let rest = picks.drop_first();
        assert forall|j: int| 0 <= j < k - 1 implies translated[#[trigger] rest[j]].index != i by {
            assert(rest[j] == picks[j + 1]);
        }
        lemma_pick_is(translated, rest, i, k - 1);
    }
}

/// A correction for a number that is not under review changes nothing.
pub proof fn law_other_corrections_are_passed_over(
    sources: Seq<SegmentView>,
    translated: Seq<SegmentView>,
    picks: Seq<int>,
    fix: ItemView,
)
    requires
        forall|j: int| 0 <= j < picks.len() ==> translated[#[trigger] picks[j]].index != fix.i,
    ensures
        merge::fixed_once(sources, translated, picks, fix) == translated,
    decreases picks.len(),
{
    if picks.len() > 0 {
        assert(translated[picks[0]].index != fix.i);
        let rest = picks.drop_first();
        assert forall|j: int| 0 <= j < rest.len() implies translated[#[trigger] rest[j]].index
            != fix.i by {
            assert(rest[j] == picks[j + 1]);
        }
        law_other_corrections_are_passed_over(sources, translated, rest, fix);
        assert(merge::pick_for(translated, picks, fix.i) == merge::pick_for(
            translated,
            rest,
            fix.i,
        ));
    }
}

/// Corrections are made one after the other, and those that changed something are counted.
pub proof fn law_corrections_follow_each_other(
    sources: Seq<SegmentView>,
    translated: Seq<SegmentView>,
    picks: Seq<int>,
    fixes: Seq<ItemView>,
    fix: ItemView,
)
    ensures
        ({
            let (before, n) = merge::fixed(sources, translated, picks, fixes);
            let (after, m) = merge::fixed(sources, translated, picks, fixes.push(fix));
            &&& after == merge::fixed_once(sources, before, picks, fix)
            &&& after != before ==> m == n + 1
            &&& m == n || m == n + 1
            &&& merge::fixed(sources, translated, picks, Seq::empty()) == (translated, 0nat)
        }),
{
    assert(fixes.push(fix).drop_last() =~= fixes);
}

/// The translations with text of the script left are exactly those of the positions asked about that
/// have some, in order.
pub proof fn law_residue_is_found(
    translated: Seq<SegmentView>,
    picks: Seq<int>,
    script: Seq<char>,
    p: int,
)
    ensures
        merge::still_residual(translated, picks, script).contains(p) <==> picks.contains(p)
            && copies::residual(translated[p].text, script),
        merge::still_residual(translated, picks, script).len() <= picks.len(),
        (forall|k: int|
            0 <= k < picks.len() ==> copies::residual(translated[#[trigger] picks[k]].text, script))
            ==> merge::still_residual(translated, picks, script) == picks,
    decreases picks.len(),
{
    let all = merge::still_residual(translated, picks, script);
    if picks.len() > 0 {
        let front = picks.drop_last();
        law_residue_is_found(translated, front, script, p);
        let before = merge::still_residual(translated, front, script);
        assert(picks[picks.len() - 1] == picks.last());
        if front.contains(p) {
            let k = choose|k: int| 0 <= k < front.len() && front[k] == p;
            assert(picks[k] == p);
        }
        if picks.contains(p) && p != picks.last() {
            let k = choose|k: int| 0 <= k < picks.len() && picks[k] == p;
            assert(front[k] == p);
        }
        if copies::residual(translated[picks.last()].text, script) {
            assert(all == before.push(picks.last()));
            assert(all[before.len() as int] == picks.last());
            if before.contains(p) {
                let k = choose|k: int| 0 <= k < before.len() && before[k] == p;
                assert(all[k] == p);
            }
            if all.contains(p) && p != picks.last() {
                let k = choose|k: int| 0 <= k < all.len() && all[k] == p;
                assert(before[k] == p);
            }
        }
        if forall|k: int|
            0 <= k < picks.len() ==> copies::residual(
                translated[#[trigger] picks[k]].text,
                script,
            ) {
            assert forall|k: int| 0 <= k < front.len() implies copies::residual(
                translated[#[trigger] front[k]].text,
                script,
            ) by {
                assert(front[k] == picks[k]);
            }
            assert(front.push(picks.last()) =~= picks);
        }
    } else {
        assert(all =~= picks);
    }
}

} // verus!
