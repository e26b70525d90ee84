//! What merging contexts keeps.

use vstd::prelude::*;

use crate::text::{json, number, pieces, spaces};
use crate::types;
use crate::types::{ContextView, SegmentView, TermView};

verus! {

/// No two entries are for the same term, white space around it apart.
pub open spec fn distinct_terms(list: Seq<TermView>) -> bool {
    forall|i: int, j: int|
        0 <= i < j < list.len() ==> spaces::trim(#[trigger] list[i].source) != spaces::trim(
            #[trigger] list[j].source,
        )
}

proof fn lemma_has_term_push(list: Seq<TermView>, g: TermView, source: Seq<char>)
    ensures
        types::has_term(list.push(g), source) == (types::has_term(list, source) || spaces::trim(
            g.source,
        ) == spaces::trim(source)),
{
    let all = list.push(g);
    if types::has_term(list, source) {
        let i = choose|i: int|
            0 <= i < list.len() && spaces::trim(#[trigger] list[i].source) == spaces::trim(source);
        assert(all[i] == list[i]);
    }
    if spaces::trim(g.source) == spaces::trim(source) {
        assert(all[list.len() as int] == g);
    }
    if types::has_term(all, source) {
        let i = choose|i: int|
            0 <= i < all.len() && spaces::trim(#[trigger] all[i].source) == spaces::trim(source);
        if i < list.len() {
            assert(all[i] == list[i]);
        }
    }
}

/// Merging glossaries keeps the entries that are there, in place; it adds an entry for every term
/// that was missing, and none for a term that is there.
pub proof fn law_merge_terms(base: Seq<TermView>, extra: Seq<TermView>)
    ensures
        ({
            let all = types::merged_terms(base, extra);
            &&& base.len() <= all.len() <= base.len() + extra.len()
            &&& all.take(base.len() as int) == base
            &&& forall|s: Seq<char>| types::has_term(base, s) ==> #[trigger] types::has_term(all, s)
            &&& forall|i: int|
                0 <= i < extra.len() && spaces::trim((#[trigger] extra[i]).source).len() > 0
                    ==> types::has_term(all, extra[i].source)
            &&& distinct_terms(base) ==> distinct_terms(all)
        }),
    decreases extra.len(),
{
    let all = types::merged_terms(base, extra);
    if extra.len() == 0 {
        assert(all.take(base.len() as int) =~= base);
    } else {
        let rest = extra.drop_last();
        law_merge_terms(base, rest);
        let so_far = types::merged_terms(base, rest);
        let g = extra.last();
        assert(all.take(base.len() as int) =~= so_far.take(base.len() as int));
        let added = !(spaces::trim(g.source).len() == 0 || types::has_term(so_far, g.source));
        assert forall|s: Seq<char>| types::has_term(so_far, s) implies #[trigger] types::has_term(
            all,
            s,
        ) by {
            if added {
                lemma_has_term_push(so_far, g, s);
            }
        }
        assert forall|i: int|
            0 <= i < extra.len() && spaces::trim(
                (#[trigger] extra[i]).source,
            ).len() > 0 implies types::has_term(all, extra[i].source) by {
            if i < rest.len() {
                assert(extra[i] == rest[i]);
                assert(types::has_term(so_far, extra[i].source));
            } else if added {
                lemma_has_term_push(so_far, g, extra[i].source);
            }
        }
        if distinct_terms(base) && added {
            assert forall|i: int, j: int| 0 <= i < j < all.len() implies spaces::trim(
                #[trigger] all[i].source,
            ) != spaces::trim(#[trigger] all[j].source) by {
                assert(all[i] == so_far[i]);
                if j < so_far.len() {
                    assert(all[j] == so_far[j]);
                }
            }
        }
    }
}

/// Merging the same glossary again changes nothing.
pub proof fn law_merge_again_changes_nothing(base: Seq<TermView>, extra: Seq<TermView>)
    ensures
        types::merged_terms(types::merged_terms(base, extra), extra) == types::merged_terms(
            base,
            extra,
        ),
{
    law_merge_terms(base, extra);
    lemma_nothing_new(types::merged_terms(base, extra), extra);
}

proof fn lemma_nothing_new(all: Seq<TermView>, extra: Seq<TermView>)
    requires
        forall|i: int|
            0 <= i < extra.len() && spaces::trim((#[trigger] extra[i]).source).len() > 0
                ==> types::has_term(all, extra[i].source),
    ensures
        types::merged_terms(all, extra) == all,
    decreases extra.len(),
{
    if extra.len() > 0 {
        let rest = extra.drop_last();
        assert forall|i: int|
            0 <= i < rest.len() && spaces::trim(
                (#[trigger] rest[i]).source,
            ).len() > 0 implies types::has_term(all, rest[i].source) by {
            assert(rest[i] == extra[i]);
        }
        lemma_nothing_new(all, rest);
        assert(extra[extra.len() - 1] == extra.last());
    }
}

/// A summary that is there is never replaced by merging.
pub proof fn law_merge_keeps_the_summary(a: ContextView, b: ContextView)
    ensures
        a.summary.len() > 0 ==> types::merged_context(a, b).summary == a.summary,
        a.summary.len() == 0 ==> types::merged_context(a, b).summary == b.summary,
{
}

/// An entry that merging adds is one of the new entries as it is: the first one for its term, which
/// is not blank and was not there.
pub proof fn law_added_terms_are_the_first(base: Seq<TermView>, extra: Seq<TermView>, i: int)
    requires
        base.len() <= i < types::merged_terms(base, extra).len(),
    ensures
        exists|j: int|
            {
                &&& 0 <= j < extra.len()
                &&& types::merged_terms(base, extra)[i] == #[trigger] extra[j]
                &&& !spaces::all_white(extra[j].source)
                &&& !types::has_term(base, extra[j].source)
                &&& !types::has_term(extra.take(j), extra[j].source)
            },
    decreases extra.len(),
{
    law_merge_terms(base, extra);
    if extra.len() > 0 {
        let rest = extra.drop_last();
        let so_far = types::merged_terms(base, rest);
        law_merge_terms(base, rest);
        if i < so_far.len() {
            law_added_terms_are_the_first(base, rest, i);
            let j = choose|j: int|
                {
                    &&& 0 <= j < rest.len()
                    &&& so_far[i] == #[trigger] rest[j]
                    &&& !spaces::all_white(rest[j].source)
                    &&& !types::has_term(base, rest[j].source)
                    &&& !types::has_term(rest.take(j), rest[j].source)
                };
            assert(extra[j] == rest[j]);
            assert(extra.take(j) =~= rest.take(j));
            assert(types::merged_terms(base, extra)[i] == so_far[i]);
        } else {
            let j = extra.len() - 1;
            let g = extra[j];
            assert(types::merged_terms(base, extra)[i] == extra[j]);
            spaces::lemma_blank(g.source);
            assert(extra.take(j) =~= rest);
            if types::has_term(rest, g.source) {
                let k = choose|k: int|
                    0 <= k < rest.len() && spaces::trim(#[trigger] rest[k].source) == spaces::trim(
                        g.source,
                    );
                assert(types::has_term(so_far, rest[k].source));
                let m = choose|m: int|
                    0 <= m < so_far.len() && spaces::trim(#[trigger] so_far[m].source)
                        == spaces::trim(rest[k].source);
                assert(spaces::trim(so_far[m].source) == spaces::trim(g.source));
                assert(types::has_term(so_far, g.source));
            }
        }
    }
}

/// A term is known if there is an entry for it, white space around the terms apart.
pub proof fn law_terms_are_known_by_name(
    a: Seq<TermView>,
    g: TermView,
    b: Seq<TermView>,
    source: Seq<char>,
)
    ensures
        spaces::trim(g.source) == spaces::trim(source) ==> types::has_term(a + seq![g] + b, source),
        !types::has_term(Seq::empty(), source),
{
    let all = a + seq![g] + b;
    assert(all[a.len() as int] == g);
}

/// The model sees the numbers and the texts of subtitles, but no times: subtitles that differ in
/// their times only look the same to it.
pub proof fn law_times_stay_on_this_side(a: Seq<SegmentView>, b: Seq<SegmentView>)
    requires
        a.len() == b.len(),
        forall|i: int|
            0 <= i < a.len() ==> (#[trigger] a[i]).index == b[i].index && a[i].text == b[i].text,
    ensures
        types::compact_list(a) == types::compact_list(b),
{
    let x = a.map_values(|s: SegmentView| types::compact_item(s));
    let y = b.map_values(|s: SegmentView| types::compact_item(s));
    assert forall|i: int| 0 <= i < x.len() implies x[i] == y[i] by {
        assert(a[i].index == b[i].index);
    }
    assert(x =~= y);
}

/// Subtitles go to the model as a JSON list in their order, each with its number as `i` and its text
/// as `t`.
pub proof fn law_subtitles_are_listed(list: Seq<SegmentView>, s: SegmentView)
    ensures
        ({
            let one = "{\"i\":"@ + number::decimal(s.index as nat) + ",\"t\":"@
                + json::json_quoted(s.text) + "}"@;
            &&& types::compact_list(seq![s]) == "["@ + one + "]"@
            &&& list.len() > 0 ==> types::compact_list(list.push(s)) == types::compact_list(
                list,
            ).drop_last() + ","@ + one + "]"@
        }),
{
    reveal_strlit("]");
    let f = |s: SegmentView| types::compact_item(s);
    let all = list.push(s).map_values(f);
    let front = list.map_values(f);
    assert(seq![s].map_values(f) =~= seq![types::compact_item(s)]);
    assert(all =~= front.push(types::compact_item(s)));
    assert(all.drop_last() =~= front);
    if list.len() > 0 {
        let x = "["@ + pieces::join(front, ","@);
        assert((x + "]"@).drop_last() =~= x);
        let one = types::compact_item(s);
        assert("["@ + (pieces::join(front, ","@) + ","@ + one) =~= x + ","@ + one);
    }
}

/// The glossary goes to the model one entry to a line, in order: the term, what it becomes, and the
/// note in brackets if there is one. An empty one is said to be none.
pub proof fn law_the_glossary_is_listed(list: Seq<TermView>, g: TermView)
    ensures
        ({
            let line = "- "@ + g.source + " -> "@ + g.target + (match g.note {
                Some(n) => "（"@ + n + "）"@,
                None => Seq::empty(),
            });
            &&& types::glossary_lines(Seq::empty()) == "（无）"@
            &&& types::glossary_lines(seq![g]) == line
            &&& list.len() > 0 ==> types::glossary_lines(list.push(g)) == types::glossary_lines(
                list,
            ) + "\n"@ + line
        }),
{
    let f = |g: TermView| types::term_line(g);
    assert(seq![g].map_values(f) =~= seq![types::term_line(g)]);
    let front = list.map_values(f);
    assert(list.push(g).map_values(f) =~= front.push(types::term_line(g)));
    assert(front.push(types::term_line(g)).drop_last() =~= front);
}

/// What is known is completed by what else is known: a summary that is missing, and the entries for
/// terms that are missing.
pub proof fn law_contexts_are_completed(a: ContextView, b: ContextView)
    ensures
        types::merged_context(a, b).glossary == types::merged_terms(a.glossary, b.glossary),
        types::merged_context(a, b).summary == a.summary || types::merged_context(a, b).summary
            == b.summary,
        b.glossary.len() == 0 ==> types::merged_context(a, b).glossary == a.glossary,
{
}

/// A subtitle is shown from its start to its end; one that ends before it starts is not.
pub proof fn law_subtitles_are_shown_to_their_end(s: SegmentView)
    ensures
        s.start_ms <= s.end_ms ==> s.start_ms + types::shown_for(s) == s.end_ms,
        s.start_ms > s.end_ms ==> types::shown_for(s) == 0,
{
}

} // verus!
