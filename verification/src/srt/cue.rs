//! Splitting subtitles that stay on screen for too long, and laying subtitles out.

use vstd::prelude::*;

use crate::srt::wrap;
use crate::srt::wrap::wrap_text;
use crate::text::chars::{char_count, string_of, substring};
use crate::text::pieces::push_chars;
use crate::text::spaces::{is_blank, one_line_of, trim_of, trimmed};
use crate::text::{chars, spaces};
use crate::types;
use crate::types::{SegmentView, SubtitleSegment};

verus! {

/// What the limit on the time on screen means for one subtitle.
#[derive(Clone, Copy, Debug, PartialEq, Eq, Structural)]
pub struct CueLimit {
    /// The subtitle stays on screen for longer than allowed.
    pub too_long: bool,
    /// Into how many parts of equal length the text goes if it has no punctuation.
    pub parts: usize,
    /// How many characters a part may have to stay within the limit.
    pub max_chars: usize,
}

/// A sentence or a clause ends with this character.
pub open spec fn ends_clause(c: char) -> bool {
    ||| c == '。'
    ||| c == '！'
    ||| c == '？'
    ||| c == '；'
    ||| c == '.'
    ||| c == '!'
    ||| c == '?'
    ||| c == ';'
    ||| c == '\n'
    ||| c == '，'
    ||| c == '、'
    ||| c == ','
}

fn is_clause_end(c: char) -> (r: bool)
    ensures
        r == ends_clause(c),
{
    matches!(c,
        '。' | '！' | '？' | '；' | '.' | '!' | '?' | ';' | '\n' | '，' | '、' | ','
    )
}

/// The positions after the characters that end a clause.
pub open spec fn clause_marks(s: Seq<char>) -> Seq<int>
    decreases s.len(),
{
    if s.len() == 0 {
        Seq::empty()
    } else {
        let front = clause_marks(s.drop_last());
        if ends_clause(s.last()) {
            front.push(s.len() as int)
        } else {
            front
        }
    }
}

/// The positions at which the clauses of a text end; the last one is the end of the text.
pub open spec fn clause_ends(s: Seq<char>) -> Seq<int> {
    let marks = clause_marks(s);
    if s.len() > 0 && !(marks.len() > 0 && marks.last() == s.len()) {
        marks.push(s.len() as int)
    } else {
        marks
    }
}

spec fn positions(list: Seq<usize>) -> Seq<int> {
    list.map_values(|p: usize| p as int)
}

/// The positions at which the clauses of a text end.
pub fn sentence_ends(s: &[char]) -> (r: Vec<usize>)
    ensures
        r@.map_values(|p: usize| p as int) == clause_ends(s@),
{
    let n: usize = s.len();
    let mut ends: Vec<usize> = Vec::new();
    assert(positions(ends@) =~= clause_marks(s@.take(0)));
    for i in 0..n
        invariant
            n == s@.len(),
            positions(ends@) == clause_marks(s@.take(i as int)),
    {
        let ghost before = positions(ends@);
        assert(s@.take(i + 1).drop_last() =~= s@.take(i as int));
        if is_clause_end(s[i]) {
            ends.push(i + 1);
            assert(positions(ends@) =~= before.push(i + 1));
        }
    }
    assert(s@.take(n as int) =~= s@);
    let ghost marks = positions(ends@);
    let k: usize = ends.len();
    if n > 0 && !(k > 0 && ends[k - 1] == n) {
        ends.push(n);
        assert(positions(ends@) =~= marks.push(n as int));
    }
    assert(positions(ends@) == ends@.map_values(|p: usize| p as int));
    ends
}

/// Clause ends rise, and the last one is the end of the text.
pub proof fn lemma_clause_ends(s: Seq<char>)
    ensures
        forall|i: int|
            0 <= i < clause_ends(s).len() ==> 0 < #[trigger] clause_ends(s)[i] <= s.len(),
        forall|i: int, j: int|
            0 <= i < j < clause_ends(s).len() ==> #[trigger] clause_ends(s)[i]
                < #[trigger] clause_ends(s)[j],
        s.len() > 0 ==> clause_ends(s).len() > 0 && clause_ends(s).last() == s.len(),
        clause_ends(s).len() <= s.len(),
{
    lemma_clause_marks(s);
}

proof fn lemma_clause_marks(s: Seq<char>)
    ensures
        forall|i: int|
            0 <= i < clause_marks(s).len() ==> 0 < #[trigger] clause_marks(s)[i] <= s.len(),
        forall|i: int, j: int|
            0 <= i < j < clause_marks(s).len() ==> #[trigger] clause_marks(s)[i]
                < #[trigger] clause_marks(s)[j],
        clause_marks(s).len() <= s.len(),
        s.len() > 0 && clause_marks(s).len() == s.len() ==> clause_marks(s).last() == s.len(),
    decreases s.len(),
{
    if s.len() > 0 {
        lemma_clause_marks(s.drop_last());
    }
}

/// Pieces of `per` characters each; the last one may be shorter.
pub open spec fn chunks(s: Seq<char>, per: int) -> Seq<Seq<char>>
    decreases s.len(),
{
    if s.len() == 0 || per <= 0 {
        Seq::empty()
    } else if s.len() <= per {
        seq![s]
    } else {
        seq![s.take(per)] + chunks(s.skip(per), per)
    }
}

/// The text without punctuation in parts of equal length.
pub open spec fn even_parts(s: Seq<char>, parts: int) -> Seq<Seq<char>> {
    let per = s.len() as int / parts;
    chunks(
        s,
        if per < 1 {
            1
        } else {
            per
        },
    )
}

/// The clause that ends at the `k`-th of the positions `ends`.
pub open spec fn clause(s: Seq<char>, ends: Seq<int>, k: int) -> Seq<char> {
    s.subrange(
        if k == 0 {
            0
        } else {
            ends[k - 1]
        },
        ends[k],
    )
}

/// The groups that the first `k` clauses have filled, and the group that is being filled. A clause
/// joins the group before it unless the two together are longer than `max_chars`.
pub open spec fn grouping(s: Seq<char>, ends: Seq<int>, max_chars: int, k: int) -> (
    Seq<Seq<char>>,
    Seq<char>,
)
    decreases k,
{
    if k <= 0 {
        (Seq::empty(), Seq::empty())
    } else {
        let (groups, current) = grouping(s, ends, max_chars, k - 1);
        let next = clause(s, ends, k - 1);
        let candidate = current + next;
        if current.len() > 0 && candidate.len() > max_chars {
            (groups.push(current), spaces::trim(next))
        } else {
            (groups, spaces::trim(candidate))
        }
    }
}

/// The clauses in groups of at most `max_chars` characters, where a clause is not longer itself.
pub open spec fn clause_groups(s: Seq<char>, max_chars: int) -> Seq<Seq<char>> {
    let ends = clause_ends(s);
    let (groups, current) = grouping(s, ends, max_chars, ends.len() as int);
    if current.len() > 0 {
        groups.push(current)
    } else {
        groups
    }
}

/// The characters of all the texts together.
pub open spec fn total_chars(groups: Seq<Seq<char>>) -> nat
    decreases groups.len(),
{
    if groups.len() == 0 {
        0
    } else {
        total_chars(groups.drop_last()) + groups.last().len()
    }
}

/// How long a subtitle stays on screen.
pub open spec fn span(s: SegmentView) -> int {
    if s.end_ms > s.start_ms {
        s.end_ms - s.start_ms
    } else {
        0
    }
}

/// Where the share of the first `k + 1` texts in the time on screen ends.
pub open spec fn share_end(s: SegmentView, groups: Seq<Seq<char>>, k: int) -> int {
    let total = total_chars(groups);
    if k + 1 == groups.len() {
        s.end_ms
    } else {
        s.start_ms + span(s) * total_chars(groups.take(k + 1)) / (if total < 1 {
            1
        } else {
            total as int
        })
    }
}

/// When the `k`-th part ends: at the end of its share, but at least a millisecond after its start.
pub open spec fn part_end(s: SegmentView, groups: Seq<Seq<char>>, k: int) -> int
    decreases k,
{
    let start = if k <= 0 {
        s.start_ms
    } else {
        part_end(s, groups, k - 1)
    };
    let end = share_end(s, groups, k);
    if end > start {
        end
    } else {
        start + 1
    }
}

pub open spec fn part_start(s: SegmentView, groups: Seq<Seq<char>>, k: int) -> int {
    if k <= 0 {
        s.start_ms
    } else {
        part_end(s, groups, k - 1)
    }
}

/// The texts as subtitles that share the time of `s` by their lengths.
pub open spec fn distributed(s: SegmentView, groups: Seq<Seq<char>>) -> Seq<SegmentView> {
    Seq::new(
        groups.len(),
        |k: int|
            SegmentView {
                index: 0,
                start_ms: part_start(s, groups, k),
                end_ms: part_end(s, groups, k),
                text: groups[k],
            },
    )
}

/// The later of a subtitle's times.
pub open spec fn latest(s: SegmentView) -> int {
    if s.end_ms > s.start_ms {
        s.end_ms
    } else {
        s.start_ms
    }
}

proof fn lemma_total_take(groups: Seq<Seq<char>>, k: int)
    requires
        0 <= k <= groups.len(),
    ensures
        total_chars(groups.take(k)) <= total_chars(groups),
    decreases groups.len() - k,
{
    if k < groups.len() {
        lemma_total_take(groups, k + 1);
        assert(groups.take(k + 1).drop_last() =~= groups.take(k));
    } else {
        assert(groups.take(k) =~= groups);
    }
}

/// A share of a span is not longer than the span.
proof fn lemma_share(span: int, acc: int, total: int)
    requires
        span >= 0,
        0 <= acc <= total,
        total >= 1,
    ensures
        0 <= span * acc / total <= span,
{
    assert(0 <= span * acc) by (nonlinear_arith)
        requires
            span >= 0,
            acc >= 0,
    ;
    assert(span * acc <= span * total) by (nonlinear_arith)
        requires
            span >= 0,
            acc <= total,
    ;
    assert(0 <= span * acc / total <= span) by (nonlinear_arith)
        requires
            0 <= span * acc <= span * total,
            total >= 1,
    ;
}

proof fn lemma_share_end(s: SegmentView, groups: Seq<Seq<char>>, k: int)
    requires
        0 <= k < groups.len(),
    ensures
        share_end(s, groups, k) <= latest(s),
{
    lemma_total_take(groups, k + 1);
    let total = total_chars(groups) as int;
    let acc = total_chars(groups.take(k + 1)) as int;
    lemma_share(
        span(s),
        acc,
        if total < 1 {
            1
        } else {
            total
        },
    );
}

/// A part ends no later than the whole, give or take a millisecond for each part.
pub proof fn lemma_part_end(s: SegmentView, groups: Seq<Seq<char>>, k: int)
    requires
        0 <= k < groups.len(),
    ensures
        s.start_ms < part_end(s, groups, k) <= latest(s) + k + 1,
        part_start(s, groups, k) < part_end(s, groups, k),
    decreases k,
{
    lemma_share_end(s, groups, k);
    if k > 0 {
        lemma_part_end(s, groups, k - 1);
    }
}

/// A later part ends later.
proof fn lemma_part_ends_rise(s: SegmentView, groups: Seq<Seq<char>>, i: int, j: int)
    requires
        0 <= i <= j < groups.len(),
    ensures
        part_end(s, groups, i) <= part_end(s, groups, j),
    decreases j,
{
    if i < j {
        lemma_part_ends_rise(s, groups, i, j - 1);
        lemma_part_end(s, groups, j);
    }
}

/// The times of the parts fit in 64 bits: there is room for a millisecond for each part, or the
/// last part, which ends latest, does not need it.
pub open spec fn parts_fit(s: SegmentView, groups: Seq<Seq<char>>) -> bool {
    ||| latest(s) + groups.len() <= u64::MAX
    ||| groups.len() > 0 && part_end(s, groups, groups.len() - 1) <= u64::MAX
}

proof fn lemma_parts_fit(s: SegmentView, groups: Seq<Seq<char>>, k: int)
    requires
        parts_fit(s, groups),
        0 <= k < groups.len(),
    ensures
        part_end(s, groups, k) <= u64::MAX,
{
    lemma_part_end(s, groups, k);
    lemma_part_ends_rise(s, groups, k, groups.len() - 1);
}

/// How many characters the texts have together.
fn count_all(groups: &Vec<String>) -> (n: usize)
    requires
        total_chars(chars::views(groups@)) <= usize::MAX,
    ensures
        n == total_chars(chars::views(groups@)),
{
    let ghost all = chars::views(groups@);
    let mut total: usize = 0;
    for i in 0..groups.len()
        invariant
            all == chars::views(groups@),
            total_chars(all) <= usize::MAX,
            total == total_chars(all.take(i as int)),
    {
        proof {
            assert(all.take(i + 1).drop_last() =~= all.take(i as int));
            lemma_total_take(all, i + 1);
        }
        total = total + char_count(groups[i].as_str());
    }
    assert(all.take(groups@.len() as int) =~= all);
    total
}

/// The share of a span that goes to `acc` of `total` characters.
fn share_of(span: u64, acc: usize, total: usize) -> (r: u64)
    requires
        acc <= total,
    ensures
        r == span * acc / (if total < 1 {
            1
        } else {
            total as int
        }),
        r <= span,
{
    let whole: usize = if total < 1 {
        1
    } else {
        total
    };
    proof {
        lemma_share(span as int, acc as int, whole as int);
    }
    assert(span * acc <= u128::MAX) by (nonlinear_arith)
        requires
            0 <= span <= u64::MAX,
            0 <= acc <= u64::MAX,
    ;
    let r: u128 = span as u128 * acc as u128 / whole as u128;
    r as u64
}

/// The texts as subtitles that share the time of `seg` by their lengths, without gaps.
pub fn distribute(seg: &SubtitleSegment, groups: &Vec<String>) -> (r: Vec<SubtitleSegment>)
    requires
        total_chars(chars::views(groups@)) <= usize::MAX,
        parts_fit(seg@, chars::views(groups@)),
    ensures
        types::cues(r@) == distributed(seg@, chars::views(groups@)),
{
    let ghost all = chars::views(groups@);
    let ghost want = distributed(seg@, all);
    let total: usize = count_all(groups);
    let whole: u64 = seg.duration_ms();
    let mut out: Vec<SubtitleSegment> = Vec::new();
    let mut acc: usize = 0;
    let mut start: u64 = seg.start_ms;
    let n: usize = groups.len();
    for k in 0..n
        invariant
            n == groups@.len(),
            all == chars::views(groups@),
            want == distributed(seg@, all),
            total == total_chars(all),
            whole == span(seg@),
            parts_fit(seg@, all),
            acc == total_chars(all.take(k as int)),
            start == part_start(seg@, all, k as int),
            out@.len() == k,
            forall|j: int| 0 <= j < k ==> #[trigger] out@[j]@ == want[j],
    {
        proof {
            assert(all.take(k + 1).drop_last() =~= all.take(k as int));
            lemma_total_take(all, k + 1);
            lemma_part_end(seg@, all, k as int);
            lemma_parts_fit(seg@, all, k as int);
        }
        acc = acc + char_count(groups[k].as_str());
        let share: u64 = share_of(whole, acc, total);
        let end: u64 = if k + 1 == n {
            seg.end_ms
        } else {
            seg.start_ms + share
        };
        let end: u64 = if end > start {
            end
        } else {
            start + 1
        };
        out.push(
            SubtitleSegment { index: 0, start_ms: start, end_ms: end, text: groups[k].clone() },
        );
        start = end;
    }
    assert(types::cues(out@) =~= want);
    out
}

pub proof fn lemma_total_push(groups: Seq<Seq<char>>, g: Seq<char>)
    ensures
        total_chars(groups.push(g)) == total_chars(groups) + g.len(),
{
    assert(groups.push(g).drop_last() =~= groups);
}

/// The text without punctuation in parts of equal length.
fn cut_evenly(s: &[char], parts: usize) -> (r: Vec<String>)
    requires
        parts > 0,
    ensures
        chars::views(r@) == even_parts(s@, parts as int),
        total_chars(chars::views(r@)) <= s@.len(),
        r@.len() <= s@.len(),
{
    let n: usize = s.len();
    let mut per: usize = n / parts;
    if per < 1 {
        per = 1;
    }
    let mut out: Vec<String> = Vec::new();
    let mut start: usize = 0;
    let ghost want = chunks(s@, per as int);
    proof {
        assert(s@.skip(0) =~= s@);
        assert(chars::views(out@) + want =~= want);
        assert(chars::views(out@) =~= Seq::<Seq<char>>::empty());
    }
    while start < n
        invariant
            n == s@.len(),
            per >= 1,
            start <= n,
            want == chunks(s@, per as int),
            chars::views(out@) + chunks(s@.skip(start as int), per as int) == want,
            total_chars(chars::views(out@)) == start,
            out@.len() <= start,
        decreases n - start,
    {
        let end: usize = if per < n - start {
            start + per
        } else {
            n
        };
        let ghost before = chars::views(out@);
        let ghost rest = s@.skip(start as int);
        out.push(substring(s, start, end));
        proof {
            let piece = s@.subrange(start as int, end as int);
            assert(chars::views(out@) =~= before.push(piece));
            lemma_total_push(before, piece);
            let tail = s@.skip(end as int);
            if per < n - start {
                assert(rest.take(per as int) =~= piece);
                assert(rest.skip(per as int) =~= tail);
            } else {
                assert(rest =~= piece);
                assert(tail =~= Seq::<char>::empty());
            }
            assert(before + chunks(rest, per as int) =~= before.push(piece) + chunks(
                tail,
                per as int,
            ));
        }
        start = end;
    }
    proof {
        assert(s@.skip(start as int) =~= Seq::<char>::empty());
        assert(chars::views(out@) =~= want);
    }
    out
}

/// The group being filled never has white space at its ends, and no filled group is empty.
pub proof fn lemma_grouping(s: Seq<char>, max_chars: int, k: int)
    requires
        0 <= k <= clause_ends(s).len(),
    ensures
        ({
            let ends = clause_ends(s);
            let (groups, current) = grouping(s, ends, max_chars, k);
            let used = if k == 0 {
                0
            } else {
                ends[k - 1]
            };
            &&& spaces::trim(current) == current
            &&& total_chars(groups) + current.len() <= used
            &&& groups.len() + (if current.len() > 0 {
                1int
            } else {
                0
            }) <= k
            &&& forall|i: int|
                0 <= i < groups.len() ==> (#[trigger] groups[i]).len() > 0 && spaces::trim(
                    groups[i],
                ) == groups[i]
        }),
    decreases k,
{
    let ends = clause_ends(s);
    lemma_clause_ends(s);
    if k > 0 {
        lemma_grouping(s, max_chars, k - 1);
        let (groups, current) = grouping(s, ends, max_chars, k - 1);
        let next = clause(s, ends, k - 1);
        spaces::lemma_trim_idempotent(next);
        spaces::lemma_trim_idempotent(current + next);
        lemma_trim_len(next);
        lemma_trim_len(current + next);
        lemma_total_push(groups, current);
    }
}

proof fn lemma_trim_len(s: Seq<char>)
    ensures
        spaces::trim(s).len() <= s.len(),
{
    spaces::lemma_trim_start(s);
    spaces::lemma_trim_end(spaces::trim_start(s));
}

/// The clauses in groups.
fn group_clauses(s: &[char], max_chars: usize) -> (r: Vec<String>)
    ensures
        chars::views(r@) == clause_groups(s@, max_chars as int),
        total_chars(chars::views(r@)) <= s@.len(),
        r@.len() <= s@.len(),
{
    let ends = sentence_ends(s);
    let ghost marks = clause_ends(s@);
    let ghost limit = max_chars as int;
    let mut groups: Vec<String> = Vec::new();
    let mut current: Vec<char> = Vec::new();
    let mut from: usize = 0;
    let n: usize = ends.len();
    proof {
        lemma_clause_ends(s@);
        assert(chars::views(groups@) =~= Seq::<Seq<char>>::empty());
        assert(current@ =~= Seq::<char>::empty());
        assert(ends@.map_values(|p: usize| p as int).len() == n);
    }
    for k in 0..n
        invariant
            n == ends@.len(),
            marks == clause_ends(s@),
            marks == ends@.map_values(|p: usize| p as int),
            limit == max_chars,
            from == (if k == 0 {
                0
            } else {
                marks[k - 1]
            }),
            from <= s@.len(),
            (chars::views(groups@), current@) == grouping(s@, marks, limit, k as int),
    {
        proof {
            lemma_clause_ends(s@);
            lemma_grouping(s@, limit, k as int);
        }
        let end: usize = ends[k];
        assert(end == marks[k as int]);
        let piece = &s[from..end];
        assert(piece@ == clause(s@, marks, k as int));
        let ghost filled = chars::views(groups@);
        let ghost old_current = current@;
        let had: usize = current.len();
        push_chars(&mut current, piece);
        if had > 0 && current.len() > max_chars {
            groups.push(string_of(&current.as_slice()[0..had]));
            proof {
                assert(current@.subrange(0, had as int) =~= old_current);
                assert(chars::views(groups@) =~= filled.push(old_current));
            }
            let mut next: Vec<char> = Vec::new();
            push_chars(&mut next, trim_of(piece));
            assert(next@ =~= spaces::trim(piece@));
            current = next;
        } else {
            let mut next: Vec<char> = Vec::new();
            push_chars(&mut next, trim_of(current.as_slice()));
            assert(next@ =~= spaces::trim(current@));
            current = next;
        }
        from = end;
    }
    proof {
        lemma_grouping(s@, limit, n as int);
        lemma_clause_ends(s@);
        lemma_total_push(chars::views(groups@), current@);
    }
    if current.len() > 0 {
        let ghost filled = chars::views(groups@);
        groups.push(string_of(current.as_slice()));
        assert(chars::views(groups@) =~= filled.push(current@));
    }
    groups
}

/// The texts that a subtitle is split into; none if it stays whole.
pub open spec fn split_texts(text: Seq<char>, limit: CueLimit) -> Seq<Seq<char>> {
    let flat = spaces::one_line(text);
    if !limit.too_long || spaces::trim(text).len() == 0 {
        Seq::empty()
    } else if clause_ends(flat).len() < 2 {
        even_parts(flat, limit.parts as int)
    } else {
        let groups = clause_groups(flat, limit.max_chars as int);
        if groups.len() <= 1 {
            Seq::empty()
        } else {
            groups
        }
    }
}

/// The subtitles that a subtitle is split into.
pub open spec fn split_cues(s: SegmentView, limit: CueLimit) -> Seq<SegmentView> {
    let texts = split_texts(s.text, limit);
    if texts.len() == 0 {
        seq![s]
    } else {
        distributed(s, texts)
    }
}

/// The times of what a subtitle is split into fit in 64 bits: there is room for a millisecond for
/// each character, or the last part, which ends latest, does not need it.
pub open spec fn split_fits(s: SegmentView, limit: CueLimit) -> bool {
    ||| latest(s) + s.text.len() <= u64::MAX
    ||| split_cues(s, limit).last().end_ms <= u64::MAX
}

/// Splits a subtitle that stays on screen for too long.
///
/// The text is cut at its punctuation, or, if it has none, into parts of equal length, and the
/// parts share the time by their lengths.
pub fn split_long_cue(seg: &SubtitleSegment, limit: CueLimit) -> (r: Vec<SubtitleSegment>)
    requires
        limit.too_long ==> limit.parts > 0 && split_fits(seg@, limit),
    ensures
        types::cues(r@) == split_cues(seg@, limit),
{
    if !limit.too_long || is_blank(seg.text.as_str()) {
        let r = vec![seg.clone()];
        assert(types::cues(r@) =~= seq![seg@]);
        return r;
    }
    let flat = one_line_of(seg.text.as_str());
    let ends = sentence_ends(flat.as_slice());
    assert(ends@.map_values(|p: usize| p as int).len() == ends@.len());
    if ends.len() < 2 {
        let parts = cut_evenly(flat.as_slice(), limit.parts);
        proof {
            assert(flat@.len() > 0) by {
                lemma_trim_len(seg.text@);
            }
            assert(chars::views(parts@).len() == parts@.len());
            assert(flat.len() == flat@.len());
        }
        return distribute(seg, &parts);
    }
    let groups = group_clauses(flat.as_slice(), limit.max_chars);
    assert(chars::views(groups@).len() == groups@.len());
    if groups.len() <= 1 {
        let r = vec![seg.clone()];
        assert(types::cues(r@) =~= seq![seg@]);
        return r;
    }
    distribute(seg, &groups)
}

/// The text of a subtitle as it is shown: its lines broken if there is a width, and trimmed.
pub open spec fn shown_text(text: Seq<char>, max_line_width: int) -> Seq<char> {
    spaces::trim(
        if max_line_width > 0 {
            wrap::wrapped(text, max_line_width)
        } else {
            text
        },
    )
}

/// The subtitles with the parts added to them, numbered on; parts without text are left out.
pub open spec fn shown_parts(
    done: Seq<SegmentView>,
    parts: Seq<SegmentView>,
    max_line_width: int,
) -> Seq<SegmentView>
    decreases parts.len(),
{
    if parts.len() == 0 {
        done
    } else {
        let before = shown_parts(done, parts.drop_last(), max_line_width);
        let p = parts.last();
        let text = shown_text(p.text, max_line_width);
        if text.len() == 0 {
            before
        } else {
            before.push(
                SegmentView {
                    index: before.len() as int + 1,
                    start_ms: p.start_ms,
                    end_ms: p.end_ms,
                    text,
                },
            )
        }
    }
}

/// The subtitles laid out: split, with their lines broken, and numbered from one.
pub open spec fn laid_out(
    list: Seq<SegmentView>,
    max_line_width: int,
    limits: Seq<CueLimit>,
) -> Seq<SegmentView>
    decreases list.len(),
{
    if list.len() == 0 {
        Seq::empty()
    } else {
        shown_parts(
            laid_out(list.drop_last(), max_line_width, limits.drop_last()),
            split_cues(list.last(), limits.last()),
            max_line_width,
        )
    }
}

/// Adds the parts of one subtitle to those laid out so far.
fn show_parts(
    out: &mut Vec<SubtitleSegment>,
    parts: &Vec<SubtitleSegment>,
    max_line_width: usize,
)
    requires
        old(out)@.len() + parts@.len() < usize::MAX,
    ensures
        types::cues(final(out)@) == shown_parts(
            types::cues(old(out)@),
            types::cues(parts@),
            max_line_width as int,
        ),
        final(out)@.len() <= old(out)@.len() + parts@.len(),
{
    let ghost all = types::cues(parts@);
    let ghost done = types::cues(out@);
    assert(all.take(0) =~= Seq::<SegmentView>::empty());
    for i in 0..parts.len()
        invariant
            all == types::cues(parts@),
            done == types::cues(old(out)@),
            old(out)@.len() + parts@.len() < usize::MAX,
            out@.len() <= old(out)@.len() + i,
            types::cues(out@) == shown_parts(done, all.take(i as int), max_line_width as int),
    {
        let part = &parts[i];
        let ghost before = types::cues(out@);
        let text = if max_line_width > 0 {
            let w = wrap_text(part.text.as_str(), max_line_width);
            trimmed(w.as_str())
        } else {
            trimmed(part.text.as_str())
        };
        proof {
            let t = all.take(i + 1);
            assert(t.drop_last() =~= all.take(i as int));
            assert(t.last() == part@);
            assert(before.len() == out@.len());
        }
        if char_count(text.as_str()) > 0 {
            let index: usize = out.len() + 1;
            out.push(
                SubtitleSegment { index, start_ms: part.start_ms, end_ms: part.end_ms, text },
            );
            assert(types::cues(out@) =~= before.push(out@.last()@));
        }
    }
    assert(all.take(parts@.len() as int) =~= all);
}

/// The number of characters of all the subtitles, and one for each.
pub open spec fn room_needed(list: Seq<SegmentView>) -> nat
    decreases list.len(),
{
    if list.len() == 0 {
        0
    } else {
        room_needed(list.drop_last()) + list.last().text.len() + 1
    }
}

proof fn lemma_room_take(list: Seq<SegmentView>, k: int)
    requires
        0 <= k <= list.len(),
    ensures
        room_needed(list.take(k)) <= room_needed(list),
    decreases list.len() - k,
{
    if k < list.len() {
        lemma_room_take(list, k + 1);
        assert(list.take(k + 1).drop_last() =~= list.take(k));
    } else {
        assert(list.take(k) =~= list);
    }
}

/// A subtitle is split into no more parts than it has characters.
pub proof fn lemma_split_count(s: SegmentView, limit: CueLimit)
    requires
        limit.too_long ==> limit.parts > 0,
    ensures
        split_cues(s, limit).len() <= s.text.len() + 1,
        split_cues(s, limit).len() > 0,
{
    let flat = spaces::one_line(s.text);
    lemma_clause_ends(flat);
    lemma_grouping(flat, limit.max_chars as int, clause_ends(flat).len() as int);
    if limit.too_long {
        let per = flat.len() as int / limit.parts as int;
        lemma_chunks_count(
            flat,
            if per < 1 {
                1
            } else {
                per
            },
        );
    }
}

proof fn lemma_chunks_count(s: Seq<char>, per: int)
    requires
        per >= 1,
    ensures
        chunks(s, per).len() <= s.len(),
    decreases s.len(),
{
    if s.len() > per {
        lemma_chunks_count(s.skip(per), per);
    }
}

/// Lays subtitles out: splits those that stay on screen for too long, breaks the lines, leaves out
/// what has no text and numbers the rest from one.
pub fn layout(
    segments: &[SubtitleSegment],
    max_line_width: usize,
    limits: &[CueLimit],
) -> (r: Vec<SubtitleSegment>)
    requires
        segments@.len() == limits@.len(),
        forall|i: int|
            0 <= i < segments@.len() && #[trigger] limits@[i].too_long ==> limits@[i].parts > 0
                && split_fits(segments@[i]@, limits@[i]),
        room_needed(types::cues(segments@)) < usize::MAX,
    ensures
        types::cues(r@) == laid_out(types::cues(segments@), max_line_width as int, limits@),
{
    let ghost all = types::cues(segments@);
    let mut out: Vec<SubtitleSegment> = Vec::new();
    assert(types::cues(out@) =~= laid_out(all.take(0), max_line_width as int, limits@.take(0)));
    for i in 0..segments.len()
        invariant
            all == types::cues(segments@),
            segments@.len() == limits@.len(),
            forall|i: int|
                0 <= i < segments@.len() && #[trigger] limits@[i].too_long ==> limits@[i].parts > 0
                    && split_fits(segments@[i]@, limits@[i]),
            room_needed(all) < usize::MAX,
            out@.len() <= room_needed(all.take(i as int)),
            types::cues(out@) == laid_out(
                all.take(i as int),
                max_line_width as int,
                limits@.take(i as int),
            ),
    {
        let limit: CueLimit = limits[i];
        assert(limits@[i as int].too_long == limit.too_long);
        let parts = split_long_cue(&segments[i], limit);
        proof {
            assert(all.take(i + 1).drop_last() =~= all.take(i as int));
            assert(limits@.take(i + 1).drop_last() =~= limits@.take(i as int));
            lemma_split_count(segments@[i as int]@, limit);
            assert(types::cues(parts@).len() == parts@.len());
            lemma_room_take(all, i + 1);
        }
        show_parts(&mut out, &parts, max_line_width);
    }
    proof {
        assert(all.take(segments@.len() as int) =~= all);
        assert(limits@.take(segments@.len() as int) =~= limits@);
    }
    out
}

} // verus!
