//! Which stretch of a reply is its JSON, and which commas are taken out of it.

use vstd::prelude::*;

use crate::llm::{reply, reply_laws};
use crate::text::spaces;

verus! {

/// How many backslashes a text ends with.
pub open spec fn backslashes(s: Seq<char>) -> nat
    decreases s.len(),
{
    if s.len() > 0 && s.last() == '\\' {
        backslashes(s.drop_last()) + 1
    } else {
        0
    }
}

/// Whether a string literal is open at the end of a text: a quote opens one, and the next quote closes
/// it that does not come after an odd number of backslashes.
pub open spec fn literal_open(s: Seq<char>) -> bool
    decreases s.len(),
{
    if s.len() == 0 {
        false
    } else {
        let before = s.drop_last();
        if literal_open(before) {
            s.last() != '"' || backslashes(before) % 2 == 1
        } else {
            s.last() == '"'
        }
    }
}

proof fn lemma_literal(s: Seq<char>)
    ensures
        reply_laws::after_text(reply::outside(), s) == (reply::Lexer {
            in_string: literal_open(s),
            escaped: literal_open(s) && backslashes(s) % 2 == 1,
        }),
    decreases s.len(),
{
    if s.len() > 0 {
        lemma_literal(s.drop_last());
    }
}

/// How many more brackets a text opens than it closes, outside string literals.
pub open spec fn nesting(s: Seq<char>, open: char, close: char) -> int
    decreases s.len(),
{
    if s.len() == 0 {
        0
    } else {
        let before = s.drop_last();
        nesting(before, open, close) + (if literal_open(before) {
            0int
        } else if s.last() == open {
            1
        } else if s.last() == close {
            -1
        } else {
            0
        })
    }
}

/// A stretch that starts with a bracket, ends with the one that closes it, and has no earlier end:
/// brackets in string literals do not count.
pub open spec fn closed_stretch(t: Seq<char>, open: char, close: char) -> bool {
    &&& t.len() > 0
    &&& t[0] == open
    &&& nesting(t, open, close) == 0
    &&& forall|k: int| 0 < k < t.len() ==> nesting(#[trigger] t.take(k), open, close) > 0
}

proof fn lemma_step(s: Seq<char>, start: int, i: int, open: char, close: char)
    requires
        0 <= start <= i < s.len(),
        open != '"' && close != '"' && open != close,
    ensures
        ({
            let before = s.subrange(start, i);
            let after = s.subrange(start, i + 1);
            let l = reply_laws::after_text(reply::outside(), before);
            &&& reply_laws::after_text(reply::outside(), after) == reply::after_char(l, s[i])
            &&& l.in_string == literal_open(before)
            &&& nesting(after, open, close) == nesting(before, open, close) + (if l.in_string {
                0int
            } else if s[i] == open {
                1
            } else if s[i] == close {
                -1
            } else {
                0
            })
        }),
{
    let before = s.subrange(start, i);
    let after = s.subrange(start, i + 1);
    assert(after.drop_last() =~= before);
    assert(after.last() == s[i]);
    lemma_literal(before);
}

proof fn lemma_scan(
    s: Seq<char>,
    start: int,
    i: int,
    l: reply::Lexer,
    depth: nat,
    open: char,
    close: char,
)
    requires
        0 <= start < i <= s.len(),
        open != '"' && close != '"' && open != close,
        l == reply_laws::after_text(reply::outside(), s.subrange(start, i)),
        depth == nesting(s.subrange(start, i), open, close),
        forall|k: int|
            start < k <= i ==> nesting(#[trigger] s.subrange(start, k), open, close) > 0,
    ensures
        match reply::closing(s, i, l, depth, open, close) {
            Some(e) => {
                &&& i <= e < s.len()
                &&& nesting(s.subrange(start, e + 1), open, close) == 0
                &&& forall|k: int|
                    start < k <= e ==> nesting(#[trigger] s.subrange(start, k), open, close) > 0
            },
            None => forall|k: int|
                start < k <= s.len() ==> nesting(#[trigger] s.subrange(start, k), open, close) > 0,
        },
    decreases s.len() - i,
{
    if i < s.len() {
        lemma_step(s, start, i, open, close);
        let c = s[i];
        let next = reply::after_char(l, c);
        let sub = s.subrange(start, i + 1);
        assert(nesting(s.subrange(start, i), open, close) > 0);
        if l.in_string || c == '"' {
            lemma_scan(s, start, i + 1, next, depth, open, close);
        } else if c == open {
            lemma_scan(s, start, i + 1, next, depth + 1, open, close);
        } else if c == close {
            if depth > 1 {
                lemma_scan(s, start, i + 1, next, (depth - 1) as nat, open, close);
            }
        } else {
            lemma_scan(s, start, i + 1, next, depth, open, close);
        }
    }
}

/// What is taken from an opening bracket on is the shortest stretch that closes it, and nothing is
/// taken exactly if there is none. Brackets in string literals do not count, whatever quotes the
/// literals have in them.
pub proof fn law_brackets_are_closed(s: Seq<char>, start: int, is_array: bool)
    requires
        0 <= start < s.len(),
        s[start] == (if is_array {
            '['
        } else {
            '{'
        }),
    ensures
        ({
            let (open, close) = if is_array {
                ('[', ']')
            } else {
                ('{', '}')
            };
            match reply::balanced(s, start, is_array) {
                Some(t) => {
                    &&& start + t.len() <= s.len()
                    &&& t == s.subrange(start, start + t.len())
                    &&& closed_stretch(t, open, close)
                },
                None => forall|e: int|
                    start < e <= s.len() ==> !closed_stretch(
                        #[trigger] s.subrange(start, e),
                        open,
                        close,
                    ),
            }
        }),
{
    let (open, close) = reply::bracket(is_array);
    let none = s.subrange(start, start);
    assert(none =~= Seq::<char>::empty());
    lemma_step(s, start, start, open, close);
    assert(nesting(none, open, close) == 0);
    assert(reply_laws::after_text(reply::outside(), none) == reply::outside());
    let next = reply::after_char(reply::outside(), s[start]);
    assert(nesting(s.subrange(start, start + 1), open, close) == 1);
    assert forall|k: int| start < k <= start + 1 implies nesting(
        #[trigger] s.subrange(start, k),
        open,
        close,
    ) > 0 by {}
    lemma_scan(s, start, start + 1, next, 1, open, close);
    match reply::closing(s, start, reply::outside(), 0, open, close) {
        Some(e) => {
            let t = s.subrange(start, e + 1);
            assert forall|k: int| 0 < k < t.len() implies nesting(
                #[trigger] t.take(k),
                open,
                close,
            ) > 0 by {
                assert(t.take(k) =~= s.subrange(start, start + k));
            }
        },
        None => {},
    }
}

/// The first guess at the JSON in a reply is what stands from the first bracket on that is closed.
pub proof fn law_the_first_closed_bracket_counts(
    s: Seq<char>,
    is_array: bool,
    limit: int,
    start: int,
)
    requires
        limit >= 1,
        0 <= start < s.len(),
        s[start] == (if is_array {
            '['
        } else {
            '{'
        }),
        reply::balanced(s, start, is_array) is Some,
        forall|j: int|
            0 <= j < start && s[j] == s[start] ==> #[trigger] reply::balanced(s, j, is_array) is None,
    ensures
        reply::candidates(s, is_array, limit).len() > 0,
        reply::candidates(s, is_array, limit)[0] == reply::balanced(s, start, is_array).unwrap(),
{
    lemma_none_before(s, is_array, limit, start, start);
    lemma_first_stays(s, is_array, limit, start + 1, s.len() as int);
}

proof fn lemma_none_before(s: Seq<char>, is_array: bool, limit: int, start: int, k: int)
    requires
        0 <= k <= start < s.len(),
        s[start] == reply::bracket(is_array).0,
        forall|j: int|
            0 <= j < start && s[j] == s[start] ==> #[trigger] reply::balanced(s, j, is_array) is None,
    ensures
        reply::candidates_before(s, k, is_array, limit).len() == 0,
    decreases k,
{
    if k > 0 {
        lemma_none_before(s, is_array, limit, start, k - 1);
        if s[k - 1] == s[start] {
            assert(reply::balanced(s, k - 1, is_array) is None);
        }
    }
}

proof fn lemma_first_stays(s: Seq<char>, is_array: bool, limit: int, from: int, k: int)
    requires
        0 <= from <= k <= s.len(),
        reply::candidates_before(s, from, is_array, limit).len() > 0,
    ensures
        reply::candidates_before(s, k, is_array, limit).len() > 0,
        reply::candidates_before(s, k, is_array, limit)[0] == reply::candidates_before(
            s,
            from,
            is_array,
            limit,
        )[0],
    decreases k - from,
{
    if k > from {
        lemma_first_stays(s, is_array, limit, from, k - 1);
    }
}

/// If no bracket is closed, the only guess is what stands from the first opening to the last closing
/// bracket, if these are in that order. `a` and `b` are their positions.
pub proof fn law_open_brackets_give_the_widest_guess(
    s: Seq<char>,
    is_array: bool,
    limit: int,
    a: int,
    b: int,
)
    requires
        0 <= a < b < s.len(),
        s[a] == (if is_array {
            '['
        } else {
            '{'
        }),
        s[b] == (if is_array {
            ']'
        } else {
            '}'
        }),
        forall|j: int| 0 <= j < a ==> #[trigger] s[j] != s[a],
        forall|j: int| b < j < s.len() ==> #[trigger] s[j] != s[b],
        forall|j: int|
            0 <= j < s.len() && s[j] == s[a] ==> #[trigger] reply::balanced(s, j, is_array) is None,
    ensures
        reply::candidates(s, is_array, limit) == seq![s.subrange(a, b + 1)],
{
    lemma_none_at_all(s, is_array, limit, s.len() as int, a);
    lemma_first_is(s, s[a], a);
    lemma_last_is(s, s[b], b);
}

proof fn lemma_none_at_all(s: Seq<char>, is_array: bool, limit: int, k: int, a: int)
    requires
        0 <= k <= s.len(),
        0 <= a < s.len(),
        s[a] == reply::bracket(is_array).0,
        forall|j: int|
            0 <= j < s.len() && s[j] == s[a] ==> #[trigger] reply::balanced(s, j, is_array) is None,
    ensures
        reply::candidates_before(s, k, is_array, limit).len() == 0,
    decreases k,
{
    if k > 0 {
        lemma_none_at_all(s, is_array, limit, k - 1, a);
        if s[k - 1] == s[a] {
            assert(reply::balanced(s, k - 1, is_array) is None);
        }
    }
}

/// The first position of a character is the one that none is before.
pub proof fn lemma_first_is(s: Seq<char>, c: char, i: int)
    requires
        0 <= i < s.len(),
        s[i] == c,
        forall|j: int| 0 <= j < i ==> #[trigger] s[j] != c,
    ensures
        reply::first_of(s, c) == Some(i),
    decreases s.len(),
{
    let front = s.drop_last();
    if i < front.len() {
        assert forall|j: int| 0 <= j < i implies #[trigger] front[j] != c by {
            assert(front[j] == s[j]);
        }
        assert(front[i] == s[i]);
        lemma_first_is(front, c, i);
    } else {
        lemma_first_none(front, c);
    }
}

proof fn lemma_first_none(s: Seq<char>, c: char)
    requires
        forall|j: int| 0 <= j < s.len() ==> #[trigger] s[j] != c,
    ensures
        reply::first_of(s, c) is None,
    decreases s.len(),
{
    if s.len() > 0 {
        let front = s.drop_last();
        assert forall|j: int| 0 <= j < front.len() implies #[trigger] front[j] != c by {
            assert(front[j] == s[j]);
        }
        lemma_first_none(front, c);
        assert(s[s.len() - 1] != c);
    }
}

/// The last position of a character is the one that none is after.
pub proof fn lemma_last_is(s: Seq<char>, c: char, i: int)
    requires
        0 <= i < s.len(),
        s[i] == c,
        forall|j: int| i < j < s.len() ==> #[trigger] s[j] != c,
    ensures
        reply::last_of(s, c) == Some(i),
    decreases s.len(),
{
    if i < s.len() - 1 {
        let front = s.drop_last();
        assert(s[s.len() - 1] != c);
        assert(front[i] == s[i]);
        assert forall|j: int| i < j < front.len() implies #[trigger] front[j] != c by {
            assert(front[j] == s[j]);
        }
        lemma_last_is(front, c, i);
    }
}

/// A comma outside string literals with nothing but white space between it and a closing bracket.
pub open spec fn extra_comma(s: Seq<char>, i: int) -> bool {
    &&& s[i] == ','
    &&& !literal_open(s.take(i))
    &&& exists|j: int|
        {
            &&& i < j < s.len()
            &&& s[j] == '}' || s[j] == ']'
            &&& spaces::all_white(#[trigger] s.subrange(i + 1, j))
        }
}

/// The first `n` characters of a text without the commas that are too many.
pub open spec fn without_extra(s: Seq<char>, n: int) -> Seq<char>
    decreases n,
{
    if n <= 0 {
        Seq::empty()
    } else if extra_comma(s, n - 1) {
        without_extra(s, n - 1)
    } else {
        without_extra(s, n - 1).push(s[n - 1])
    }
}

proof fn lemma_before_close(s: Seq<char>, i: int)
    requires
        0 <= i < s.len(),
    ensures
        reply::before_close(s, i) <==> exists|j: int|
            {
                &&& i < j < s.len()
                &&& s[j] == '}' || s[j] == ']'
                &&& spaces::all_white(#[trigger] s.subrange(i + 1, j))
            },
{
    let tail = s.skip(i + 1);
    let rest = spaces::trim_start(tail);
    spaces::lemma_trim_start(tail);
    let k = tail.len() - rest.len();
    if reply::before_close(s, i) {
        let j = i + 1 + k;
        assert(rest[0] == s[j]);
        assert(s.subrange(i + 1, j) =~= tail.take(k));
    }
    if exists|j: int|
        {
            &&& i < j < s.len()
            &&& s[j] == '}' || s[j] == ']'
            &&& spaces::all_white(#[trigger] s.subrange(i + 1, j))
        } {
        let j = choose|j: int|
            {
                &&& i < j < s.len()
                &&& s[j] == '}' || s[j] == ']'
                &&& spaces::all_white(#[trigger] s.subrange(i + 1, j))
            };
        let m = j - i - 1;
        if k < m {
            assert(s.subrange(i + 1, j)[k] == rest[0]);
        }
        if k > m {
            assert(tail.take(k)[m] == s[j]);
        }
        assert(rest[0] == s[j]);
    }
}

proof fn lemma_repairing(s: Seq<char>, i: int)
    requires
        0 <= i <= s.len(),
    ensures
        reply::repaired(s) == without_extra(s, i) + reply::repaired_from(
            s,
            i,
            reply_laws::after_text(reply::outside(), s.take(i)),
        ),
    decreases i,
{
    if i == 0 {
        assert(s.take(0) =~= Seq::<char>::empty());
        assert(Seq::<char>::empty() + reply::repaired(s) =~= reply::repaired(s));
    } else {
        lemma_repairing(s, i - 1);
        let before = s.take(i - 1);
        assert(s.take(i).drop_last() =~= before);
        assert(s.take(i).last() == s[i - 1]);
        lemma_literal(before);
        lemma_before_close(s, i - 1);
        let l = reply_laws::after_text(reply::outside(), before);
        let rest = reply::repaired_from(s, i, reply::after_char(l, s[i - 1]));
        let kept = without_extra(s, i - 1);
        assert(kept + (seq![s[i - 1]] + rest) =~= kept.push(s[i - 1]) + rest);
    }
}

/// Repairing takes out exactly the commas outside string literals that stand before a closing
/// bracket, white space apart; everything else stays where it is.
pub proof fn law_repair_takes_the_extra_commas(s: Seq<char>)
    ensures
        reply::repaired(s) == without_extra(s, s.len() as int),
{
    lemma_repairing(s, s.len() as int);
    let n = s.len() as int;
    assert(reply::repaired_from(
        s,
        n,
        reply_laws::after_text(reply::outside(), s.take(n)),
    ) =~= Seq::<char>::empty());
    assert(without_extra(s, n) + Seq::<char>::empty() =~= without_extra(s, n));
}

/// A text that is shown shortened has its first `max` characters and an ellipsis; one that is not too
/// long is shown as it is.
pub proof fn law_long_texts_are_shortened(s: Seq<char>, max: int)
    requires
        max >= 0,
    ensures
        s.len() <= max ==> reply::shortened(s, max) == s,
        s.len() > max ==> {
            &&& reply::shortened(s, max).len() == max + 1
            &&& reply::shortened(s, max).take(max) == s.take(max)
            &&& reply::shortened(s, max).last() == '…'
        },
{
    if s.len() > max {
        assert(reply::shortened(s, max).take(max) =~= s.take(max));
    }
}

/// What is said of a reply without JSON shows its beginning on one line, 80 characters at most; what
/// is said of JSON that does not fit has the reason and the beginning of the stretch, 120 at most.
pub proof fn law_failures_show_the_reply(raw: Seq<char>, reason: Seq<char>)
    ensures
        reply::not_found_message(raw) == "输出中未找到 JSON（"@ + reply::shortened(
            spaces::one_line(raw),
            80,
        ) + "）"@,
        reply::mismatch_message(reason, raw) == "JSON 字段不符（"@ + reason + "："@
            + reply::shortened(spaces::one_line(raw), 120) + "）"@,
{
    let shown = reply::shortened(spaces::one_line(raw), 120);
    assert("JSON 字段不符（"@ + (reason + "："@ + shown) =~= "JSON 字段不符（"@ + reason + "："@
        + shown);
}

} // verus!
