//! What finding and repairing JSON guarantees.

use vstd::prelude::*;

use crate::llm::reply;
use crate::text::json;

verus! {

/// A stretch of the text that starts with the bracket for the kind of value asked for and ends with
/// the one that closes it.
pub open spec fn bracketed(s: Seq<char>, c: Seq<char>, is_array: bool) -> bool {
    &&& c.len() > 1
    &&& c[0] == reply::bracket(is_array).0
    &&& c.last() == reply::bracket(is_array).1
    &&& exists|i: int| 0 <= i <= s.len() - c.len() && c == #[trigger] s.subrange(i, i + c.len())
}

proof fn lemma_closing_end(
    s: Seq<char>,
    i: int,
    l: reply::Lexer,
    depth: nat,
    open: char,
    close: char,
)
    requires
        0 <= i < s.len(),
        s[i] == open,
        open != close,
        open != '"',
        !l.in_string,
    ensures
        match reply::closing(s, i, l, depth, open, close) {
            Some(e) => i < e < s.len() && s[e] == close,
            None => true,
        },
{
    let next = reply::after_char(l, s[i]);
    if i + 1 <= s.len() {
        reply::lemma_closing(s, i + 1, next, depth + 1, open, close);
    }
}

proof fn lemma_candidates_before(s: Seq<char>, k: int, is_array: bool, limit: int)
    requires
        0 <= k <= s.len(),
        limit >= 0,
    ensures
        ({
            let list = reply::candidates_before(s, k, is_array, limit);
            &&& list.len() <= limit
            &&& list.no_duplicates()
            &&& forall|j: int| 0 <= j < list.len() ==> bracketed(s, #[trigger] list[j], is_array)
        }),
    decreases k,
{
    if k > 0 {
        lemma_candidates_before(s, k - 1, is_array, limit);
        let front = reply::candidates_before(s, k - 1, is_array, limit);
        let (open, close) = reply::bracket(is_array);
        if front.len() < limit && s[k - 1] == open {
            lemma_closing_end(s, k - 1, reply::outside(), 0, open, close);
            match reply::closing(s, k - 1, reply::outside(), 0, open, close) {
                Some(e) => {
                    let c = s.subrange(k - 1, e + 1);
                    assert(c == s.subrange(k - 1, k - 1 + c.len()));
                    assert(bracketed(s, c, is_array));
                },
                None => {},
            }
        }
    }
}

/// Every guess is a stretch of the output that starts and ends with the right brackets, no two are
/// the same, and there are no more than asked for, or one.
pub proof fn law_candidates(s: Seq<char>, is_array: bool, limit: int)
    requires
        limit >= 0,
    ensures
        ({
            let list = reply::candidates(s, is_array, limit);
            &&& list.len() <= limit || list.len() == 1
            &&& list.no_duplicates()
            &&& forall|j: int| 0 <= j < list.len() ==> bracketed(s, #[trigger] list[j], is_array)
        }),
{
    lemma_candidates_before(s, s.len() as int, is_array, limit);
    let (open, close) = reply::bracket(is_array);
    lemma_first_of(s, open);
    lemma_last_of(s, close);
    match (reply::first_of(s, open), reply::last_of(s, close)) {
        (Some(a), Some(b)) => {
            if b > a {
                let c = s.subrange(a, b + 1);
                assert(c == s.subrange(a, a + c.len()));
                assert(bracketed(s, c, is_array));
            }
        },
        _ => {},
    }
}

proof fn lemma_first_of(s: Seq<char>, c: char)
    ensures
        match reply::first_of(s, c) {
            Some(i) => 0 <= i < s.len() && s[i] == c,
            None => true,
        },
    decreases s.len(),
{
    if s.len() > 0 {
        lemma_first_of(s.drop_last(), c);
    }
}

proof fn lemma_last_of(s: Seq<char>, c: char)
    ensures
        match reply::last_of(s, c) {
            Some(i) => 0 <= i < s.len() && s[i] == c,
            None => true,
        },
    decreases s.len(),
{
    if s.len() > 0 {
        lemma_last_of(s.drop_last(), c);
    }
}

/// The text without its commas.
pub open spec fn without_commas(s: Seq<char>) -> Seq<char>
    decreases s.len(),
{
    if s.len() == 0 {
        Seq::empty()
    } else if s[0] == ',' {
        without_commas(s.drop_first())
    } else {
        seq![s[0]] + without_commas(s.drop_first())
    }
}

proof fn lemma_without_commas_cons(c: char, s: Seq<char>)
    ensures
        without_commas(seq![c] + s) == (if c == ',' {
            without_commas(s)
        } else {
            seq![c] + without_commas(s)
        }),
{
    assert((seq![c] + s).drop_first() =~= s);
}

proof fn lemma_repaired_from(s: Seq<char>, i: int, l: reply::Lexer)
    requires
        0 <= i <= s.len(),
    ensures
        without_commas(reply::repaired_from(s, i, l)) == without_commas(s.skip(i)),
        (forall|j: int| i <= j < s.len() && #[trigger] s[j] == ',' ==> !reply::before_close(s, j))
            ==> reply::repaired_from(s, i, l) == s.skip(i),
    decreases s.len() - i,
{
    if i < s.len() {
        let next = reply::after_char(l, s[i]);
        lemma_repaired_from(s, i + 1, next);
        let rest = reply::repaired_from(s, i + 1, next);
        assert(seq![s[i]] + s.skip(i + 1) =~= s.skip(i));
        lemma_without_commas_cons(s[i], s.skip(i + 1));
        lemma_without_commas_cons(s[i], rest);
    } else {
        assert(s.skip(i) =~= Seq::<char>::empty());
    }
}

/// Repairing takes commas and nothing else, and leaves a text alone in which no comma comes right
/// before a closing bracket.
pub proof fn law_repair_takes_commas_only(s: Seq<char>)
    ensures
        without_commas(reply::repaired(s)) == without_commas(s),
        (forall|j: int| 0 <= j < s.len() && #[trigger] s[j] == ',' ==> !reply::before_close(s, j))
            ==> reply::repaired(s) == s,
{
    lemma_repaired_from(s, 0, reply::outside());
    assert(s.skip(0) =~= s);
}

/// Where the scan stands after a text.
pub open spec fn after_text(l: reply::Lexer, s: Seq<char>) -> reply::Lexer
    decreases s.len(),
{
    if s.len() == 0 {
        l
    } else {
        reply::after_char(after_text(l, s.drop_last()), s.last())
    }
}

proof fn lemma_after_text_add(l: reply::Lexer, a: Seq<char>, b: Seq<char>)
    ensures
        after_text(l, a + b) == after_text(after_text(l, a), b),
    decreases b.len(),
{
    if b.len() == 0 {
        assert(a + b =~= a);
    } else {
        assert((a + b).drop_last() =~= a + b.drop_last());
        lemma_after_text_add(l, a, b.drop_last());
    }
}

spec fn inside() -> reply::Lexer {
    reply::Lexer { in_string: true, escaped: false }
}

proof fn lemma_plain_text(s: Seq<char>)
    requires
        forall|i: int| 0 <= i < s.len() ==> #[trigger] s[i] != '"' && s[i] != '\\',
    ensures
        after_text(inside(), s) == inside(),
    decreases s.len(),
{
    if s.len() > 0 {
        lemma_plain_text(s.drop_last());
        assert(s[s.len() - 1] == s.last());
    }
}

/// An escape sequence: a backslash, a character, and plain text.
proof fn lemma_escape_sequence(x: char, rest: Seq<char>)
    requires
        forall|i: int| 0 <= i < rest.len() ==> #[trigger] rest[i] != '"' && rest[i] != '\\',
    ensures
        after_text(inside(), seq!['\\', x] + rest) == inside(),
{
    let two = seq!['\\', x];
    assert(two.drop_last() =~= seq!['\\']);
    assert(seq!['\\'].drop_last() =~= Seq::<char>::empty());
    assert(after_text(inside(), Seq::<char>::empty()) == inside());
    assert(after_text(inside(), seq!['\\']) == reply::Lexer { in_string: true, escaped: true });
    assert(after_text(inside(), two) == inside());
    lemma_plain_text(rest);
    lemma_after_text_add(inside(), two, rest);
}

proof fn lemma_escape(c: char)
    ensures
        after_text(inside(), json::json_escape(c)) == inside(),
{
    let e = json::json_escape(c);
    if e.len() == 1 {
        lemma_plain_text(e);
    } else if e.len() == 2 {
        assert(e =~= seq!['\\', e[1]] + Seq::<char>::empty());
        lemma_escape_sequence(e[1], Seq::<char>::empty());
    } else {
        let rest = e.skip(2);
        assert(e =~= seq!['\\', e[1]] + rest);
        assert forall|i: int| 0 <= i < rest.len() implies #[trigger] rest[i] != '"' && rest[i]
            != '\\' by {
            assert(rest[i] == e[i + 2]);
        }
        lemma_escape_sequence(e[1], rest);
    }
}

proof fn lemma_escaped(s: Seq<char>)
    ensures
        after_text(inside(), json::json_escaped(s)) == inside(),
    decreases s.len(),
{
    if s.len() > 0 {
        lemma_escaped(s.drop_last());
        lemma_escape(s.last());
        lemma_after_text_add(
            inside(),
            json::json_escaped(s.drop_last()),
            json::json_escape(s.last()),
        );
    }
}

/// A text written as a JSON literal is one string literal to the scan, whatever it holds: its own
/// quotes, backslashes and brackets neither end it nor count.
pub proof fn law_literals_hold_any_text(s: Seq<char>)
    ensures
        after_text(reply::outside(), seq!['"'] + json::json_escaped(s)).in_string,
        after_text(reply::outside(), json::json_quoted(s)) == reply::outside(),
{
    let q = seq!['"'];
    assert(q.drop_last() =~= Seq::<char>::empty());
    assert(after_text(reply::outside(), Seq::<char>::empty()) == reply::outside());
    assert(after_text(reply::outside(), q) == inside());
    lemma_escaped(s);
    lemma_after_text_add(reply::outside(), q, json::json_escaped(s));
    assert(after_text(inside(), Seq::<char>::empty()) == inside());
    assert(after_text(inside(), q) == reply::outside());
    lemma_after_text_add(reply::outside(), q + json::json_escaped(s), q);
}

proof fn lemma_first_candidate(s: Seq<char>, k: int, is_array: bool, limit: int)
    requires
        0 <= k <= s.len(),
        limit >= 1,
    ensures
        ({
            let one = reply::candidates_before(s, k, is_array, 1);
            let list = reply::candidates_before(s, k, is_array, limit);
            &&& one.len() == 0 <==> list.len() == 0
            &&& list.len() > 0 ==> one[0] == list[0]
        }),
    decreases k,
{
    if k > 0 {
        lemma_first_candidate(s, k - 1, is_array, limit);
    }
}

/// The first guess does not depend on how many are asked for: with any limit above zero there is a
/// guess exactly if there is one with the limit of one, and the first is the same.
pub proof fn law_first_guess(s: Seq<char>, is_array: bool, limit: int)
    requires
        limit >= 1,
    ensures
        reply::candidates(s, is_array, limit).len() == 0 <==> reply::candidates(
            s,
            is_array,
            1,
        ).len() == 0,
        reply::candidates(s, is_array, limit).len() > 0 ==> reply::candidates(s, is_array, limit)[0]
            == reply::candidates(s, is_array, 1)[0],
{
    lemma_first_candidate(s, s.len() as int, is_array, limit);
}

} // verus!
