//! Finding JSON in what a model wrote.

use vstd::prelude::*;
use vstd::string::StringExecFns;

use crate::text::chars::{add_char, chars_of, list_contains, string_of, substring};
use crate::text::spaces::{is_whitespace, one_line_of};
use crate::text::{chars, spaces};

verus! {

/// The first `max` characters of a text, with an ellipsis if that is not all of it.
pub open spec fn shortened(s: Seq<char>, max: int) -> Seq<char> {
    if s.len() > max {
        s.take(max) + seq!['…']
    } else {
        s
    }
}

/// The first `max` characters of a text, with an ellipsis if that is not all of it.
pub fn truncate_chars(s: &[char], max: usize) -> (r: String)
    ensures
        r@ == shortened(s@, max as int),
{
    if s.len() > max {
        let mut t = substring(s, 0, max);
        assert(t@ =~= s@.take(max as int));
        add_char(&mut t, '…');
        t
    } else {
        string_of(s)
    }
}

/// Where a scan stands with respect to string literals.
#[derive(Clone, Copy, PartialEq, Eq, Structural)]
pub struct Lexer {
    pub in_string: bool,
    pub escaped: bool,
}

/// Where the scan stands after one more character.
pub open spec fn after_char(l: Lexer, c: char) -> Lexer {
    if l.in_string {
        if l.escaped {
            Lexer { in_string: true, escaped: false }
        } else if c == '\\' {
            Lexer { in_string: true, escaped: true }
        } else {
            Lexer { in_string: c != '"', escaped: false }
        }
    } else {
        Lexer { in_string: c == '"', escaped: false }
    }
}

fn step(l: Lexer, c: char) -> (r: Lexer)
    ensures
        r == after_char(l, c),
{
    if l.in_string {
        if l.escaped {
            Lexer { in_string: true, escaped: false }
        } else if c == '\\' {
            Lexer { in_string: true, escaped: true }
        } else {
            Lexer { in_string: c != '"', escaped: false }
        }
    } else {
        Lexer { in_string: c == '"', escaped: false }
    }
}

pub open spec fn outside() -> Lexer {
    Lexer { in_string: false, escaped: false }
}

/// The position of the bracket that closes the outermost of `depth` open ones, from position `i`
/// on. Brackets in string literals do not count.
pub open spec fn closing(
    s: Seq<char>,
    i: int,
    l: Lexer,
    depth: nat,
    open: char,
    close: char,
) -> Option<int>
    decreases s.len() - i,
{
    if i < 0 || i >= s.len() {
        None
    } else {
        let c = s[i];
        let next = after_char(l, c);
        if l.in_string || c == '"' {
            closing(s, i + 1, next, depth, open, close)
        } else if c == open {
            closing(s, i + 1, next, depth + 1, open, close)
        } else if c == close {
            if depth <= 1 {
                Some(i)
            } else {
                closing(s, i + 1, next, (depth - 1) as nat, open, close)
            }
        } else {
            closing(s, i + 1, next, depth, open, close)
        }
    }
}

pub open spec fn bracket(is_array: bool) -> (char, char) {
    if is_array {
        ('[', ']')
    } else {
        ('{', '}')
    }
}

/// The text from the bracket at `start` to the one that closes it.
pub open spec fn balanced(s: Seq<char>, start: int, is_array: bool) -> Option<Seq<char>> {
    let (open, close) = bracket(is_array);
    match closing(s, start, outside(), 0, open, close) {
        Some(end) => Some(s.subrange(start, end + 1)),
        None => None,
    }
}

pub proof fn lemma_closing(
    s: Seq<char>,
    i: int,
    l: Lexer,
    depth: nat,
    open: char,
    close: char,
)
    requires
        0 <= i <= s.len(),
    ensures
        match closing(s, i, l, depth, open, close) {
            Some(e) => i <= e < s.len() && s[e] == close,
            None => true,
        },
    decreases s.len() - i,
{
    if i < s.len() {
        let c = s[i];
        let next = after_char(l, c);
        if l.in_string || c == '"' {
            lemma_closing(s, i + 1, next, depth, open, close);
        } else if c == open {
            lemma_closing(s, i + 1, next, depth + 1, open, close);
        } else if c == close {
            if depth > 1 {
                lemma_closing(s, i + 1, next, (depth - 1) as nat, open, close);
            }
        } else {
            lemma_closing(s, i + 1, next, depth, open, close);
        }
    }
}

/// The text from the bracket at `start` to the one that closes it.
fn scan_balanced(s: &[char], start: usize, is_array: bool) -> (r: Option<String>)
    requires
        start < s@.len(),
    ensures
        match r {
            Some(t) => balanced(s@, start as int, is_array) == Some(t@),
            None => balanced(s@, start as int, is_array) is None,
        },
{
    let (open, close) = if is_array {
        ('[', ']')
    } else {
        ('{', '}')
    };
    let n: usize = s.len();
    let mut depth: usize = 0;
    let mut l = Lexer { in_string: false, escaped: false };
    let mut i: usize = start;
    while i < n
        invariant
            n == s@.len(),
            start <= i <= n,
            depth <= i - start,
            (open, close) == bracket(is_array),
            closing(s@, start as int, outside(), 0, open, close) == closing(
                s@,
                i as int,
                l,
                depth as nat,
                open,
                close,
            ),
        decreases n - i,
    {
        let c: char = s[i];
        if !l.in_string && c != '"' {
            if c == open {
                depth = depth + 1;
            } else if c == close {
                if depth <= 1 {
                    return Some(substring(s, start, i + 1));
                }
                depth = depth - 1;
            }
        }
        l = step(l, c);
        i = i + 1;
    }
    None
}

/// The candidates that start among the first `k` characters: each balanced stretch once, in order,
/// and no more than `limit`.
pub open spec fn candidates_before(s: Seq<char>, k: int, is_array: bool, limit: int) -> Seq<
    Seq<char>,
>
    decreases k,
{
    if k <= 0 {
        Seq::empty()
    } else {
        let front = candidates_before(s, k - 1, is_array, limit);
        if front.len() >= limit || s[k - 1] != bracket(is_array).0 {
            front
        } else {
            match balanced(s, k - 1, is_array) {
                Some(c) => if front.contains(c) {
                    front
                } else {
                    front.push(c)
                },
                None => front,
            }
        }
    }
}

/// The first position of a character.
pub open spec fn first_of(s: Seq<char>, c: char) -> Option<int>
    decreases s.len(),
{
    if s.len() == 0 {
        None
    } else {
        match first_of(s.drop_last(), c) {
            Some(i) => Some(i),
            None => if s.last() == c {
                Some(s.len() - 1)
            } else {
                None
            },
        }
    }
}

/// The last position of a character.
pub open spec fn last_of(s: Seq<char>, c: char) -> Option<int>
    decreases s.len(),
{
    if s.len() == 0 {
        None
    } else if s.last() == c {
        Some(s.len() - 1)
    } else {
        last_of(s.drop_last(), c)
    }
}

/// What stands from the first opening to the last closing bracket.
pub open spec fn outer_stretch(s: Seq<char>, is_array: bool) -> Seq<Seq<char>> {
    let (open, close) = bracket(is_array);
    match (first_of(s, open), last_of(s, close)) {
        (Some(a), Some(b)) => if b > a {
            seq![s.subrange(a, b + 1)]
        } else {
            Seq::empty()
        },
        _ => Seq::empty(),
    }
}

/// The stretches of a model's output that may be the JSON value asked for, best guess first. If no
/// bracket is closed, what stands between the outermost brackets is the only guess.
pub open spec fn candidates(s: Seq<char>, is_array: bool, limit: int) -> Seq<Seq<char>> {
    let found = candidates_before(s, s.len() as int, is_array, limit);
    if found.len() == 0 {
        outer_stretch(s, is_array)
    } else {
        found
    }
}

/// The first position of a character.
fn first_position(s: &[char], c: char) -> (r: Option<usize>)
    ensures
        match r {
            Some(i) => first_of(s@, c) == Some(i as int) && i < s@.len(),
            None => first_of(s@, c) is None,
        },
{
    let mut r: Option<usize> = None;
    for i in 0..s.len()
        invariant
            match r {
                Some(k) => first_of(s@.take(i as int), c) == Some(k as int) && k < i,
                None => first_of(s@.take(i as int), c) is None,
            },
    {
        assert(s@.take(i + 1).drop_last() =~= s@.take(i as int));
        if r.is_none() && s[i] == c {
            r = Some(i);
        }
    }
    assert(s@.take(s@.len() as int) =~= s@);
    r
}

/// The last position of a character.
pub fn last_position(s: &[char], c: char) -> (r: Option<usize>)
    ensures
        match r {
            Some(i) => last_of(s@, c) == Some(i as int) && i < s@.len(),
            None => last_of(s@, c) is None,
        },
{
    let mut r: Option<usize> = None;
    for i in 0..s.len()
        invariant
            match r {
                Some(k) => last_of(s@.take(i as int), c) == Some(k as int) && k < i,
                None => last_of(s@.take(i as int), c) is None,
            },
    {
        assert(s@.take(i + 1).drop_last() =~= s@.take(i as int));
        if s[i] == c {
            r = Some(i);
        }
    }
    assert(s@.take(s@.len() as int) =~= s@);
    r
}

/// The stretches of a model's output that may be the JSON value asked for: at most `limit` balanced
/// ones, or, if there is none, what stands between the outermost brackets.
pub fn json_candidates(raw: &str, is_array: bool, limit: usize) -> (r: Vec<String>)
    ensures
        chars::views(r@) == candidates(raw@, is_array, limit as int),
{
    let s = chars_of(raw);
    let (open, close) = if is_array {
        ('[', ']')
    } else {
        ('{', '}')
    };
    let n: usize = s.len();
    let mut out: Vec<String> = Vec::new();
    assert(chars::views(out@) =~= Seq::<Seq<char>>::empty());
    for k in 0..n
        invariant
            n == s@.len(),
            s@ == raw@,
            (open, close) == bracket(is_array),
            chars::views(out@) == candidates_before(raw@, k as int, is_array, limit as int),
    {
        let ghost before = chars::views(out@);
        assert(before.len() == out@.len());
        if out.len() < limit && s[k] == open {
            if let Some(t) = scan_balanced(s.as_slice(), k, is_array) {
                if !list_contains(&out, t.as_str()) {
                    out.push(t);
                    assert(chars::views(out@) =~= before.push(t@));
                }
            }
        }
    }
    assert(chars::views(out@).len() == out@.len());
    if out.len() == 0 {
        if let (Some(a), Some(b)) = (
            first_position(s.as_slice(), open),
            last_position(s.as_slice(), close),
        ) {
            if b > a {
                out.push(substring(s.as_slice(), a, b + 1));
            }
        }
        assert(chars::views(out@) =~= outer_stretch(raw@, is_array));
    }
    out
}

/// The best guess at the JSON value in a model's output.
pub fn extract_json(raw: &str, is_array: bool) -> (r: Option<String>)
    ensures
        match r {
            Some(t) => candidates(raw@, is_array, 1).len() > 0 && t@ == candidates(
                raw@,
                is_array,
                1,
            )[0],
            None => candidates(raw@, is_array, 1).len() == 0,
        },
{
    let found = json_candidates(raw, is_array, 1);
    assert(chars::views(found@).len() == found@.len());
    if found.len() > 0 {
        assert(chars::views(found@)[0] == found@[0]@);
        Some(found[0].clone())
    } else {
        None
    }
}

/// After position `i` comes a closing bracket, white space apart.
pub open spec fn before_close(s: Seq<char>, i: int) -> bool {
    let rest = spaces::trim_start(s.skip(i + 1));
    rest.len() > 0 && (rest[0] == '}' || rest[0] == ']')
}

/// The text from position `i` on without the commas that come right before a closing bracket.
/// Commas in string literals stay.
pub open spec fn repaired_from(s: Seq<char>, i: int, l: Lexer) -> Seq<char>
    decreases s.len() - i,
{
    if i < 0 || i >= s.len() {
        Seq::empty()
    } else {
        let rest = repaired_from(s, i + 1, after_char(l, s[i]));
        if !l.in_string && s[i] == ',' && before_close(s, i) {
            rest
        } else {
            seq![s[i]] + rest
        }
    }
}

pub open spec fn repaired(s: Seq<char>) -> Seq<char> {
    repaired_from(s, 0, outside())
}

fn is_before_close(s: &[char], i: usize) -> (r: bool)
    requires
        i < s@.len(),
    ensures
        r == before_close(s@, i as int),
{
    let n: usize = s.len();
    let mut k: usize = i + 1;
    while k < n && is_whitespace(s[k])
        invariant
            n == s@.len(),
            i < k <= n,
            spaces::trim_start(s@.skip(i + 1)) == spaces::trim_start(s@.skip(k as int)),
        decreases n - k,
    {
        assert(s@.skip(k as int)[0] == s@[k as int]);
        assert(s@.skip(k as int).drop_first() =~= s@.skip(k + 1));
        k = k + 1;
    }
    if k < n {
        assert(s@.skip(k as int)[0] == s@[k as int]);
        s[k] == '}' || s[k] == ']'
    } else {
        assert(s@.skip(k as int).len() == 0);
        false
    }
}

/// The text without the commas that come right before a closing bracket.
pub fn repair_json(s: &str) -> (r: String)
    ensures
        r@ == repaired(s@),
{
    let v = chars_of(s);
    let n: usize = v.len();
    let mut out = String::new();
    let mut l = Lexer { in_string: false, escaped: false };
    assert(out@ + repaired(s@) =~= repaired(s@));
    for i in 0..n
        invariant
            n == v@.len(),
            v@ == s@,
            out@ + repaired_from(s@, i as int, l) == repaired(s@),
    {
        let c: char = v[i];
        let ghost before = out@;
        let ghost rest = repaired_from(s@, i + 1, after_char(l, c));
        if !l.in_string && c == ',' && is_before_close(v.as_slice(), i) {
        } else {
            add_char(&mut out, c);
            assert(before + (seq![c] + rest) =~= before + seq![c] + rest);
        }
        l = step(l, c);
    }
    assert(out@ + Seq::<char>::empty() =~= out@);
    out
}

/// Some decoding of the text gave `v`.
pub open spec fn accepts<T, F: Fn(&str) -> Result<T, String>>(
    decode: F,
    text: Seq<char>,
    v: T,
) -> bool {
    exists|x: &str| x@ == text && #[trigger] call_ensures(decode, (x,), Ok(v))
}

/// Some decoding of the text failed, with the message `m`.
pub open spec fn refuses<T, F: Fn(&str) -> Result<T, String>>(
    decode: F,
    text: Seq<char>,
    m: String,
) -> bool {
    exists|x: &str| x@ == text && #[trigger] call_ensures(decode, (x,), Err::<T, String>(m))
}

/// Neither the text nor its repaired form was decoded.
pub open spec fn passed_over<T, F: Fn(&str) -> Result<T, String>>(
    decode: F,
    text: Seq<char>,
) -> bool {
    &&& exists|m: String| #[trigger] refuses(decode, text, m)
    &&& exists|m: String| #[trigger] refuses(decode, repaired(text), m)
}

/// What is said when there is no JSON in the output.
pub open spec fn not_found_message(raw: Seq<char>) -> Seq<char> {
    "输出中未找到 JSON（"@ + shortened(spaces::one_line(raw), 80) + "）"@
}

/// What is said when no candidate was decoded: the last reason and the candidate it is about.
pub open spec fn mismatch_message(reason: Seq<char>, candidate: Seq<char>) -> Seq<char> {
    "JSON 字段不符（"@ + (reason + "："@ + shortened(spaces::one_line(candidate), 120)) + "）"@
}

/// How many candidates are tried.
pub const MAX_CANDIDATES: usize = 6;

/// Decodes the JSON value in a model's output.
///
/// The candidates are tried in turn, each as it stands and then without trailing commas; the first
/// that `decode` accepts wins.
pub fn parse_json<T, F: Fn(&str) -> Result<T, String>>(
    raw: &str,
    is_array: bool,
    decode: F,
) -> (r: Result<T, String>)
    requires
        forall|x: &str| #[trigger] call_requires(decode, (x,)),
    ensures
        ({
            let all = candidates(raw@, is_array, MAX_CANDIDATES as int);
            match r {
                Ok(v) => exists|k: int|
                    #![trigger all[k]]
                    {
                        &&& 0 <= k < all.len()
                        &&& accepts(decode, all[k], v) || (accepts(decode, repaired(all[k]), v)
                            && exists|m: String| #[trigger] refuses(decode, all[k], m))
                        &&& forall|j: int| 0 <= j < k ==> passed_over(decode, #[trigger] all[j])
                    },
                Err(m) => {
                    &&& forall|j: int| 0 <= j < all.len() ==> passed_over(decode, #[trigger] all[j])
                    &&& all.len() == 0 ==> m@ == not_found_message(raw@)
                    &&& all.len() > 0 ==> exists|e: String| #[trigger]
                        refuses(decode, repaired(all.last()), e) && m@ == mismatch_message(
                            e@,
                            all.last(),
                        )
                },
            }
        }),
{
    let found = json_candidates(raw, is_array, MAX_CANDIDATES);
    let ghost all = candidates(raw@, is_array, MAX_CANDIDATES as int);
    assert(chars::views(found@).len() == found@.len());
    if found.len() == 0 {
        let line = one_line_of(raw);
        let mut m = "输出中未找到 JSON（".to_string();
        m.append(truncate_chars(line.as_slice(), 80).as_str());
        m.append("）");
        return Err(m);
    }
    let mut last = String::new();
    let ghost mut reason: String = last;
    let n: usize = found.len();
    for k in 0..n
        invariant
            n == found@.len(),
            n > 0,
            all == candidates(raw@, is_array, MAX_CANDIDATES as int),
            all == chars::views(found@),
            forall|x: &str| #[trigger] call_requires(decode, (x,)),
            forall|j: int| 0 <= j < k ==> passed_over(decode, #[trigger] all[j]),
            k > 0 ==> refuses(decode, repaired(all[k - 1]), reason) && last@ == reason@ + "："@
                + shortened(spaces::one_line(all[k - 1]), 120),
    {
        let text = found[k].as_str();
        assert(all[k as int] == text@);
        match decode(text) {
            Ok(v) => {
                assert(accepts(decode, all[k as int], v));
                return Ok(v);
            },
            Err(m) => {
                assert(refuses(decode, all[k as int], m));
            },
        }
        let mended = repair_json(text);
        match decode(mended.as_str()) {
            Ok(v) => {
                assert(accepts(decode, repaired(all[k as int]), v));
                return Ok(v);
            },
            Err(m) => {
                assert(refuses(decode, repaired(all[k as int]), m));
                proof {
                    reason = m;
                }
                let line = one_line_of(text);
                last = m.clone();
                last.append("：");
                last.append(truncate_chars(line.as_slice(), 120).as_str());
            },
        }
    }
    let mut m = "JSON 字段不符（".to_string();
    m.append(last.as_str());
    m.append("）");
    assert(all[n - 1] == all.last());
    assert(refuses(decode, repaired(all.last()), reason));
    assert(m@ == mismatch_message(reason@, all.last()));
    Err(m)
}

} // verus!
