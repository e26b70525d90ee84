//! White space and trimming.

use vstd::prelude::*;

verus! {

/// The characters with the Unicode property White_Space.
pub open spec fn is_white(c: char) -> bool {
    let u = c as u32;
    ||| 0x9 <= u <= 0xd
    ||| u == 0x20
    ||| u == 0x85
    ||| u == 0xa0
    ||| u == 0x1680
    ||| 0x2000 <= u <= 0x200a
    ||| u == 0x2028
    ||| u == 0x2029
    ||| u == 0x202f
    ||| u == 0x205f
    ||| u == 0x3000
}

/// Whether `c` is white space.
pub fn is_whitespace(c: char) -> (b: bool)
    ensures
        b == is_white(c),
{
    let u: u32 = c as u32;
    (0x9 <= u && u <= 0xd) || u == 0x20 || u == 0x85 || u == 0xa0 || u == 0x1680 || (0x2000 <= u && u
        <= 0x200a) || u == 0x2028 || u == 0x2029 || u == 0x202f || u == 0x205f || u == 0x3000
}

/// Every character of `s` is white space.
pub open spec fn all_white(s: Seq<char>) -> bool {
    forall|i: int| 0 <= i < s.len() ==> is_white(#[trigger] s[i])
}

/// `s` without the white space at its start.
pub open spec fn trim_start(s: Seq<char>) -> Seq<char>
    decreases s.len(),
{
    if s.len() > 0 && is_white(s[0]) {
        trim_start(s.drop_first())
    } else {
        s
    }
}

/// `s` without the white space at its end.
pub open spec fn trim_end(s: Seq<char>) -> Seq<char>
    decreases s.len(),
{
    if s.len() > 0 && is_white(s.last()) {
        trim_end(s.drop_last())
    } else {
        s
    }
}

/// `s` without the white space at either end.
pub open spec fn trim(s: Seq<char>) -> Seq<char> {
    trim_end(trim_start(s))
}

/// The slice without the white space at its start.
pub fn trim_start_of(s: &[char]) -> (r: &[char])
    ensures
        r@ == trim_start(s@),
{
    let n: usize = s.len();
    let mut i: usize = 0;
    assert(s@.skip(0) =~= s@);
    while i < n && is_whitespace(s[i])
        invariant
            i <= n,
            n == s@.len(),
            trim_start(s@) == trim_start(s@.skip(i as int)),
        decreases n - i,
    {
        assert(s@.skip(i as int).drop_first() =~= s@.skip(i + 1));
        i = i + 1;
    }
    assert(s@.skip(i as int) =~= s@.subrange(i as int, n as int));
    &s[i..n]
}

/// The slice without the white space at its end.
pub fn trim_end_of(s: &[char]) -> (r: &[char])
    ensures
        r@ == trim_end(s@),
{
    let mut n: usize = s.len();
    assert(s@.take(n as int) =~= s@);
    while n > 0 && is_whitespace(s[n - 1])
        invariant
            n <= s@.len(),
            trim_end(s@) == trim_end(s@.take(n as int)),
        decreases n,
    {
        assert(s@.take(n as int).drop_last() =~= s@.take(n - 1));
        n = n - 1;
    }
    assert(s@.take(n as int) =~= s@.subrange(0, n as int));
    &s[0..n]
}

/// The slice without the white space at either end.
pub fn trim_of(s: &[char]) -> (r: &[char])
    ensures
        r@ == trim(s@),
{
    trim_end_of(trim_start_of(s))
}

/// The text without the white space at either end.
pub fn trimmed(s: &str) -> (r: String)
    ensures
        r@ == trim(s@),
{
    let chars = super::chars::chars_of(s);
    super::chars::string_of(trim_of(chars.as_slice()))
}

/// Whether the text holds nothing but white space.
pub fn is_blank(s: &str) -> (b: bool)
    ensures
        b == (trim(s@).len() == 0),
{
    let chars = super::chars::chars_of(s);
    trim_of(chars.as_slice()).len() == 0
}

/// The text on one line: a space for each line break.
pub open spec fn one_line(text: Seq<char>) -> Seq<char> {
    text.map_values(|c: char| space_for_break(c))
}

pub open spec fn space_for_break(c: char) -> char {
    if c == '\n' {
        ' '
    } else {
        c
    }
}

/// The text on one line: a space for each line break.
pub fn one_line_of(text: &str) -> (r: Vec<char>)
    ensures
        r@ == one_line(text@),
{
    let v = super::chars::chars_of(text);
    let mut out: Vec<char> = Vec::new();
    for i in 0..v.len()
        invariant
            v@ == text@,
            out@.len() == i,
            forall|j: int| 0 <= j < i ==> #[trigger] out@[j] == space_for_break(text@[j]),
    {
        let c: char = v[i];
        out.push(
            if c == '\n' {
                ' '
            } else {
                c
            },
        );
    }
    assert(out@ =~= one_line(text@));
    out
}

/// What trimming leaves is a stretch of the text that is free of white space at its ends.
pub proof fn lemma_trim_end(s: Seq<char>)
    ensures
        trim_end(s).len() <= s.len(),
        trim_end(s) == s.take(trim_end(s).len() as int),
        trim_end(s).len() > 0 ==> !is_white(trim_end(s).last()),
        all_white(s.skip(trim_end(s).len() as int)),
    decreases s.len(),
{
    if s.len() > 0 && is_white(s.last()) {
        let d = s.drop_last();
        lemma_trim_end(d);
        let k = trim_end(s).len() as int;
        assert(d.take(k) =~= s.take(k));
        assert forall|i: int| 0 <= i < s.skip(k).len() implies is_white(#[trigger] s.skip(k)[i]) by {
            if i < d.skip(k).len() {
                assert(d.skip(k)[i] == s.skip(k)[i]);
            } else {
                assert(s.skip(k)[i] == s.last());
            }
        }
    } else {
        assert(s.take(s.len() as int) =~= s);
    }
}

pub proof fn lemma_trim_start(s: Seq<char>)
    ensures
        trim_start(s).len() <= s.len(),
        trim_start(s) == s.skip(s.len() - trim_start(s).len()),
        trim_start(s).len() > 0 ==> !is_white(trim_start(s)[0]),
        all_white(s.take(s.len() - trim_start(s).len())),
    decreases s.len(),
{
    if s.len() > 0 && is_white(s[0]) {
        let d = s.drop_first();
        lemma_trim_start(d);
        let k = s.len() - trim_start(s).len();
        assert(d.skip(k - 1) =~= s.skip(k));
        assert forall|i: int| 0 <= i < s.take(k).len() implies is_white(#[trigger] s.take(k)[i]) by {
            if i > 0 {
                assert(d.take(k - 1)[i - 1] == s.take(k)[i]);
            } else {
                assert(s.take(k)[i] == s[0]);
            }
        }
    } else {
        assert(s.skip(0) =~= s);
    }
}

/// Trimming leaves nothing of white space, and of nothing else.
pub proof fn lemma_blank(s: Seq<char>)
    ensures
        trim(s).len() == 0 <==> all_white(s),
        trim_end(s).len() == 0 <==> all_white(s),
{
    lemma_trim_start(s);
    lemma_trim_end(s);
    lemma_trim_end(trim_start(s));
    let t = trim_start(s);
    if all_white(s) {
        if t.len() > 0 {
            assert(t[0] == s[s.len() - t.len()]);
        }
        if trim_end(s).len() > 0 {
            assert(trim_end(s).last() == s[trim_end(s).len() - 1]);
        }
    }
    if trim_end(s).len() == 0 {
        assert(s.skip(0) =~= s);
    }
    if trim(s).len() == 0 {
        assert(t.skip(0) =~= t);
        if t.len() > 0 {
            assert(is_white(t[0]));
        }
        assert(s.take(s.len() as int) =~= s);
    }
}

/// Text without white space at its ends is left alone by trimming.
pub proof fn lemma_trim_fixed(s: Seq<char>)
    requires
        s.len() > 0 ==> !is_white(s[0]) && !is_white(s.last()),
    ensures
        trim(s) == s,
        trim_end(s) == s,
        trim_start(s) == s,
{
}

/// Trimming twice is trimming once.
pub proof fn lemma_trim_idempotent(s: Seq<char>)
    ensures
        trim(trim(s)) == trim(s),
        trim_end(trim(s)) == trim(s),
        trim_start(trim(s)) == trim(s),
        trim(s).len() > 0 ==> !is_white(trim(s)[0]) && !is_white(trim(s).last()),
{
    lemma_trim_start(s);
    lemma_trim_end(trim_start(s));
    let t = trim(s);
    if t.len() > 0 {
        assert(t[0] == trim_start(s)[0]);
    }
    lemma_trim_fixed(t);
}

} // verus!
