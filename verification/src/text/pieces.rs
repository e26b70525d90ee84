//! Searching, splitting, joining and replacing.

use vstd::prelude::*;

verus! {

pub open spec fn starts_with(s: Seq<char>, p: Seq<char>) -> bool {
    p.len() <= s.len() && s.take(p.len() as int) == p
}

/// The first position at which `p` occurs in `s`.
pub open spec fn find(s: Seq<char>, p: Seq<char>) -> Option<int>
    decreases s.len(),
{
    if starts_with(s, p) {
        Some(0int)
    } else if s.len() == 0 {
        None
    } else {
        match find(s.drop_first(), p) {
            Some(i) => Some(i + 1),
            None => None,
        }
    }
}

pub proof fn lemma_find(s: Seq<char>, p: Seq<char>)
    ensures
        match find(s, p) {
            Some(i) => {
                &&& 0 <= i <= i + p.len() <= s.len()
                &&& s.subrange(i as int, i + p.len()) == p
                &&& forall|j: int| 0 <= j < i ==> !#[trigger] starts_with(s.skip(j), p)
            },
            None => forall|j: int| 0 <= j <= s.len() ==> !#[trigger] starts_with(s.skip(j), p),
        },
    decreases s.len(),
{
    assert(s.skip(0) =~= s);
    if starts_with(s, p) {
        assert(s.subrange(0, p.len() as int) =~= s.take(p.len() as int));
    } else if s.len() > 0 {
        let d = s.drop_first();
        lemma_find(d, p);
        assert forall|j: int| 1 <= j <= s.len() implies #[trigger] s.skip(j) == d.skip(j - 1) by {
            assert(s.skip(j) =~= d.skip(j - 1));
        }
        match find(d, p) {
            Some(i) => {
                assert(d.subrange(i as int, i + p.len()) =~= s.subrange(i + 1, i + 1 + p.len()));
            },
            None => {},
        }
    }
}

/// What `find` returns is the only position with these properties.
pub proof fn lemma_find_is(s: Seq<char>, p: Seq<char>, i: int)
    requires
        0 <= i <= s.len(),
        starts_with(s.skip(i as int), p),
        forall|j: int| 0 <= j < i ==> !#[trigger] starts_with(s.skip(j), p),
    ensures
        find(s, p) == Some(i),
{
    lemma_find(s, p);
    match find(s, p) {
        Some(k) => {
            assert(s.skip(k as int).take(p.len() as int) =~= s.subrange(k as int, k + p.len()));
            assert(starts_with(s.skip(k as int), p));
        },
        None => {},
    }
}

pub proof fn lemma_find_none(s: Seq<char>, p: Seq<char>)
    requires
        forall|j: int| 0 <= j <= s.len() ==> !#[trigger] starts_with(s.skip(j), p),
    ensures
        find(s, p) is None,
{
    lemma_find(s, p);
    match find(s, p) {
        Some(k) => {
            assert(s.skip(k as int).take(p.len() as int) =~= s.subrange(k as int, k + p.len()));
            assert(starts_with(s.skip(k as int), p));
        },
        None => {},
    }
}

/// The stretches of `s` between the occurrences of `p`, found from left to right.
pub open spec fn split(s: Seq<char>, p: Seq<char>) -> Seq<Seq<char>>
    decreases s.len(),
{
    match find(s, p) {
        Some(i) => if p.len() > 0 && 0 <= i && i + p.len() <= s.len() {
            seq![s.take(i as int)] + split(s.skip((i + p.len()) as int), p)
        } else {
            seq![s]
        },
        None => seq![s],
    }
}

/// The parts with `sep` between each two of them.
pub open spec fn join(parts: Seq<Seq<char>>, sep: Seq<char>) -> Seq<char>
    decreases parts.len(),
{
    if parts.len() == 0 {
        Seq::empty()
    } else if parts.len() == 1 {
        parts[0]
    } else {
        join(parts.drop_last(), sep) + sep + parts.last()
    }
}

/// `s` with every occurrence of `from` replaced by `to`.
pub open spec fn replaced(s: Seq<char>, from: Seq<char>, to: Seq<char>) -> Seq<char> {
    join(split(s, from), to)
}

/// The text before and after the first occurrence of `p`.
pub open spec fn split_once(s: Seq<char>, p: Seq<char>) -> Option<(Seq<char>, Seq<char>)> {
    match find(s, p) {
        Some(i) => Some((s.take(i as int), s.skip((i + p.len()) as int))),
        None => None,
    }
}

pub open spec fn slices(list: Seq<&[char]>) -> Seq<Seq<char>> {
    list.map_values(|s: &[char]| s@)
}

fn starts_at(s: &[char], p: &[char], at: usize) -> (r: bool)
    requires
        at <= s@.len(),
    ensures
        r == starts_with(s@.skip(at as int), p@),
{
    let n: usize = s.len();
    let m: usize = p.len();
    if m > n - at {
        return false;
    }
    for k in 0..m
        invariant
            n == s@.len(),
            m == p@.len(),
            at + m <= n,
            forall|j: int| 0 <= j < k ==> s@[at + j] == p@[j],
    {
        if s[at + k] != p[k] {
            assert(s@.skip(at as int).take(m as int)[k as int] == s@[at + k]);
            return false;
        }
    }
    assert(s@.skip(at as int).take(m as int) =~= p@);
    true
}

/// The first position of `p` in `s`.
pub fn find_in(s: &[char], p: &[char]) -> (r: Option<usize>)
    ensures
        match r {
            Some(i) => find(s@, p@) == Some(i as int),
            None => find(s@, p@) is None,
        },
{
    let n: usize = s.len();
    let mut i: usize = 0;
    while i < n
        invariant
            i <= n,
            n == s@.len(),
            forall|j: int| 0 <= j < i ==> !#[trigger] starts_with(s@.skip(j), p@),
        decreases n - i,
    {
        if starts_at(s, p, i) {
            proof {
                lemma_find_is(s@, p@, i as int);
            }
            return Some(i);
        }
        i = i + 1;
    }
    if starts_at(s, p, n) {
        proof {
            lemma_find_is(s@, p@, n as int);
        }
        return Some(n);
    }
    proof {
        lemma_find_none(s@, p@);
    }
    None
}

/// The stretches of `s` between the occurrences of `p`.
pub fn split_in<'a>(s: &'a [char], p: &[char]) -> (r: Vec<&'a [char]>)
    requires
        p@.len() > 0,
    ensures
        slices(r@) == split(s@, p@),
        r@.len() > 0,
{
    let mut out: Vec<&'a [char]> = Vec::new();
    let mut rest: &'a [char] = s;
    let mut going: bool = true;
    while going
        invariant
            p@.len() > 0,
            going ==> split(s@, p@) == slices(out@) + split(rest@, p@),
            !going ==> split(s@, p@) == slices(out@) && out@.len() > 0,
        decreases (if going {
            rest@.len() + 1
        } else {
            0
        }),
    {
        let ghost before = slices(out@);
        proof {
            lemma_find(rest@, p@);
        }
        match find_in(rest, p) {
            Some(i) => {
                let n: usize = rest.len();
                let head: &'a [char] = &rest[0..i];
                let tail: &'a [char] = &rest[i + p.len()..n];
                assert(head@ =~= rest@.take(i as int));
                assert(tail@ =~= rest@.skip(i + p@.len()));
                out.push(head);
                assert(slices(out@) =~= before.push(head@));
                assert(before + split(rest@, p@) =~= before.push(head@) + split(tail@, p@));
                rest = tail;
            },
            None => {
                out.push(rest);
                assert(slices(out@) =~= before.push(rest@));
                assert(before + split(rest@, p@) =~= before.push(rest@));
                going = false;
            },
        }
    }
    out
}

/// Appends the characters of `s`.
pub fn push_chars(out: &mut Vec<char>, s: &[char])
    ensures
        final(out)@ == old(out)@ + s@,
{
    let n: usize = s.len();
    let ghost start = out@;
    for i in 0..n
        invariant
            n == s@.len(),
            out@ == start + s@.take(i as int),
    {
        out.push(s[i]);
        assert(start + s@.take(i + 1) =~= (start + s@.take(i as int)).push(s@[i as int]));
    }
    assert(s@.take(n as int) =~= s@);
}

/// The parts with `sep` between each two of them.
pub fn join_slices(parts: &Vec<&[char]>, sep: &[char]) -> (r: Vec<char>)
    ensures
        r@ == join(slices(parts@), sep@),
{
    let mut out: Vec<char> = Vec::new();
    let n: usize = parts.len();
    let ghost all = slices(parts@);
    for i in 0..n
        invariant
            n == parts@.len(),
            all == slices(parts@),
            out@ == join(all.take(i as int), sep@),
    {
        if i > 0 {
            push_chars(&mut out, sep);
        }
        push_chars(&mut out, parts[i]);
        proof {
            let t = all.take(i + 1);
            assert(t.drop_last() =~= all.take(i as int));
            assert(t.last() == parts@[i as int]@);
            if i == 0 {
                assert(out@ =~= parts@[0]@);
            }
        }
    }
    assert(all.take(n as int) =~= all);
    out
}

/// The strings with `sep` between each two of them.
pub fn join_texts(parts: &Vec<String>, sep: &str) -> (r: String)
    ensures
        r@ == join(super::chars::views(parts@), sep@),
{
    let mut out = String::new();
    let n: usize = parts.len();
    let ghost all = super::chars::views(parts@);
    for i in 0..n
        invariant
            n == parts@.len(),
            all == super::chars::views(parts@),
            out@ == join(all.take(i as int), sep@),
    {
        let ghost before = out@;
        if i > 0 {
            vstd::string::StringExecFns::append(&mut out, sep);
        }
        vstd::string::StringExecFns::append(&mut out, parts[i].as_str());
        proof {
            let t = all.take(i + 1);
            assert(t.drop_last() =~= all.take(i as int));
            assert(t.last() == parts@[i as int]@);
            if i == 0 {
                assert(out@ =~= parts@[0]@);
            }
        }
    }
    assert(all.take(n as int) =~= all);
    out
}

/// The text with every occurrence of `from` replaced by `to`.
pub fn replace_in(s: &[char], from: &[char], to: &[char]) -> (r: Vec<char>)
    requires
        from@.len() > 0,
    ensures
        r@ == replaced(s@, from@, to@),
{
    let parts = split_in(s, from);
    join_slices(&parts, to)
}

} // verus!
