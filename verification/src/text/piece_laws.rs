//! Facts about splitting and joining.

use vstd::prelude::*;

use crate::text::pieces;

verus! {

/// No position of `s` holds `c`.
pub open spec fn lacks(s: Seq<char>, c: char) -> bool {
    forall|i: int| 0 <= i < s.len() ==> #[trigger] s[i] != c
}

/// Putting a first part in front of a non-empty list of parts.
pub proof fn lemma_join_cons(first: Seq<char>, rest: Seq<Seq<char>>, sep: Seq<char>)
    requires
        rest.len() > 0,
    ensures
        pieces::join(seq![first] + rest, sep) == first + sep + pieces::join(rest, sep),
    decreases rest.len(),
{
    let all = seq![first] + rest;
    assert(all.drop_last() =~= seq![first] + rest.drop_last());
    assert(all.last() == rest.last());
    if rest.len() == 1 {
        assert(all.drop_last() =~= seq![first]);
        assert(pieces::join(seq![first], sep) == first);
        assert(pieces::join(rest, sep) == rest[0]);
    } else {
        lemma_join_cons(first, rest.drop_last(), sep);
        let inner = pieces::join(rest.drop_last(), sep);
        assert(first + sep + inner + sep + rest.last() =~= first + sep + (inner + sep
            + rest.last()));
    }
}

/// Joining the stretches between the occurrences of a separator with that separator gives the text
/// back.
pub proof fn law_split_join(s: Seq<char>, p: Seq<char>)
    ensures
        pieces::split(s, p).len() > 0,
        pieces::join(pieces::split(s, p), p) == s,
    decreases s.len(),
{
    pieces::lemma_find(s, p);
    match pieces::find(s, p) {
        Some(i) => {
            if p.len() > 0 {
                let rest = s.skip((i + p.len()) as int);
                law_split_join(rest, p);
                lemma_join_cons(s.take(i), pieces::split(rest, p), p);
                assert(s.take(i) + p + rest =~= s) by {
                    assert(s.subrange(i, i + p.len()) == p);
                    assert(s.take(i) + s.subrange(i, i + p.len()) + rest =~= s);
                }
            }
        },
        None => {},
    }
}

/// A text without the separator is its own only stretch.
pub proof fn lemma_split_lacking(s: Seq<char>, c: char)
    requires
        lacks(s, c),
    ensures
        pieces::find(s, seq![c]) is None,
        pieces::split(s, seq![c]) == seq![s],
{
    let p = seq![c];
    assert forall|j: int| 0 <= j <= s.len() implies !#[trigger] pieces::starts_with(
        s.skip(j),
        p,
    ) by {
        if pieces::starts_with(s.skip(j), p) {
            assert(s.skip(j).take(1)[0] == c);
            assert(s[j] == c);
        }
    }
    pieces::lemma_find_none(s, p);
}

/// The first stretch ends at the first separator.
pub proof fn lemma_split_at(a: Seq<char>, c: char, b: Seq<char>)
    requires
        lacks(a, c),
    ensures
        pieces::find(a + seq![c] + b, seq![c]) == Some(a.len() as int),
        pieces::split(a + seq![c] + b, seq![c]) == seq![a] + pieces::split(b, seq![c]),
{
    let p = seq![c];
    let s = a + p + b;
    assert forall|j: int| 0 <= j < a.len() implies !#[trigger] pieces::starts_with(
        s.skip(j),
        p,
    ) by {
        if pieces::starts_with(s.skip(j), p) {
            assert(s.skip(j).take(1)[0] == c);
            assert(a[j] == s[j]);
        }
    }
    assert(s.skip(a.len() as int).take(1) =~= p);
    pieces::lemma_find_is(s, p, a.len() as int);
    assert(s.take(a.len() as int) =~= a);
    assert(s.skip(a.len() as int + 1) =~= b);
}

/// Splitting what was joined gives the parts back, if no part holds the separator.
pub proof fn law_join_split(parts: Seq<Seq<char>>, c: char)
    requires
        parts.len() > 0,
        forall|i: int| 0 <= i < parts.len() ==> lacks(#[trigger] parts[i], c),
    ensures
        pieces::split(pieces::join(parts, seq![c]), seq![c]) == parts,
    decreases parts.len(),
{
    let first = parts[0];
    if parts.len() == 1 {
        assert(parts =~= seq![first]);
        lemma_split_lacking(first, c);
    } else {
        let rest = parts.drop_first();
        assert forall|i: int| 0 <= i < rest.len() implies lacks(#[trigger] rest[i], c) by {
            assert(rest[i] == parts[i + 1]);
        }
        law_join_split(rest, c);
        assert(parts =~= seq![first] + rest);
        lemma_join_cons(first, rest, seq![c]);
        lemma_split_at(first, c, pieces::join(rest, seq![c]));
    }
}

/// No two neighbours of `s` are `c` and `d`.
pub open spec fn lacks_pair(s: Seq<char>, c: char, d: char) -> bool {
    forall|i: int| 0 <= i < s.len() - 1 ==> !(#[trigger] s[i] == c && s[i + 1] == d)
}

/// A text without the pair is its own only stretch.
pub proof fn lemma_split_lacking_pair(s: Seq<char>, c: char, d: char)
    requires
        lacks_pair(s, c, d),
    ensures
        pieces::split(s, seq![c, d]) == seq![s],
{
    let p = seq![c, d];
    assert forall|j: int| 0 <= j <= s.len() implies !#[trigger] pieces::starts_with(
        s.skip(j),
        p,
    ) by {
        if pieces::starts_with(s.skip(j), p) {
            assert(s.skip(j).take(2)[0] == c);
            assert(s.skip(j).take(2)[1] == d);
            assert(s[j] == c && s[j + 1] == d);
        }
    }
    pieces::lemma_find_none(s, p);
}

/// The first stretch ends at the first pair.
pub proof fn lemma_split_at_pair(a: Seq<char>, c: char, b: Seq<char>)
    requires
        lacks_pair(a, c, c),
        a.len() > 0 ==> a.last() != c,
    ensures
        pieces::split(a + seq![c, c] + b, seq![c, c]) == seq![a] + pieces::split(b, seq![c, c]),
{
    let p = seq![c, c];
    let s = a + p + b;
    assert forall|j: int| 0 <= j < a.len() implies !#[trigger] pieces::starts_with(
        s.skip(j),
        p,
    ) by {
        if pieces::starts_with(s.skip(j), p) {
            assert(s.skip(j).take(2)[0] == c);
            assert(s.skip(j).take(2)[1] == c);
            assert(a[j] == s[j]);
            if j + 1 < a.len() {
                assert(a[j + 1] == s[j + 1]);
            }
        }
    }
    assert(s.skip(a.len() as int).take(2) =~= p);
    pieces::lemma_find_is(s, p, a.len() as int);
    assert(s.take(a.len() as int) =~= a);
    assert(s.skip(a.len() as int + 2) =~= b);
}

/// Where two stretches come from, their characters do too.
pub proof fn lemma_split_lines(s: Seq<char>, c: char)
    ensures
        forall|i: int|
            0 <= i < pieces::split(s, seq![c]).len() ==> lacks(
                #[trigger] pieces::split(s, seq![c])[i],
                c,
            ),
    decreases s.len(),
{
    let p = seq![c];
    pieces::lemma_find(s, p);
    match pieces::find(s, p) {
        Some(i) => {
            let rest = s.skip(i + 1);
            lemma_split_lines(rest, c);
            let tail = pieces::split(rest, p);
            let all = pieces::split(s, p);
            assert(all == seq![s.take(i)] + tail);
            assert forall|k: int| 0 <= k < all.len() implies lacks(#[trigger] all[k], c) by {
                if k > 0 {
                    assert(all[k] == tail[k - 1]);
                } else {
                    assert forall|j: int| 0 <= j < all[0].len() implies #[trigger] all[0][j]
                        != c by {
                        assert(!pieces::starts_with(s.skip(j), p));
                        assert(s.skip(j).take(1) =~= seq![s[j]]);
                    }
                }
            }
        },
        None => {
            assert forall|j: int| 0 <= j < s.len() implies #[trigger] s[j] != c by {
                assert(!pieces::starts_with(s.skip(j), p));
                assert(s.skip(j).take(1) =~= seq![s[j]]);
            }
        },
    }
}

} // verus!
