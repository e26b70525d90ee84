//! Times of the form `HH:MM:SS,mmm`.

use vstd::prelude::*;

use crate::text::chars::chars_of;
use crate::text::number::{parse_u64, push_padded};
use crate::text::pieces::{find_in, split_in};
use crate::text::{number, pieces};

verus! {

/// A time in milliseconds as hours, minutes, seconds and thousandths.
pub open spec fn timestamp(ms: nat) -> Seq<char> {
    number::padded(ms / 3_600_000, 2) + seq![':'] + number::padded(ms / 60_000 % 60, 2) + seq![
        ':',
    ] + number::padded(ms / 1000 % 60, 2) + seq![','] + number::padded(ms % 1000, 3)
}

/// A time in milliseconds as hours, minutes, seconds and thousandths.
pub fn format_timestamp(ms: u64) -> (r: String)
    ensures
        r@ == timestamp(ms as nat),
{
    let total_sec: u64 = ms / 1000;
    let millis: u64 = ms % 1000;
    let h: u64 = total_sec / 3600;
    let m: u64 = (total_sec % 3600) / 60;
    let s: u64 = total_sec % 60;
    assert(h == ms / 3_600_000);
    assert(m == ms / 60_000 % 60);
    let mut r = String::new();
    push_padded(&mut r, h, 2);
    r.push(':');
    push_padded(&mut r, m, 2);
    r.push(':');
    push_padded(&mut r, s, 2);
    r.push(',');
    push_padded(&mut r, millis, 3);
    assert(r@ =~= timestamp(ms as nat));
    r
}

/// A full stop read as a comma.
pub open spec fn comma_for_stop(c: char) -> char {
    if c == '.' {
        ','
    } else {
        c
    }
}

/// The part of a time that is read: up to the first space, with commas for full stops.
pub open spec fn clock_text(s: Seq<char>) -> Seq<char> {
    pieces::split(s, seq![' '])[0].map_values(|c: char| comma_for_stop(c))
}

/// Hours, minutes and seconds, in milliseconds.
pub open spec fn clock_value(h: Seq<char>, m: Seq<char>, s: Seq<char>, ms: Seq<char>) -> Option<
    nat,
> {
    match (
        number::parsed_u64(h),
        number::parsed_u64(m),
        number::parsed_u64(s),
        number::parsed_u64(ms),
    ) {
        (Some(h), Some(m), Some(s), Some(ms)) => Some(
            ((h * 3600 + m * 60 + s) * 1000 + ms) as nat,
        ),
        _ => None,
    }
}

/// The milliseconds that a time stands for: `H:M:S,t`, or `M:S,t`, and either without `,t`; a full
/// stop may take the place of the comma, and what follows a space is passed over.
pub open spec fn ts_value(s: Seq<char>) -> Option<nat> {
    let clock = clock_text(s);
    let (hms, ms) = match pieces::split_once(clock, seq![',']) {
        Some((a, b)) => (a, b),
        None => (clock, seq!['0']),
    };
    let parts = pieces::split(hms, seq![':']);
    if parts.len() == 3 {
        clock_value(parts[0], parts[1], parts[2], ms)
    } else if parts.len() == 2 {
        clock_value(seq!['0'], parts[0], parts[1], ms)
    } else {
        None
    }
}

fn clock_millis(h: &[char], m: &[char], s: &[char], ms: &[char]) -> (r: Option<u128>)
    ensures
        match r {
            Some(v) => clock_value(h@, m@, s@, ms@) == Some(v as nat),
            None => clock_value(h@, m@, s@, ms@) is None,
        },
{
    let ms: u64 = match parse_u64(ms) {
        Some(v) => v,
        None => return None,
    };
    let h: u64 = match parse_u64(h) {
        Some(v) => v,
        None => return None,
    };
    let m: u64 = match parse_u64(m) {
        Some(v) => v,
        None => return None,
    };
    let s: u64 = match parse_u64(s) {
        Some(v) => v,
        None => return None,
    };
    Some((h as u128 * 3600 + m as u128 * 60 + s as u128) * 1000 + ms as u128)
}

/// The milliseconds that a time stands for, however large.
pub fn ts_millis(s: &[char]) -> (r: Option<u128>)
    ensures
        match r {
            Some(v) => ts_value(s@) == Some(v as nat),
            None => ts_value(s@) is None,
        },
{
    let space: Vec<char> = vec![' '];
    let comma: Vec<char> = vec![','];
    let colon: Vec<char> = vec![':'];
    let zero: Vec<char> = vec!['0'];
    assert(space@ =~= seq![' ']);
    assert(comma@ =~= seq![',']);
    assert(colon@ =~= seq![':']);
    assert(zero@ =~= seq!['0']);
    let words = split_in(s, space.as_slice());
    let word: &[char] = words[0];
    assert(pieces::slices(words@)[0] == word@);
    let n: usize = word.len();
    let mut clock: Vec<char> = Vec::new();
    for i in 0..n
        invariant
            n == word@.len(),
            clock@.len() == i,
            forall|j: int| 0 <= j < i ==> clock@[j] == comma_for_stop(word@[j]),
    {
        if word[i] == '.' {
            clock.push(',');
        } else {
            clock.push(word[i]);
        }
    }
    assert(clock@ =~= clock_text(s@));
    proof {
        pieces::lemma_find(clock@, seq![',']);
    }
    let all: &[char] = clock.as_slice();
    let (hms, ms): (&[char], &[char]) = match find_in(all, comma.as_slice()) {
        Some(i) => (&all[0..i], &all[i + 1..n]),
        None => (all, zero.as_slice()),
    };
    proof {
        match pieces::find(clock@, seq![',']) {
            Some(i) => {
                assert(hms@ =~= clock@.take(i));
                assert(ms@ =~= clock@.skip(i + 1));
            },
            None => {},
        }
    }
    let parts = split_in(hms, colon.as_slice());
    let ghost want = pieces::split(hms@, seq![':']);
    assert(pieces::slices(parts@) == want);
    assert(parts@.len() == want.len());
    assert(forall|j: int| 0 <= j < parts@.len() ==> #[trigger] parts@[j]@ == want[j]) by {
        assert(forall|j: int| 0 <= j < parts@.len() ==> #[trigger] parts@[j]@ == pieces::slices(parts@)[j]);
    }
    if parts.len() == 3 {
        clock_millis(parts[0], parts[1], parts[2], ms)
    } else if parts.len() == 2 {
        clock_millis(zero.as_slice(), parts[0], parts[1], ms)
    } else {
        None
    }
}

/// Reads `HH:MM:SS,mmm` (also with a full stop, and without the hours) as milliseconds.
pub fn parse_ts(s: &str) -> (r: Option<u64>)
    requires
        ts_value(s@) matches Some(v) ==> v <= u64::MAX,
    ensures
        match r {
            Some(v) => ts_value(s@) == Some(v as nat),
            None => ts_value(s@) is None,
        },
{
    let chars = chars_of(s);
    match ts_millis(chars.as_slice()) {
        Some(v) => Some(v as u64),
        None => None,
    }
}

} // verus!
