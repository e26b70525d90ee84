//! What is written to an SRT file can be read back.

use vstd::prelude::*;

use crate::srt::{file, timestamp};
use crate::text::{number, piece_laws, pieces, spaces};
use crate::types::SegmentView;

verus! {

/// Whether every character is a digit, and there is one.
spec fn digits(s: Seq<char>) -> bool {
    s.len() > 0 && number::all_digits(s)
}

/// The pieces of a time, put together.
spec fn assembled(h: Seq<char>, m: Seq<char>, s: Seq<char>, t: Seq<char>) -> Seq<char> {
    h + seq![':'] + m + seq![':'] + s + seq![','] + t
}

proof fn lemma_assembled_chars(h: Seq<char>, m: Seq<char>, s: Seq<char>, t: Seq<char>)
    requires
        digits(h),
        digits(m),
        digits(s),
        digits(t),
    ensures
        clock_like(assembled(h, m, s, t)),
{
    let all = assembled(h, m, s, t);
    assert(all[0] == h[0]);
    assert(all.last() == t[t.len() - 1]);
}

/// The parts of a time are found again.
proof fn lemma_assembled_parts(h: Seq<char>, m: Seq<char>, s: Seq<char>, t: Seq<char>)
    requires
        digits(h),
        digits(m),
        digits(s),
        digits(t),
    ensures
        ({
            let all = assembled(h, m, s, t);
            let hms = h + seq![':'] + m + seq![':'] + s;
            &&& timestamp::clock_text(all) == all
            &&& pieces::split_once(all, seq![',']) == Some((hms, t))
            &&& pieces::split(hms, seq![':']) == seq![h, m, s]
        }),
{
    let all = assembled(h, m, s, t);
    let hms = h + seq![':'] + m + seq![':'] + s;
    lemma_assembled_chars(h, m, s, t);
    assert(piece_laws::lacks(all, ' '));
    piece_laws::lemma_split_lacking(all, ' ');
    assert(timestamp::clock_text(all) =~= all) by {
        assert forall|i: int| 0 <= i < all.len() implies timestamp::comma_for_stop(
            #[trigger] all[i],
        ) == all[i] by {}
    }
    assert(piece_laws::lacks(hms, ','));
    piece_laws::lemma_split_at(hms, ',', t);
    assert(all.take(hms.len() as int) =~= hms);
    assert(all.skip(hms.len() as int + 1) =~= t);
    let ms = m + seq![':'] + s;
    assert(hms =~= h + seq![':'] + ms);
    assert(piece_laws::lacks(h, ':'));
    assert(piece_laws::lacks(m, ':'));
    assert(piece_laws::lacks(s, ':'));
    piece_laws::lemma_split_at(h, ':', ms);
    piece_laws::lemma_split_at(m, ':', s);
    piece_laws::lemma_split_lacking(s, ':');
    assert(seq![h] + (seq![m] + seq![s]) =~= seq![h, m, s]);
}

/// A time put together reads as its parts say.
proof fn lemma_assembled_value(h: Seq<char>, m: Seq<char>, s: Seq<char>, t: Seq<char>)
    requires
        digits(h),
        digits(m),
        digits(s),
        digits(t),
    ensures
        timestamp::ts_value(assembled(h, m, s, t)) == timestamp::clock_value(h, m, s, t),
{
    lemma_assembled_parts(h, m, s, t);
}

/// A padded number reads as itself.
proof fn lemma_padded_read(n: nat, width: nat)
    requires
        n <= u64::MAX,
    ensures
        digits(number::padded(n, width)),
        number::parsed_u64(number::padded(n, width)) == Some(n as u64),
{
    number::lemma_padded(n, width);
    let p = number::padded(n, width);
    assert(number::is_digit(p[0]));
    assert(number::without_plus(p) == p);
}

proof fn lemma_timestamp_digits(ms: nat)
    ensures
        digits(number::padded(ms / 3_600_000, 2)),
        digits(number::padded(ms / 60_000 % 60, 2)),
        digits(number::padded(ms / 1000 % 60, 2)),
        digits(number::padded(ms % 1000, 3)),
{
    number::lemma_padded(ms / 3_600_000, 2);
    number::lemma_padded(ms / 60_000 % 60, 2);
    number::lemma_padded(ms / 1000 % 60, 2);
    number::lemma_padded(ms % 1000, 3);
}

/// Reading a written time gives the time back.
pub proof fn law_timestamp_roundtrip(ms: nat)
    requires
        ms <= u64::MAX,
    ensures
        timestamp::ts_value(timestamp::timestamp(ms)) == Some(ms),
{
    let h = number::padded(ms / 3_600_000, 2);
    let m = number::padded(ms / 60_000 % 60, 2);
    let s = number::padded(ms / 1000 % 60, 2);
    let t = number::padded(ms % 1000, 3);
    assert(timestamp::ts_value(timestamp::timestamp(ms)) == timestamp::clock_value(h, m, s, t)) by {
        lemma_timestamp_digits(ms);
        lemma_assembled_value(h, m, s, t);
    }
    lemma_padded_read(ms / 3_600_000, 2);
    lemma_padded_read(ms / 60_000 % 60, 2);
    lemma_padded_read(ms / 1000 % 60, 2);
    lemma_padded_read(ms % 1000, 3);
    lemma_clock_arithmetic(ms);
}

proof fn lemma_clock_arithmetic(ms: nat)
    ensures
        ((ms / 3_600_000) * 3600 + (ms / 60_000 % 60) * 60 + ms / 1000 % 60) * 1000 + ms % 1000
            == ms,
{
    let x = ms / 1000;
    let y = ms / 60_000;
    assert(y == x / 60);
    assert(ms / 3_600_000 == y / 60);
}

/// A written time is made of digits, colons and a comma.
proof fn lemma_timestamp_chars(ms: nat)
    ensures
        clock_like(timestamp::timestamp(ms)),
{
    lemma_timestamp_digits(ms);
    lemma_assembled_chars(
        number::padded(ms / 3_600_000, 2),
        number::padded(ms / 60_000 % 60, 2),
        number::padded(ms / 1000 % 60, 2),
        number::padded(ms % 1000, 3),
    );
}

/// A text that a file can hold as it is: at least one line, and no line empty or with white space
/// at its ends.
pub open spec fn canonical(text: Seq<char>) -> bool {
    forall|i: int|
        0 <= i < pieces::split(text, seq!['\n']).len() ==> {
            let line = #[trigger] pieces::split(text, seq!['\n'])[i];
            line.len() > 0 && !spaces::is_white(line[0]) && !spaces::is_white(line.last())
        }
}

/// An entry without the empty line after it.
spec fn body(position: nat, s: SegmentView) -> Seq<char> {
    number::decimal(position) + seq!['\n'] + (times(s) + seq!['\n'] + s.text)
}

spec fn times(s: SegmentView) -> Seq<char> {
    timestamp::timestamp(s.start_ms as nat) + " --> "@ + timestamp::timestamp(s.end_ms as nat)
}

/// What comes back for one written subtitle.
pub open spec fn read_back(position: int, s: SegmentView) -> SegmentView {
    SegmentView {
        index: position,
        start_ms: s.start_ms,
        end_ms: if s.end_ms > s.start_ms {
            s.end_ms
        } else {
            s.start_ms + 1
        },
        text: s.text,
    }
}

spec fn writable(s: SegmentView) -> bool {
    &&& 0 <= s.start_ms <= u64::MAX
    &&& 0 <= s.end_ms <= u64::MAX
    &&& canonical(s.text)
}

/// Facts about the first and the last line of a text.
proof fn lemma_split_ends(s: Seq<char>, c: char)
    ensures
        pieces::split(s, seq![c]).len() > 0,
        ({
            let first = pieces::split(s, seq![c])[0];
            first.len() > 0 ==> s.len() > 0 && first[0] == s[0]
        }),
        ({
            let last = pieces::split(s, seq![c]).last();
            last.len() > 0 ==> s.len() > 0 && last.last() == s.last()
        }),
    decreases s.len(),
{
    let p = seq![c];
    pieces::lemma_find(s, p);
    match pieces::find(s, p) {
        Some(i) => {
            let rest = s.skip(i + 1);
            lemma_split_ends(rest, c);
            let tail = pieces::split(rest, p);
            let all = pieces::split(s, p);
            assert(all == seq![s.take(i)] + tail);
            assert(all.last() == tail.last());
        },
        None => {},
    }
}

/// In a canonical text a line break stands between two characters that are not white space.
proof fn lemma_canonical_breaks(s: Seq<char>)
    requires
        canonical(s),
    ensures
        s.len() > 0,
        !spaces::is_white(s[0]),
        !spaces::is_white(s.last()),
        forall|i: int|
            0 <= i < s.len() && #[trigger] s[i] == '\n' ==> 0 < i < s.len() - 1
                && !spaces::is_white(s[i - 1]) && !spaces::is_white(s[i + 1]),
    decreases s.len(),
{
    let p = seq!['\n'];
    lemma_split_ends(s, '\n');
    pieces::lemma_find(s, p);
    match pieces::find(s, p) {
        Some(k) => {
            let head = s.take(k);
            let rest = s.skip(k + 1);
            let tail = pieces::split(rest, p);
            let all = pieces::split(s, p);
            assert(all == seq![head] + tail);
            assert forall|i: int| 0 <= i < tail.len() implies {
                let line = #[trigger] tail[i];
                line.len() > 0 && !spaces::is_white(line[0]) && !spaces::is_white(line.last())
            } by {
                assert(all[i + 1] == tail[i]);
            }
            lemma_canonical_breaks(rest);
            assert(all[0] == head);
            assert(head.last() == s[k - 1]);
            assert(rest[0] == s[k + 1]);
            assert forall|i: int| 0 <= i < s.len() && #[trigger] s[i] == '\n' implies 0 < i
                < s.len() - 1 && !spaces::is_white(s[i - 1]) && !spaces::is_white(s[i + 1]) by {
                if i < k {
                    assert(!pieces::starts_with(s.skip(i), p));
                    assert(s.skip(i).take(1) =~= seq![s[i]]);
                } else if i > k {
                    assert(rest[i - k - 1] == s[i]);
                    assert(rest[i - k - 2] == s[i - 1]);
                    assert(rest[i - k] == s[i + 1]);
                }
            }
        },
        None => {
            assert(pieces::split(s, p)[0] == s);
            assert forall|i: int| 0 <= i < s.len() implies #[trigger] s[i] != '\n' by {
                assert(!pieces::starts_with(s.skip(i), p));
                assert(s.skip(i).take(1) =~= seq![s[i]]);
            }
        },
    }
}

/// Two texts with an arrow between them.
proof fn lemma_arrow_line(a: Seq<char>, b: Seq<char>)
    requires
        a.len() > 0,
        b.len() > 0,
        number::is_digit(a[0]),
        number::is_digit(a.last()),
        number::is_digit(b[0]),
        number::is_digit(b.last()),
        piece_laws::lacks(a, '-'),
    ensures
        ({
            let line = a + " --> "@ + b;
            &&& spaces::trim_end(line) == line
            &&& pieces::find(line, file::arrow()) is Some
            &&& pieces::split_once(line, file::arrow()) == Some((a + seq![' '], seq![' '] + b))
            &&& spaces::trim(a + seq![' ']) == a
            &&& spaces::trim(seq![' '] + b) == b
        }),
{
    reveal_strlit(" --> ");
    let line = a + " --> "@ + b;
    let at = a.len() as int + 1;
    assert(line.last() == b.last());
    assert(line.skip(at).take(3) =~= file::arrow());
    assert forall|j: int| 0 <= j < at implies !#[trigger] pieces::starts_with(
        line.skip(j),
        file::arrow(),
    ) by {
        if pieces::starts_with(line.skip(j), file::arrow()) {
            assert(line.skip(j).take(3)[0] == line[j]);
            if j < a.len() {
                assert(line[j] == a[j]);
            }
        }
    }
    pieces::lemma_find_is(line, file::arrow(), at);
    let left = a + seq![' '];
    let right = seq![' '] + b;
    assert(line.take(at) =~= left);
    assert(line.skip(at + 3) =~= right);
    assert(left.drop_last() =~= a);
    assert(right.drop_first() =~= b);
    assert(left[0] == a[0]);
    assert(spaces::trim_start(left) == left);
    assert(spaces::trim_end(left) == spaces::trim_end(a));
    assert(spaces::trim_start(right) == spaces::trim_start(b));
}

/// A text of digits, colons and commas that starts and ends with a digit.
spec fn clock_like(s: Seq<char>) -> bool {
    &&& s.len() > 0
    &&& number::is_digit(s[0])
    &&& number::is_digit(s.last())
    &&& forall|i: int|
        0 <= i < s.len() ==> {
            let c = #[trigger] s[i];
            number::is_digit(c) || c == ':' || c == ','
        }
}

proof fn lemma_clock_line(a: Seq<char>, b: Seq<char>)
    requires
        clock_like(a),
        clock_like(b),
        timestamp::ts_value(a) is Some,
        timestamp::ts_value(b) is Some,
    ensures
        ({
            let line = a + " --> "@ + b;
            &&& line.len() > 0
            &&& piece_laws::lacks(line, '\n')
            &&& piece_laws::lacks(line, '\r')
            &&& spaces::trim_end(line) == line
            &&& pieces::find(line, file::arrow()) is Some
            &&& file::line_times(line) == Some(
                (timestamp::ts_value(a).unwrap(), timestamp::ts_value(b).unwrap()),
            )
        }),
{
    lemma_arrow_line(a, b);
    reveal_strlit(" --> ");
    lemma_line_chars(a, " --> "@, b);
}

/// The line with the times.
proof fn lemma_times_line(s: SegmentView)
    requires
        writable(s),
    ensures
        times(s).len() > 0,
        piece_laws::lacks(times(s), '\n'),
        piece_laws::lacks(times(s), '\r'),
        spaces::trim_end(times(s)) == times(s),
        pieces::find(times(s), file::arrow()) is Some,
        file::line_times(times(s)) == Some((s.start_ms as nat, s.end_ms as nat)),
{
    let a = timestamp::timestamp(s.start_ms as nat);
    let b = timestamp::timestamp(s.end_ms as nat);
    assert(clock_like(a)) by {
        lemma_timestamp_chars(s.start_ms as nat);
    }
    assert(clock_like(b)) by {
        lemma_timestamp_chars(s.end_ms as nat);
    }
    assert(timestamp::ts_value(a) == Some(s.start_ms as nat)) by {
        law_timestamp_roundtrip(s.start_ms as nat);
    }
    assert(timestamp::ts_value(b) == Some(s.end_ms as nat)) by {
        law_timestamp_roundtrip(s.end_ms as nat);
    }
    lemma_clock_line(a, b);
}

proof fn lemma_line_chars(a: Seq<char>, mid: Seq<char>, b: Seq<char>)
    requires
        piece_laws::lacks(a, '\n') && piece_laws::lacks(a, '\r'),
        piece_laws::lacks(mid, '\n') && piece_laws::lacks(mid, '\r'),
        piece_laws::lacks(b, '\n') && piece_laws::lacks(b, '\r'),
    ensures
        piece_laws::lacks(a + mid + b, '\n') && piece_laws::lacks(a + mid + b, '\r'),
{
}

/// Lines that are free of white space at their ends are left alone.
proof fn lemma_clean_lines(lines: Seq<Seq<char>>)
    requires
        forall|i: int|
            0 <= i < lines.len() ==> {
                let line = #[trigger] lines[i];
                line.len() > 0 && !spaces::is_white(line[0]) && !spaces::is_white(line.last())
            },
    ensures
        file::clean_lines(lines.map_values(|l: Seq<char>| spaces::trim_end(l))) == lines,
    decreases lines.len(),
{
    let trimmed = lines.map_values(|l: Seq<char>| spaces::trim_end(l));
    if lines.len() == 0 {
        assert(file::clean_lines(trimmed) =~= lines);
    } else {
        let rest = lines.drop_last();
        lemma_clean_lines(rest);
        assert(trimmed.drop_last() =~= rest.map_values(|l: Seq<char>| spaces::trim_end(l)));
        spaces::lemma_trim_fixed(lines.last());
        assert(file::clean_lines(trimmed) =~= lines);
    }
}

/// The lines of an entry: one without an arrow, one with the times, and those of the text.
proof fn lemma_entry_lines(d: Seq<char>, t: Seq<char>, text: Seq<char>)
    requires
        piece_laws::lacks(d, '\n'),
        piece_laws::lacks(d, '-'),
        spaces::trim_end(d) == d,
        piece_laws::lacks(t, '\n'),
        spaces::trim_end(t) == t,
        pieces::find(t, file::arrow()) is Some,
        canonical(text),
    ensures
        ({
            let lines = file::block_lines(d + seq!['\n'] + (t + seq!['\n'] + text));
            &&& file::arrow_line(lines) == Some(1int)
            &&& lines.len() >= 2
            &&& lines[1] == t
            &&& file::clean_lines(lines.skip(2)) == pieces::split(text, seq!['\n'])
        }),
{
    let p = seq!['\n'];
    let all = d + p + (t + p + text);
    let text_lines = pieces::split(text, p);
    piece_laws::lemma_split_at(d, '\n', t + p + text);
    piece_laws::lemma_split_at(t, '\n', text);
    let lines = pieces::split(all, p);
    assert(lines =~= seq![d, t] + text_lines);
    let trimmed = file::block_lines(all);
    assert(trimmed[0] == d);
    assert(trimmed[1] == t);
    assert(pieces::find(d, file::arrow()) is None) by {
        assert forall|j: int| 0 <= j <= d.len() implies !#[trigger] pieces::starts_with(
            d.skip(j),
            file::arrow(),
        ) by {
            if pieces::starts_with(d.skip(j), file::arrow()) {
                assert(d.skip(j).take(3)[0] == d[j]);
            }
        }
        pieces::lemma_find_none(d, file::arrow());
    }
    assert(trimmed.drop_first()[0] == t);
    assert(file::arrow_line(trimmed.drop_first()) == Some(0int));
    assert(trimmed.skip(2) =~= text_lines.map_values(|l: Seq<char>| spaces::trim_end(l)));
    lemma_clean_lines(text_lines);
}

/// One written entry says what was written.
proof fn lemma_body_cue(position: nat, s: SegmentView)
    requires
        writable(s),
    ensures
        file::block_cue(body(position, s)) == Some(
            file::BlockView {
                start_ms: s.start_ms as nat,
                end_ms: read_back(0, s).end_ms as nat,
                text: s.text,
            },
        ),
{
    reveal(file::block_cue);
    let d = number::decimal(position);
    number::lemma_decimal(position);
    assert(number::is_digit(d[d.len() - 1]));
    lemma_times_line(s);
    lemma_entry_lines(d, times(s), s.text);
    lemma_canonical_breaks(s.text);
    piece_laws::law_split_join(s.text, seq!['\n']);
}

spec fn stacked(bodies: Seq<Seq<char>>) -> Seq<char>
    decreases bodies.len(),
{
    if bodies.len() == 0 {
        Seq::empty()
    } else {
        bodies[0] + seq!['\n', '\n'] + stacked(bodies.drop_first())
    }
}

proof fn lemma_stacked_push(bodies: Seq<Seq<char>>, last: Seq<char>)
    ensures
        stacked(bodies.push(last)) == stacked(bodies) + (last + seq!['\n', '\n']),
    decreases bodies.len(),
{
    let all = bodies.push(last);
    if bodies.len() == 0 {
        assert(all.drop_first() =~= Seq::<Seq<char>>::empty());
        assert(stacked(all.drop_first()) =~= Seq::<char>::empty());
        assert(stacked(all) =~= stacked(bodies) + (last + seq!['\n', '\n']));
    } else {
        assert(all.drop_first() =~= bodies.drop_first().push(last));
        lemma_stacked_push(bodies.drop_first(), last);
        assert(stacked(all) =~= stacked(bodies) + (last + seq!['\n', '\n']));
    }
}

spec fn bodies(list: Seq<SegmentView>) -> Seq<Seq<char>> {
    Seq::new(list.len(), |i: int| body((i + 1) as nat, list[i]))
}

proof fn lemma_bodies_last(list: Seq<SegmentView>)
    requires
        list.len() > 0,
    ensures
        bodies(list) == bodies(list.drop_last()).push(body(list.len(), list.last())),
{
    let all = bodies(list);
    let front = bodies(list.drop_last());
    let b = body(list.len(), list.last());
    assert forall|i: int| 0 <= i < all.len() implies all[i] == front.push(b)[i] by {
        if i < front.len() {
            assert(list.drop_last()[i] == list[i]);
        }
    }
    assert(all =~= front.push(b));
}

proof fn lemma_rendered_is_stacked(list: Seq<SegmentView>)
    requires
        forall|i: int| 0 <= i < list.len() ==> writable(#[trigger] list[i]),
    ensures
        file::rendered(list) == stacked(bodies(list)),
    decreases list.len(),
{
    if list.len() == 0 {
        assert(bodies(list) =~= Seq::<Seq<char>>::empty());
    } else {
        let front = list.drop_last();
        let s = list.last();
        assert(writable(list[list.len() - 1]));
        assert forall|i: int| 0 <= i < front.len() implies writable(#[trigger] front[i]) by {
            assert(front[i] == list[i]);
        }
        lemma_rendered_is_stacked(front);
        let b = body(list.len(), s);
        lemma_bodies_last(list);
        lemma_stacked_push(bodies(front), b);
        lemma_entry(list.len(), s);
    }
}

proof fn lemma_entry(position: nat, s: SegmentView)
    requires
        writable(s),
    ensures
        file::entry(position, s) == body(position, s) + seq!['\n', '\n'],
{
    assert(spaces::trim(s.text) == s.text) by {
        lemma_canonical_breaks(s.text);
        spaces::lemma_trim_fixed(s.text);
    }
    let d = number::decimal(position);
    let a = timestamp::timestamp(s.start_ms as nat);
    let b = timestamp::timestamp(s.end_ms as nat);
    let n = seq!['\n'];
    let e = d + n + a + " --> "@ + b + n + s.text;
    assert(d + n + a + " --> "@ + b =~= d + n + times(s)) by {
        assert(d + n + a + " --> "@ =~= d + n + (a + " --> "@));
        assert(d + n + (a + " --> "@) + b =~= d + n + (a + " --> "@ + b));
    }
    assert(d + n + times(s) + n + s.text =~= body(position, s)) by {
        assert(d + n + times(s) + n =~= d + n + (times(s) + n));
        assert(d + n + (times(s) + n) + s.text =~= d + n + (times(s) + n + s.text));
    }
}

/// An entry has no empty line inside, no carriage return before a line break, and ends in text.
proof fn lemma_body_chars(position: nat, s: SegmentView)
    requires
        writable(s),
    ensures
        ({
            let b = body(position, s);
            &&& b.len() > 0
            &&& !spaces::is_white(b.last())
            &&& piece_laws::lacks_pair(b, '\n', '\n')
            &&& piece_laws::lacks_pair(b, '\r', '\n')
        }),
{
    let d = number::decimal(position);
    number::lemma_decimal(position);
    lemma_times_line(s);
    lemma_canonical_breaks(s.text);
    let t = times(s);
    let b = body(position, s);
    let p = d.len() as int;
    let q = p + 1 + t.len();
    assert(b.last() == s.text.last());
    assert forall|i: int| 0 <= i < b.len() - 1 implies !(#[trigger] b[i] == '\n' && b[i + 1]
        == '\n') && !(b[i] == '\r' && b[i + 1] == '\n') by {
        if i < p {
            assert(b[i] == d[i]);
        } else if i == p {
            assert(b[i + 1] == t[0]);
        } else if i < q {
            assert(b[i] == t[i - p - 1]);
        } else if i == q {
            assert(b[i + 1] == s.text[0]);
        } else {
            let k = i - q - 1;
            assert(b[i] == s.text[k]);
            assert(b[i + 1] == s.text[k + 1]);
        }
    }
}

proof fn lemma_stacked(list: Seq<Seq<char>>)
    requires
        forall|i: int|
            0 <= i < list.len() ==> {
                let b = #[trigger] list[i];
                &&& b.len() > 0
                &&& !spaces::is_white(b.last())
                &&& piece_laws::lacks_pair(b, '\n', '\n')
                &&& piece_laws::lacks_pair(b, '\r', '\n')
            },
    ensures
        piece_laws::lacks_pair(stacked(list), '\r', '\n'),
        pieces::split(stacked(list), seq!['\n', '\n']) == list.push(Seq::empty()),
    decreases list.len(),
{
    let p = seq!['\n', '\n'];
    if list.len() == 0 {
        piece_laws::lemma_split_lacking_pair(stacked(list), '\n', '\n');
        assert(pieces::split(stacked(list), p) =~= list.push(Seq::empty()));
    } else {
        let rest = list.drop_first();
        assert forall|i: int| 0 <= i < rest.len() implies {
            let b = #[trigger] rest[i];
            &&& b.len() > 0
            &&& !spaces::is_white(b.last())
            &&& piece_laws::lacks_pair(b, '\n', '\n')
            &&& piece_laws::lacks_pair(b, '\r', '\n')
        } by {
            assert(rest[i] == list[i + 1]);
        }
        lemma_stacked(rest);
        let b = list[0];
        let tail = stacked(rest);
        let all = b + p + tail;
        piece_laws::lemma_split_at_pair(b, '\n', tail);
        assert(seq![b] + rest.push(Seq::empty()) =~= list.push(Seq::empty()));
        assert forall|i: int| 0 <= i < all.len() - 1 implies !(#[trigger] all[i] == '\r' && all[i
            + 1] == '\n') by {
            if i < b.len() - 1 {
                assert(all[i] == b[i] && all[i + 1] == b[i + 1]);
            } else if i == b.len() - 1 {
                assert(all[i] == b.last());
            } else if i >= b.len() + 2 {
                let k = i - b.len() - 2;
                assert(all[i] == tail[k] && all[i + 1] == tail[k + 1]);
            }
        }
    }
}

proof fn lemma_block_cues(list: Seq<SegmentView>)
    requires
        forall|i: int| 0 <= i < list.len() ==> writable(#[trigger] list[i]),
    ensures
        file::block_cues(bodies(list)) == Seq::new(
            list.len(),
            |i: int| read_back(i + 1, list[i]),
        ),
    decreases list.len(),
{
    let want = Seq::new(list.len(), |i: int| read_back(i + 1, list[i]));
    let all = bodies(list);
    if list.len() == 0 {
        assert(file::block_cues(all) =~= want);
    } else {
        let front = list.drop_last();
        assert forall|i: int| 0 <= i < front.len() implies writable(#[trigger] front[i]) by {
            assert(front[i] == list[i]);
        }
        lemma_block_cues(front);
        lemma_bodies_last(list);
        assert(all.drop_last() =~= bodies(front));
        assert(writable(list[list.len() - 1]));
        lemma_body_cue(list.len(), list.last());
        assert(file::block_cues(all) =~= want);
    }
}

/// Writing subtitles and reading the file back gives the same subtitles in the same order: the same
/// times and the same texts, numbered from one. A subtitle that does not end after it starts comes
/// back one millisecond long. The texts are those that a file can hold as they are.
pub proof fn law_srt_roundtrip(list: Seq<SegmentView>)
    requires
        forall|i: int|
            0 <= i < list.len() ==> {
                let s = #[trigger] list[i];
                0 <= s.start_ms <= u64::MAX && 0 <= s.end_ms <= u64::MAX && canonical(s.text)
            },
    ensures
        file::parsed(file::rendered(list)) == Seq::new(
            list.len(),
            |i: int| read_back(i + 1, list[i]),
        ),
        (forall|i: int| 0 <= i < list.len() ==> (#[trigger] list[i]).start_ms < u64::MAX)
            ==> file::times_fit(file::rendered(list)),
{
    assert forall|i: int| 0 <= i < list.len() implies writable(#[trigger] list[i]) by {}
    lemma_rendered_is_stacked(list);
    let text = file::rendered(list);
    let all = bodies(list);
    assert forall|i: int| 0 <= i < all.len() implies {
        let b = #[trigger] all[i];
        &&& b.len() > 0
        &&& !spaces::is_white(b.last())
        &&& piece_laws::lacks_pair(b, '\n', '\n')
        &&& piece_laws::lacks_pair(b, '\r', '\n')
    } by {
        assert(writable(list[i]));
        lemma_body_chars((i + 1) as nat, list[i]);
    }
    lemma_stacked(all);
    piece_laws::lemma_split_lacking_pair(text, '\r', '\n');
    assert(pieces::replaced(text, seq!['\r', '\n'], seq!['\n']) == text);
    let got = file::blocks(text);
    assert(got == all.push(Seq::empty()));
    assert(got.drop_last() =~= all);
    lemma_empty_block();
    lemma_block_cues(list);
    if forall|i: int| 0 <= i < list.len() ==> (#[trigger] list[i]).start_ms < u64::MAX {
        assert forall|i: int| 0 <= i < got.len() implies (file::block_cue(
            #[trigger] got[i],
        ) matches Some(b) ==> b.end_ms <= u64::MAX) by {
            if i < all.len() {
                assert(writable(list[i]));
                assert(got[i] == body((i + 1) as nat, list[i]));
                lemma_body_cue((i + 1) as nat, list[i]);
            } else {
                assert(got[i] == Seq::<char>::empty());
            }
        }
    }
}

proof fn lemma_empty_block()
    ensures
        file::block_cue(Seq::<char>::empty()) is None,
{
    reveal(file::block_cue);
    let e = Seq::<char>::empty();
    piece_laws::lemma_split_lacking(e, '\n');
    let lines = file::block_lines(e);
    assert(lines.len() == 1);
    assert(lines[0] == e);
    assert(e.skip(0) =~= e);
    assert(pieces::find(e, file::arrow()) is None);
    assert(lines.drop_first().len() == 0);
    assert(file::arrow_line(lines.drop_first()) is None);
}

} // verus!
