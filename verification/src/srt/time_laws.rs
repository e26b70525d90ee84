//! How times are written and read.

use vstd::prelude::*;

use crate::srt::timestamp;
use crate::text::{number, piece_laws, pieces};

verus! {

/// The digit at a position of a text, as a number.
pub open spec fn digit_at(s: Seq<char>, i: int) -> int {
    s[i] as int - '0' as int
}

proof fn lemma_two_digits(n: nat)
    requires
        n < 100,
    ensures
        number::padded(n, 2).len() == 2,
        digit_at(number::padded(n, 2), 0) == n / 10,
        digit_at(number::padded(n, 2), 1) == n % 10,
{
    let d = number::decimal(n);
    let p = number::padded(n, 2);
    if n < 10 {
        assert(d =~= seq![number::digit_char(n)]);
        assert(p =~= seq!['0', number::digit_char(n)]);
    } else {
        let h = n / 10;
        assert(number::decimal(h) =~= seq![number::digit_char(h)]);
        assert(d =~= seq![number::digit_char(h), number::digit_char(n % 10)]);
    }
}

proof fn lemma_three_digits(n: nat)
    requires
        n < 1000,
    ensures
        number::padded(n, 3).len() == 3,
        digit_at(number::padded(n, 3), 0) == n / 100,
        digit_at(number::padded(n, 3), 1) == n / 10 % 10,
        digit_at(number::padded(n, 3), 2) == n % 10,
{
    let d = number::decimal(n);
    let p = number::padded(n, 3);
    if n < 10 {
        assert(d =~= seq![number::digit_char(n)]);
        assert(p =~= seq!['0', '0', number::digit_char(n)]);
    } else {
        let t = n / 10;
        if t < 10 {
            assert(number::decimal(t) =~= seq![number::digit_char(t)]);
            assert(d =~= seq![number::digit_char(t), number::digit_char(n % 10)]);
            assert(p =~= seq!['0', number::digit_char(t), number::digit_char(n % 10)]);
        } else {
            let h = t / 10;
            assert(h == n / 100);
            assert(number::decimal(h) =~= seq![number::digit_char(h)]);
            assert(number::decimal(t) =~= seq![number::digit_char(h), number::digit_char(t % 10)]);
            assert(d =~= seq![
                number::digit_char(h),
                number::digit_char(t % 10),
                number::digit_char(n % 10),
            ]);
        }
    }
}

/// A time below a hundred hours is written in twelve characters: two digits each for the hours, the
/// minutes and the seconds, with colons between them, a comma, and three digits for the thousandths.
/// Minutes and seconds are below sixty, and together they are the time.
pub proof fn law_times_are_written_in_twelve_characters(ms: nat)
    requires
        ms < 360_000_000,
    ensures
        ({
            let t = timestamp::timestamp(ms);
            let h = digit_at(t, 0) * 10 + digit_at(t, 1);
            let m = digit_at(t, 3) * 10 + digit_at(t, 4);
            let s = digit_at(t, 6) * 10 + digit_at(t, 7);
            let rest = digit_at(t, 9) * 100 + digit_at(t, 10) * 10 + digit_at(t, 11);
            &&& t.len() == 12
            &&& t[2] == ':' && t[5] == ':' && t[8] == ','
            &&& 0 <= digit_at(t, 0) < 10 && 0 <= digit_at(t, 1) < 10
            &&& 0 <= digit_at(t, 3) < 6 && 0 <= digit_at(t, 4) < 10
            &&& 0 <= digit_at(t, 6) < 6 && 0 <= digit_at(t, 7) < 10
            &&& 0 <= digit_at(t, 9) < 10 && 0 <= digit_at(t, 10) < 10 && 0 <= digit_at(t, 11) < 10
            &&& h * 3_600_000 + m * 60_000 + s * 1000 + rest == ms
        }),
{
    let h = number::padded(ms / 3_600_000, 2);
    let m = number::padded(ms / 60_000 % 60, 2);
    let s = number::padded(ms / 1000 % 60, 2);
    let r = number::padded(ms % 1000, 3);
    lemma_two_digits(ms / 3_600_000);
    lemma_two_digits(ms / 60_000 % 60);
    lemma_two_digits(ms / 1000 % 60);
    lemma_three_digits(ms % 1000);
    let t = timestamp::timestamp(ms);
    assert(t.len() == 12);
    assert(t[0] == h[0] && t[1] == h[1]);
    assert(t[3] == m[0] && t[4] == m[1]);
    assert(t[6] == s[0] && t[7] == s[1]);
    assert(t[9] == r[0] && t[10] == r[1] && t[11] == r[2]);
    let x = ms / 1000;
    let y = ms / 60_000;
    assert(y == x / 60);
    assert(ms / 3_600_000 == y / 60);
}

/// From a hundred hours on, only the hours take more room; the rest of the time is written as below.
pub proof fn law_long_times_have_more_hours(ms: nat)
    requires
        ms >= 360_000_000,
    ensures
        timestamp::timestamp(ms) == number::decimal(ms / 3_600_000) + timestamp::timestamp(
            ms % 3_600_000,
        ).skip(2),
{
    let low = ms % 3_600_000;
    let h = ms / 3_600_000;
    assert(low / 3_600_000 == 0);
    assert(low / 60_000 % 60 == ms / 60_000 % 60) by {
        assert(ms == h * 3_600_000 + low);
        assert(ms / 60_000 == h * 60 + low / 60_000);
    }
    assert(low / 1000 % 60 == ms / 1000 % 60) by {
        assert(ms == h * 3_600_000 + low);
        assert(ms / 1000 == h * 3600 + low / 1000);
        assert(h * 3600 == (h * 60) * 60);
    }
    assert(low % 1000 == ms % 1000) by {
        assert(ms == (h * 3600) * 1000 + low);
    }
    lemma_two_digits(0);
    let d = number::decimal(h);
    assert(d.len() >= 2) by {
        assert(h >= 10);
        number::lemma_decimal(h / 10);
    }
    assert(number::padded(h, 2) == d);
    assert(timestamp::timestamp(ms) =~= d + timestamp::timestamp(low).skip(2));
}

/// A full stop in a time is read as a comma, and what follows a space is passed over.
pub proof fn law_times_are_read_loosely(s: Seq<char>, rest: Seq<char>)
    requires
        piece_laws::lacks(s, ' '),
    ensures
        timestamp::ts_value(s + seq![' '] + rest) == timestamp::ts_value(s),
        timestamp::ts_value(
            s.map_values(
                |c: char|
                    if c == ',' {
                        '.'
                    } else {
                        c
                    },
            ),
        ) == timestamp::ts_value(s),
{
    let dotted = s.map_values(
        |c: char|
            if c == ',' {
                '.'
            } else {
                c
            },
    );
    piece_laws::lemma_split_lacking(s, ' ');
    piece_laws::lemma_split_at(s, ' ', rest);
    assert(timestamp::clock_text(s + seq![' '] + rest) =~= timestamp::clock_text(s));
    assert forall|i: int| 0 <= i < dotted.len() implies #[trigger] dotted[i] != ' ' by {
        assert(s[i] != ' ');
    }
    piece_laws::lemma_split_lacking(dotted, ' ');
    assert(timestamp::clock_text(dotted) =~= timestamp::clock_text(s));
}

/// A time of hours, minutes, seconds and thousandths reads as the milliseconds that they are
/// together. Hours and thousandths may be left out, and count as none then.
pub proof fn law_times_are_read_as_milliseconds(
    h: Seq<char>,
    m: Seq<char>,
    s: Seq<char>,
    t: Seq<char>,
)
    requires
        h.len() > 0 && number::all_digits(h) && number::digits_value(h) <= u64::MAX,
        m.len() > 0 && number::all_digits(m) && number::digits_value(m) <= u64::MAX,
        s.len() > 0 && number::all_digits(s) && number::digits_value(s) <= u64::MAX,
        t.len() > 0 && number::all_digits(t) && number::digits_value(t) <= u64::MAX,
    ensures
        ({
            let hours = number::digits_value(h) * 3_600_000;
            let minutes = number::digits_value(m) * 60_000;
            let seconds = number::digits_value(s) * 1000;
            let rest = number::digits_value(t);
            let clock = m + seq![':'] + s;
            &&& timestamp::ts_value(h + seq![':'] + clock + seq![','] + t) == Some(
                (hours + minutes + seconds + rest) as nat,
            )
            &&& timestamp::ts_value(h + seq![':'] + clock) == Some(
                (hours + minutes + seconds) as nat,
            )
            &&& timestamp::ts_value(clock + seq![','] + t) == Some(
                (minutes + seconds + rest) as nat,
            )
            &&& timestamp::ts_value(clock) == Some((minutes + seconds) as nat)
        }),
{
    let clock = m + seq![':'] + s;
    let whole = h + seq![':'] + clock;
    lemma_digits(h);
    lemma_digits(m);
    lemma_digits(s);
    lemma_digits(t);
    lemma_digits_are_plain(clock);
    piece_laws::lemma_split_at(h, ':', clock);
    piece_laws::lemma_split_at(m, ':', s);
    piece_laws::lemma_split_lacking(s, ':');
    assert(seq![h] + (seq![m] + seq![s]) =~= seq![h, m, s]);
    assert(seq![m] + seq![s] =~= seq![m, s]);
    assert(number::parsed_u64(seq!['0']) == Some(0u64)) by {
        assert(seq!['0'].drop_last() =~= Seq::<char>::empty());
        assert(number::digits_value(Seq::<char>::empty()) == 0);
        assert(number::digits_value(seq!['0']) == 0);
        assert(number::all_digits(seq!['0']));
    }
    lemma_with_thousandths(whole, t);
    lemma_with_thousandths(clock, t);
    lemma_without_thousandths(whole);
    lemma_without_thousandths(clock);
}

/// What a time is made of apart from the thousandths.
spec fn clock_chars(s: Seq<char>) -> bool {
    piece_laws::lacks(s, ' ') && piece_laws::lacks(s, '.') && piece_laws::lacks(s, ',')
}

proof fn lemma_digits_are_plain(s: Seq<char>)
    requires
        forall|i: int| 0 <= i < s.len() ==> number::is_digit(#[trigger] s[i]) || s[i] == ':',
    ensures
        clock_chars(s),
{
}

proof fn lemma_digits(s: Seq<char>)
    requires
        s.len() > 0 && number::all_digits(s) && number::digits_value(s) <= u64::MAX,
    ensures
        number::parsed_u64(s) == Some(number::digits_value(s) as u64),
        piece_laws::lacks(s, ':'),
        clock_chars(s),
{
    assert(number::is_digit(s[0]));
}

proof fn lemma_with_thousandths(clock: Seq<char>, t: Seq<char>)
    requires
        clock_chars(clock),
        clock_chars(t),
    ensures
        ({
            let all = clock + seq![','] + t;
            &&& timestamp::clock_text(all) == all
            &&& pieces::split_once(all, seq![',']) == Some((clock, t))
        }),
{
    let all = clock + seq![','] + t;
    assert forall|i: int| 0 <= i < all.len() implies #[trigger] all[i] != ' ' && all[i] != '.' by {
        if i < clock.len() {
            assert(all[i] == clock[i]);
        } else if i > clock.len() {
            assert(all[i] == t[i - clock.len() - 1]);
        }
    }
    assert(piece_laws::lacks(all, ' '));
    piece_laws::lemma_split_lacking(all, ' ');
    assert(timestamp::clock_text(all) =~= all);
    piece_laws::lemma_split_at(clock, ',', t);
    assert(all.take(clock.len() as int) =~= clock);
    assert(all.skip(clock.len() as int + 1) =~= t);
}

proof fn lemma_without_thousandths(clock: Seq<char>)
    requires
        clock_chars(clock),
    ensures
        timestamp::clock_text(clock) == clock,
        pieces::split_once(clock, seq![',']) is None,
{
    piece_laws::lemma_split_lacking(clock, ' ');
    piece_laws::lemma_split_lacking(clock, ',');
    assert(timestamp::clock_text(clock) =~= clock);
}

/// A number is read digit by digit from its start, in tens; a plus sign may stand before it, and
/// nothing else may stand anywhere.
pub proof fn law_numbers_are_read_in_tens(s: Seq<char>, c: char)
    ensures
        number::digits_value(Seq::empty()) == 0,
        '0' <= c <= '9' ==> number::digits_value(s.push(c)) == 10 * number::digits_value(s) + (
        c as int - '0' as int),
        number::parsed_u64(Seq::empty()) is None,
        !('0' <= c <= '9') ==> number::parsed_u64(s.push(c)) is None,
        s.len() > 0 && s[0] != '+' ==> number::parsed_u64(seq!['+'] + s) == number::parsed_u64(s),
{
    let all = s.push(c);
    assert(all.drop_last() =~= s);
    if !('0' <= c <= '9') {
        let d = number::without_plus(all);
        if d.len() > 0 {
            assert(d.last() == c);
            assert(!number::is_digit(d[d.len() - 1]));
        }
    }
    assert((seq!['+'] + s).drop_first() =~= s);
}

/// A number is written with its digits in tens, the last one last, and without zeros before it.
pub proof fn law_numbers_are_written_in_tens(n: nat)
    ensures
        n >= 10 ==> number::decimal(n).drop_last() == number::decimal(n / 10),
        number::decimal(n).last() as int == '0' as int + n % 10,
        n < 10 ==> number::decimal(n).len() == 1,
        n > 0 ==> number::decimal(n)[0] != '0',
    decreases n,
{
    if n >= 10 {
        law_numbers_are_written_in_tens(n / 10);
        assert(number::decimal(n).drop_last() =~= number::decimal(n / 10));
        number::lemma_decimal(n / 10);
        assert(number::decimal(n)[0] == number::decimal(n / 10)[0]);
    }
}

} // verus!
