//! When speech is on screen, and how audio is cut.

use vstd::prelude::*;

use crate::speech;
use crate::speech::FeedView;
use crate::text::{pieces, spaces};
use crate::types::SegmentView;

verus! {

/// There are sixteen samples in a millisecond. Speech starts with the last whole millisecond that is
/// not after its first sample, and at zero if that is before the audio; it lasts for the whole
/// milliseconds of its samples.
pub proof fn law_speech_is_timed_by_its_samples(start_sample: int, samples: int)
    requires
        samples >= 0,
    ensures
        ({
            let (start, end) = speech::speech_span(start_sample, samples);
            &&& start_sample >= 0 ==> start * 16 <= start_sample < (start + 1) * 16
            &&& start_sample < 0 ==> start == 0
            &&& (end - start) * 16 <= samples < (end - start + 1) * 16
        }),
{
}

/// Speech that starts later is not shown earlier, and longer speech is not shown for less time.
pub proof fn law_later_speech_is_shown_later(a: int, b: int, m: int, n: int)
    requires
        a <= b,
        0 <= m <= n,
    ensures
        speech::speech_span(a, m).0 <= speech::speech_span(b, n).0,
        speech::speech_span(a, m).1 - speech::speech_span(a, m).0 <= speech::speech_span(b, n).1
            - speech::speech_span(b, n).0,
        a >= 0 ==> speech::speech_span(a + 16, m).0 == speech::speech_span(a, m).0 + 1,
{
}

/// What was heard is a subtitle exactly if there are samples and text; its text has no white space
/// around it, and its times are those of the samples.
pub proof fn law_heard_speech_is_shown(start_sample: int, samples: int, text: Seq<char>)
    requires
        samples >= 0,
    ensures
        speech::heard(start_sample, samples, None) is None,
        speech::heard(start_sample, samples, Some(text)) is None <==> samples == 0
            || spaces::all_white(text),
        speech::heard(start_sample, samples, Some(text)) matches Some(s) ==> {
            &&& s.text == spaces::trim(text)
            &&& s.start_ms * 16 <= (if start_sample < 0 {
                0
            } else {
                start_sample
            }) < (s.start_ms + 1) * 16
            &&& (s.end_ms - s.start_ms) * 16 <= samples < (s.end_ms - s.start_ms + 1) * 16
        },
{
    spaces::lemma_blank(text);
    law_speech_is_timed_by_its_samples(start_sample, samples);
}

/// The windows one after the other.
pub open spec fn all_samples(windows: Seq<Seq<Seq<u8>>>) -> Seq<Seq<u8>>
    decreases windows.len(),
{
    if windows.len() == 0 {
        Seq::empty()
    } else {
        windows[0] + all_samples(windows.drop_first())
    }
}

/// The windows that go to the voice detector and the samples that wait are all the samples there are,
/// in order. Every window has 512 samples, and fewer wait.
pub proof fn law_windows_are_the_samples(samples: Seq<Seq<u8>>)
    ensures
        all_samples(speech::windows_in(samples)) + speech::samples_left(samples) == samples,
        forall|i: int|
            0 <= i < speech::windows_in(samples).len() ==> (#[trigger] speech::windows_in(
                samples,
            )[i]).len() == 512,
        speech::samples_left(samples).len() < 512,
    decreases samples.len(),
{
    if samples.len() >= 512 {
        let rest = samples.skip(512);
        law_windows_are_the_samples(rest);
        let first = samples.take(512);
        let more = speech::windows_in(rest);
        let all = seq![first] + more;
        assert(all.drop_first() =~= more);
        assert(first + all_samples(more) + speech::samples_left(rest) =~= first + (all_samples(more)
            + speech::samples_left(rest)));
        assert(first + rest =~= samples);
        assert forall|i: int| 0 <= i < all.len() implies (#[trigger] all[i]).len() == 512 by {
            if i > 0 {
                assert(all[i] == more[i - 1]);
            }
        }
    } else {
        assert(Seq::<Seq<u8>>::empty() + samples =~= samples);
    }
}

/// Every sample has the four bytes that come next, and fewer than four wait for more.
pub proof fn law_samples_have_four_bytes(bytes: Seq<u8>)
    ensures
        speech::samples_in(bytes).len() == bytes.len() / 4,
        speech::bytes_left(bytes).len() == bytes.len() % 4,
        forall|i: int|
            0 <= i < speech::samples_in(bytes).len() ==> #[trigger] speech::samples_in(bytes)[i]
                == bytes.subrange(4 * i, 4 * i + 4),
        speech::bytes_left(bytes) == bytes.skip(bytes.len() as int / 4 * 4),
    decreases bytes.len(),
{
    if bytes.len() >= 4 {
        let rest = bytes.skip(4);
        law_samples_have_four_bytes(rest);
        let more = speech::samples_in(rest);
        let all = seq![bytes.take(4)] + more;
        assert forall|i: int| 0 <= i < all.len() implies #[trigger] all[i] == bytes.subrange(
            4 * i,
            4 * i + 4,
        ) by {
            if i > 0 {
                assert(all[i] == more[i - 1]);
                assert(rest.subrange(4 * (i - 1), 4 * (i - 1) + 4) =~= bytes.subrange(
                    4 * i,
                    4 * i + 4,
                ));
            } else {
                assert(bytes.take(4) =~= bytes.subrange(0, 4));
            }
        }
        assert(rest.skip(rest.len() as int / 4 * 4) =~= bytes.skip(bytes.len() as int / 4 * 4));
    } else {
        assert(bytes.skip(0) =~= bytes);
    }
}

/// Nothing is lost or repeated when bytes come: what waited and what came are what goes and what
/// waits then.
pub proof fn law_feeding_loses_nothing(f: FeedView, bytes: Seq<u8>)
    ensures
        all_samples(speech::windows_fed(f, bytes)) + speech::fed(f, bytes).pending == f.pending
            + speech::samples_in(f.partial + bytes),
        speech::fed(f, bytes).partial == speech::bytes_left(f.partial + bytes),
{
    law_windows_are_the_samples(f.pending + speech::samples_in(f.partial + bytes));
}

/// What is kept of a decoder's messages is their last 25 lines, or all of them while there are fewer.
pub proof fn law_the_last_lines_are_kept(lines: Seq<Seq<char>>)
    ensures
        lines.len() <= 25 ==> speech::tail_after(lines) == lines,
        lines.len() > 25 ==> speech::tail_after(lines).len() == 25,
        forall|i: int|
            0 <= i < speech::tail_after(lines).len() ==> #[trigger] speech::tail_after(lines)[i]
                == lines[lines.len() - speech::tail_after(lines).len() + i],
{
    speech::law_tail_is_the_end(lines);
    assert(lines.skip(0) =~= lines);
}

/// What is said of a decoder that failed has its status and all the lines that were kept, one to a
/// line, or says that there are none.
pub proof fn law_failures_are_told_with_their_lines(status: Seq<char>, tail: Seq<Seq<char>>)
    ensures
        ({
            let said = "FFmpeg 解码异常退出（"@ + status + "）。最后输出:\n"@;
            let lines = pieces::join(tail, "\n"@);
            &&& !spaces::all_white(lines) ==> speech::exit_text(status, tail) == said + lines
            &&& spaces::all_white(lines) ==> speech::exit_text(status, tail) == said
                + "（无 stderr 输出）"@
        }),
{
    spaces::lemma_blank(pieces::join(tail, "\n"@));
}

/// A subtitle that is kept comes last under the next number, at its times and with its text; one that
/// is not kept changes nothing.
pub proof fn law_kept_subtitles_come_last(list: Seq<SegmentView>, s: SegmentView)
    ensures
        speech::with_kept(list, s, false) == list,
        ({
            let after = speech::with_kept(list, s, true);
            &&& after.len() == list.len() + 1
            &&& after.drop_last() == list
            &&& after.last().index == list.len() + 1
            &&& after.last().start_ms == s.start_ms && after.last().end_ms == s.end_ms
            &&& after.last().text == s.text
        }),
{
    assert(speech::with_kept(list, s, true).drop_last() =~= list);
}

} // verus!
