//! From a stream of audio bytes to subtitles.

use vstd::prelude::*;
use vstd::string::StringExecFns;

use crate::text::chars::{chars_of, concat2, same_text, string_of};
use crate::text::pieces::join_texts;
use crate::text::spaces::{is_blank, trim_of};
use crate::text::{chars, pieces, spaces};
use crate::types;
use crate::types::{SegmentView, SubtitleSegment};

verus! {

/// Samples in a second.
pub const SAMPLE_RATE: i32 = 16000;

/// Samples that the voice detector takes at a time.
pub const VAD_WINDOW: usize = 512;

/// The bytes of one sample.
pub type Sample = [u8; 4];

/// The samples in a run of bytes: four bytes each; bytes left at the end make none.
pub open spec fn samples_in(bytes: Seq<u8>) -> Seq<Seq<u8>>
    decreases bytes.len(),
{
    if bytes.len() < 4 {
        Seq::empty()
    } else {
        seq![bytes.take(4)] + samples_in(bytes.skip(4))
    }
}

/// The bytes left at the end.
pub open spec fn bytes_left(bytes: Seq<u8>) -> Seq<u8>
    decreases bytes.len(),
{
    if bytes.len() < 4 {
        bytes
    } else {
        bytes_left(bytes.skip(4))
    }
}

pub open spec fn sample_views(list: Seq<Sample>) -> Seq<Seq<u8>> {
    list.map_values(|s: Sample| s@)
}

/// Receiving audio: what has come but not gone to the voice detector yet.
pub struct AudioFeed {
    /// The bytes of a sample that is not complete.
    pub partial: Vec<u8>,
    /// The samples that do not fill a window.
    pub pending: Vec<Sample>,
}

#[verifier::ext_equal]
pub struct FeedView {
    pub partial: Seq<u8>,
    pub pending: Seq<Seq<u8>>,
}

impl View for AudioFeed {
    type V = FeedView;

    open spec fn view(&self) -> FeedView {
        FeedView { partial: self.partial@, pending: sample_views(self.pending@) }
    }
}

/// The windows that a list of samples fills.
pub open spec fn windows_in(samples: Seq<Seq<u8>>) -> Seq<Seq<Seq<u8>>>
    decreases samples.len(),
{
    if samples.len() < VAD_WINDOW {
        Seq::empty()
    } else {
        seq![samples.take(VAD_WINDOW as int)] + windows_in(samples.skip(VAD_WINDOW as int))
    }
}

/// The samples that are left when the windows are filled.
pub open spec fn samples_left(samples: Seq<Seq<u8>>) -> Seq<Seq<u8>>
    decreases samples.len(),
{
    if samples.len() < VAD_WINDOW {
        samples
    } else {
        samples_left(samples.skip(VAD_WINDOW as int))
    }
}

/// All the samples once more bytes have come.
pub open spec fn samples_with(f: FeedView, bytes: Seq<u8>) -> Seq<Seq<u8>> {
    f.pending + samples_in(f.partial + bytes)
}

/// What is left once more bytes have come, and the windows that they fill have gone.
pub open spec fn fed(f: FeedView, bytes: Seq<u8>) -> FeedView {
    FeedView {
        partial: bytes_left(f.partial + bytes),
        pending: samples_left(samples_with(f, bytes)),
    }
}

/// The windows that are filled when more bytes come.
pub open spec fn windows_fed(f: FeedView, bytes: Seq<u8>) -> Seq<Seq<Seq<u8>>> {
    windows_in(samples_with(f, bytes))
}

pub open spec fn window_views(list: Seq<Vec<Sample>>) -> Seq<Seq<Seq<u8>>> {
    list.map_values(|w: Vec<Sample>| sample_views(w@))
}

impl AudioFeed {
    pub fn new() -> (r: Self)
        ensures
            r@.partial == Seq::<u8>::empty(),
            r@.pending == Seq::<Seq<u8>>::empty(),
    {
        let r = AudioFeed { partial: Vec::new(), pending: Vec::new() };
        assert(sample_views(r.pending@) =~= Seq::<Seq<u8>>::empty());
        r
    }

    /// Takes the bytes that have come, wherever they were cut, and adds their samples.
    fn add_samples(&mut self, bytes: &[u8])
        requires
            old(self)@.partial.len() < 4,
        ensures
            final(self)@.partial == bytes_left(old(self)@.partial + bytes@),
            final(self)@.pending == samples_with(old(self)@, bytes@),
            final(self)@.partial.len() < 4,
    {
        let ghost whole = self.partial@ + bytes@;
        let ghost first = self@.pending;
        let ghost want = samples_with(self@, bytes@);
        let mut part: Vec<u8> = Vec::new();
        let n: usize = self.partial.len();
        for i in 0..n
            invariant
                n == self.partial@.len(),
                part@ == self.partial@.take(i as int),
                sample_views(self.pending@) == first,
                self.partial@ == old(self).partial@,
                n < 4,
        {
            part.push(self.partial[i]);
            assert(self.partial@.take(i + 1) =~= part@);
        }
        assert(part@ =~= self.partial@);
        let count: usize = bytes.len();
        assert(bytes@.skip(0) =~= bytes@);
        for i in 0..count
            invariant
                count == bytes@.len(),
                part@.len() < 4,
                want == first + samples_in(whole),
                sample_views(self.pending@) + samples_in(part@ + bytes@.skip(i as int)) == want,
                bytes_left(part@ + bytes@.skip(i as int)) == bytes_left(whole),
        {
            let ghost before = part@;
            let ghost rest = bytes@.skip(i + 1);
            part.push(bytes[i]);
            assert(before + bytes@.skip(i as int) =~= part@ + rest);
            if part.len() == 4 {
                let s: Sample = [part[0], part[1], part[2], part[3]];
                let ghost pending = sample_views(self.pending@);
                self.pending.push(s);
                proof {
                    assert(s@ =~= part@);
                    assert(sample_views(self.pending@) =~= pending.push(part@));
                    assert((part@ + rest).take(4) =~= part@);
                    assert((part@ + rest).skip(4) =~= rest);
                    assert(pending + (seq![part@] + samples_in(rest)) =~= pending.push(part@)
                        + samples_in(rest));
                    assert(Seq::<u8>::empty() + rest =~= rest);
                }
                part = Vec::new();
            }
        }
        proof {
            assert(part@ + bytes@.skip(count as int) =~= part@);
            assert(sample_views(self.pending@) + Seq::<Seq<u8>>::empty() =~= sample_views(
                self.pending@,
            ));
        }
        self.partial = part;
    }

    /// Takes the bytes that have come, and gives the windows that are filled now.
    pub fn feed(&mut self, bytes: &[u8]) -> (r: Vec<Vec<Sample>>)
        requires
            old(self)@.partial.len() < 4,
        ensures
            final(self)@ == fed(old(self)@, bytes@),
            final(self)@.partial.len() < 4,
            window_views(r@) == windows_fed(old(self)@, bytes@),
    {
        let ghost want = samples_with(self@, bytes@);
        self.add_samples(bytes);
        let n: usize = self.pending.len();
        let mut out: Vec<Vec<Sample>> = Vec::new();
        let mut at: usize = 0;
        let ghost all = self.pending@;
        let ghost list = sample_views(all);
        proof {
            assert(list.len() == n);
            assert(list.skip(0) =~= list);
            assert(window_views(out@) + windows_in(list) =~= windows_in(list));
        }
        while n - at >= VAD_WINDOW
            invariant
                n == all.len(),
                all == self.pending@,
                list == sample_views(all),
                list == want,
                at <= n,
                self.partial@ == bytes_left(old(self)@.partial + bytes@),
                self.partial@.len() < 4,
                window_views(out@) + windows_in(list.skip(at as int)) == windows_in(list),
                samples_left(list.skip(at as int)) == samples_left(list),
            decreases n - at,
        {
            let ghost rest = list.skip(at as int);
            let mut w: Vec<Sample> = Vec::new();
            for k in at..at + VAD_WINDOW
                invariant
                    at + VAD_WINDOW <= n == all.len(),
                    all == self.pending@,
                    self.partial@ == bytes_left(old(self)@.partial + bytes@),
                    w@ =~= all.subrange(at as int, k as int),
            {
                w.push(self.pending[k]);
            }
            let ghost before = window_views(out@);
            proof {
                assert(sample_views(w@) =~= rest.take(VAD_WINDOW as int));
                assert(rest.skip(VAD_WINDOW as int) =~= list.skip(at + VAD_WINDOW));
            }
            out.push(w);
            proof {
                let more = windows_in(list.skip(at + VAD_WINDOW));
                let one = sample_views(w@);
                assert(window_views(out@) =~= before.push(one));
                assert(before + (seq![one] + more) =~= before.push(one) + more);
            }
            at = at + VAD_WINDOW;
        }
        let mut kept: Vec<Sample> = Vec::new();
        for k in at..n
            invariant
                at <= n == all.len(),
                all == self.pending@,
                self.partial@ == bytes_left(old(self)@.partial + bytes@),
                kept@ =~= all.subrange(at as int, k as int),
        {
            kept.push(self.pending[k]);
        }
        proof {
            assert(sample_views(kept@) =~= list.skip(at as int));
            assert(window_views(out@) + Seq::<Seq<Seq<u8>>>::empty() =~= window_views(out@));
        }
        self.pending = kept;
        out
    }
}

/// When a stretch of speech starts and ends, in milliseconds.
pub open spec fn speech_span(start_sample: int, samples: int) -> (int, int) {
    let start = (if start_sample < 0 {
        0
    } else {
        start_sample
    }) * 1000 / 16000;
    (start, start + samples * 1000 / 16000)
}

/// When a stretch of speech starts and ends, in milliseconds.
pub fn speech_times(start_sample: i32, samples: usize) -> (r: (u64, u64))
    ensures
        (r.0 as int, r.1 as int) == speech_span(start_sample as int, samples as int),
{
    let first: u64 = if start_sample < 0 {
        0
    } else {
        start_sample as u64
    };
    let start: u64 = first * 1000 / 16000;
    let length: u128 = samples as u128 * 1000 / 16000;
    (start, start + length as u64)
}

/// What was heard in a stretch of speech: nothing if there are no samples or no text.
pub open spec fn heard(
    start_sample: int,
    samples: int,
    text: Option<Seq<char>>,
) -> Option<SegmentView> {
    match text {
        Some(t) => if samples == 0 || spaces::trim(t).len() == 0 {
            None
        } else {
            let (start_ms, end_ms) = speech_span(start_sample, samples);
            Some(SegmentView { index: 0, start_ms, end_ms, text: spaces::trim(t) })
        },
        None => None,
    }
}

/// What was heard in a stretch of speech, as a subtitle without a number.
pub fn recognized(start_sample: i32, samples: usize, text: Option<String>) -> (r: Option<
    SubtitleSegment,
>)
    ensures
        (match r {
            Some(s) => Some(s@),
            None => None,
        }) == heard(
            start_sample as int,
            samples as int,
            match text {
                Some(t) => Some(t@),
                None => None,
            },
        ),
{
    match text {
        Some(t) => {
            let v = chars_of(t.as_str());
            let core = trim_of(v.as_slice());
            if samples == 0 || core.len() == 0 {
                return None;
            }
            let (start_ms, end_ms) = speech_times(start_sample, samples);
            Some(SubtitleSegment { index: 0, start_ms, end_ms, text: string_of(core) })
        },
        None => None,
    }
}

/// The subtitles with one more, numbered next, if it is kept.
pub open spec fn with_kept(list: Seq<SegmentView>, s: SegmentView, kept: bool) -> Seq<SegmentView> {
    if kept {
        list.push(SegmentView { index: list.len() as int + 1, ..s })
    } else {
        list
    }
}

/// Adds a subtitle if it is kept, and numbers it.
pub fn keep_segment(list: &mut Vec<SubtitleSegment>, seg: SubtitleSegment, kept: bool)
    requires
        old(list)@.len() < usize::MAX,
    ensures
        types::cues(final(list)@) == with_kept(types::cues(old(list)@), seg@, kept),
{
    if kept {
        let ghost before = types::cues(list@);
        let index: usize = list.len() + 1;
        list.push(
            SubtitleSegment {
                index,
                start_ms: seg.start_ms,
                end_ms: seg.end_ms,
                text: seg.text,
            },
        );
        assert(types::cues(list@) =~= before.push(list@.last()@));
    }
}

/// Subtitles are numbered from one without gaps.
pub open spec fn numbered(list: Seq<SegmentView>) -> bool {
    forall|i: int| 0 <= i < list.len() ==> (#[trigger] list[i]).index == i + 1
}

/// Only what is kept gets a number, so that the numbers stay without gaps.
pub proof fn law_kept_subtitles_are_numbered(list: Seq<SegmentView>, s: SegmentView, kept: bool)
    requires
        numbered(list),
    ensures
        numbered(with_kept(list, s, kept)),
{
}

/// A list of samples one after the other.
pub open spec fn bytes_of(samples: Seq<Seq<u8>>) -> Seq<u8>
    decreases samples.len(),
{
    if samples.len() == 0 {
        Seq::empty()
    } else {
        bytes_of(samples.drop_last()) + samples.last()
    }
}

proof fn lemma_bytes_add(a: Seq<Seq<u8>>, b: Seq<Seq<u8>>)
    ensures
        bytes_of(a + b) == bytes_of(a) + bytes_of(b),
    decreases b.len(),
{
    if b.len() == 0 {
        assert(a + b =~= a);
        assert(bytes_of(a) + bytes_of(b) =~= bytes_of(a));
    } else {
        assert((a + b).drop_last() =~= a + b.drop_last());
        lemma_bytes_add(a, b.drop_last());
        assert(bytes_of(a) + bytes_of(b.drop_last()) + b.last() =~= bytes_of(a) + (bytes_of(
            b.drop_last(),
        ) + b.last()));
    }
}

proof fn lemma_samples(bytes: Seq<u8>)
    ensures
        bytes_of(samples_in(bytes)) + bytes_left(bytes) == bytes,
        bytes_left(bytes).len() < 4,
        forall|i: int|
            0 <= i < samples_in(bytes).len() ==> (#[trigger] samples_in(bytes)[i]).len() == 4,
    decreases bytes.len(),
{
    if bytes.len() < 4 {
        assert(bytes_of(samples_in(bytes)) + bytes =~= bytes);
    } else {
        let head = bytes.take(4);
        let tail = bytes.skip(4);
        lemma_samples(tail);
        lemma_bytes_add(seq![head], samples_in(tail));
        assert(seq![head].drop_last() =~= Seq::<Seq<u8>>::empty());
        assert(bytes_of(Seq::<Seq<u8>>::empty()) =~= Seq::<u8>::empty());
        assert(bytes_of(seq![head]) =~= head);
        assert(head + bytes_of(samples_in(tail)) + bytes_left(tail) =~= head + (bytes_of(
            samples_in(tail),
        ) + bytes_left(tail)));
        assert(head + tail =~= bytes);
        let all = seq![head] + samples_in(tail);
        assert forall|i: int| 0 <= i < all.len() implies (#[trigger] all[i]).len() == 4 by {
            if i > 0 {
                assert(all[i] == samples_in(tail)[i - 1]);
            }
        }
    }
}

/// No byte is lost and none is made up: the samples of a run of bytes and what is left of it are
/// the bytes, in order; every sample has four bytes, and fewer are left.
pub proof fn law_samples_are_the_bytes(bytes: Seq<u8>)
    ensures
        bytes_of(samples_in(bytes)) + bytes_left(bytes) == bytes,
        bytes_left(bytes).len() < 4,
        forall|i: int|
            0 <= i < samples_in(bytes).len() ==> (#[trigger] samples_in(bytes)[i]).len() == 4,
{
    lemma_samples(bytes);
}

/// It does not matter where the bytes are cut when they come: reading on with what was left gives
/// the same samples, and leaves the same, as reading all at once.
pub proof fn law_cuts_do_not_matter(a: Seq<u8>, b: Seq<u8>)
    ensures
        samples_in(a + b) == samples_in(a) + samples_in(bytes_left(a) + b),
        bytes_left(a + b) == bytes_left(bytes_left(a) + b),
    decreases a.len(),
{
    if a.len() < 4 {
        assert(samples_in(a) + samples_in(a + b) =~= samples_in(a + b));
    } else {
        let head = a.take(4);
        let tail = a.skip(4);
        assert((a + b).take(4) =~= head);
        assert((a + b).skip(4) =~= tail + b);
        law_cuts_do_not_matter(tail, b);
        let more = samples_in(bytes_left(tail) + b);
        assert(seq![head] + (samples_in(tail) + more) =~= seq![head] + samples_in(tail) + more);
    }
}

/// It does not matter where the samples are cut either: going on with those that filled no window
/// gives the same windows, and leaves the same.
pub proof fn law_windows_do_not_depend_on_cuts(x: Seq<Seq<u8>>, y: Seq<Seq<u8>>)
    ensures
        windows_in(x + y) == windows_in(x) + windows_in(samples_left(x) + y),
        samples_left(x + y) == samples_left(samples_left(x) + y),
    decreases x.len(),
{
    let w = VAD_WINDOW as int;
    if x.len() < w {
        assert(windows_in(x) + windows_in(x + y) =~= windows_in(x + y));
    } else {
        let head = x.take(w);
        let tail = x.skip(w);
        assert((x + y).take(w) =~= head);
        assert((x + y).skip(w) =~= tail + y);
        law_windows_do_not_depend_on_cuts(tail, y);
        let more = windows_in(samples_left(tail) + y);
        assert(seq![head] + (windows_in(tail) + more) =~= seq![head] + windows_in(tail) + more);
    }
}

/// Bytes that come in two lots give the same windows, and leave the same, as when they come in one.
pub proof fn law_feeding_twice_is_feeding_once(f: FeedView, a: Seq<u8>, b: Seq<u8>)
    ensures
        fed(f, a + b) == fed(fed(f, a), b),
        windows_fed(f, a + b) == windows_fed(f, a) + windows_fed(fed(f, a), b),
{
    let first = f.partial + a;
    assert(f.partial + (a + b) =~= first + b);
    law_cuts_do_not_matter(first, b);
    let x = samples_with(f, a);
    let y = samples_in(bytes_left(first) + b);
    assert(samples_with(f, a + b) =~= x + y);
    law_windows_do_not_depend_on_cuts(x, y);
}

/// The files of a speech model.
pub struct RecognizerFiles {
    pub conv_frontend: String,
    pub encoder: String,
    pub decoder: String,
    pub tokenizer: String,
}

/// The files of the speech model in a directory.
pub fn recognizer_files(dir: &str) -> (r: RecognizerFiles)
    ensures
        r.conv_frontend@ == dir@ + "/conv_frontend.onnx"@,
        r.encoder@ == dir@ + "/encoder.int8.onnx"@,
        r.decoder@ == dir@ + "/decoder.int8.onnx"@,
        r.tokenizer@ == dir@ + "/tokenizer"@,
{
    RecognizerFiles {
        conv_frontend: concat2(dir, "/conv_frontend.onnx"),
        encoder: concat2(dir, "/encoder.int8.onnx"),
        decoder: concat2(dir, "/decoder.int8.onnx"),
        tokenizer: concat2(dir, "/tokenizer"),
    }
}

/// The words that recognition is biased to; none if there are none.
pub fn bias_words(hotwords: &str) -> (r: Option<String>)
    ensures
        match r {
            Some(t) => hotwords@.len() > 0 && t@ == hotwords@,
            None => hotwords@.len() == 0,
        },
{
    if hotwords.is_empty() {
        None
    } else {
        Some(hotwords.to_string())
    }
}

/// What to run the speech recogniser on when it could not be made: the CPU after CUDA, and after
/// anything else nothing.
pub fn fallback_provider(tried: &str) -> (r: Option<&'static str>)
    ensures
        match r {
            Some(p) => tried@ == "cuda"@ && p@ == "cpu"@,
            None => tried@ != "cuda"@,
        },
{
    if same_text(tried, "cuda") {
        Some("cpu")
    } else {
        None
    }
}

/// How many of the last lines of a decoder's messages are kept.
pub const TAIL_LINES: usize = 25;

/// The last lines that a decoder wrote.
pub struct MessageTail {
    pub lines: Vec<String>,
}

impl View for MessageTail {
    type V = Seq<Seq<char>>;

    open spec fn view(&self) -> Seq<Seq<char>> {
        chars::views(self.lines@)
    }
}

/// The last lines with one more; the oldest goes if there are too many.
pub open spec fn tail_with(tail: Seq<Seq<char>>, line: Seq<char>) -> Seq<Seq<char>> {
    if tail.len() >= TAIL_LINES {
        tail.drop_first().push(line)
    } else {
        tail.push(line)
    }
}

/// The last lines after a list of lines.
pub open spec fn tail_after(lines: Seq<Seq<char>>) -> Seq<Seq<char>>
    decreases lines.len(),
{
    if lines.len() == 0 {
        Seq::empty()
    } else {
        tail_with(tail_after(lines.drop_last()), lines.last())
    }
}

/// What is kept of a decoder's messages is their end.
pub proof fn law_tail_is_the_end(lines: Seq<Seq<char>>)
    ensures
        tail_after(lines) == lines.skip(
            if lines.len() > TAIL_LINES {
                lines.len() - TAIL_LINES
            } else {
                0
            },
        ),
    decreases lines.len(),
{
    if lines.len() > 0 {
        let front = lines.drop_last();
        law_tail_is_the_end(front);
        if front.len() >= TAIL_LINES {
            assert(tail_after(lines) =~= lines.skip(lines.len() - TAIL_LINES));
        } else {
            assert(tail_after(lines) =~= lines.skip(0));
        }
    } else {
        assert(lines.skip(0) =~= Seq::<Seq<char>>::empty());
    }
}

/// What is said when a decoder ends with an error.
pub open spec fn exit_text(status: Seq<char>, tail: Seq<Seq<char>>) -> Seq<char> {
    let text = pieces::join(tail, "\n"@);
    "FFmpeg 解码异常退出（"@ + status + "）。最后输出:\n"@ + (if spaces::trim(text).len() == 0 {
        "（无 stderr 输出）"@
    } else {
        text
    })
}

impl MessageTail {
    pub fn new() -> (r: Self)
        ensures
            r@ == Seq::<Seq<char>>::empty(),
    {
        let r = MessageTail { lines: Vec::new() };
        assert(chars::views(r.lines@) =~= Seq::<Seq<char>>::empty());
        r
    }

    /// Keeps a line.
    pub fn push(&mut self, line: String)
        ensures
            final(self)@ == tail_with(old(self)@, line@),
    {
        let ghost before = self@;
        assert(before.len() == self.lines@.len());
        if self.lines.len() >= TAIL_LINES {
            self.lines.remove(0);
            assert(chars::views(self.lines@) =~= before.drop_first());
        }
        let ghost middle = chars::views(self.lines@);
        self.lines.push(line);
        assert(chars::views(self.lines@) =~= middle.push(line@));
    }

    /// What is said when the decoder ended with an error.
    pub fn exit_message(&self, status: &str) -> (r: String)
        ensures
            r@ == exit_text(status@, self@),
    {
        let text = join_texts(&self.lines, "\n");
        let text = if is_blank(text.as_str()) {
            "（无 stderr 输出）".to_string()
        } else {
            text
        };
        let mut r = "FFmpeg 解码异常退出（".to_string();
        r.append(status);
        r.append("）。最后输出:\n");
        r.append(text.as_str());
        r
    }
}

} // verus!
