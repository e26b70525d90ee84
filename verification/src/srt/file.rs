//! The SRT file format.

use vstd::prelude::*;
use vstd::string::StringExecFns;

use crate::srt::timestamp;
use crate::srt::timestamp::{format_timestamp, ts_millis};
use crate::text::chars::{add_char, chars_of, string_of};
use crate::text::number::push_usize;
use crate::text::pieces::{find_in, join_slices, replace_in, split_in};
use crate::text::spaces::{trim_end_of, trim_of, trimmed};
use crate::text::{number, pieces, spaces};
use crate::types::{SegmentView, SubtitleSegment};

verus! {

/// One numbered entry of an SRT file, with the empty line after it.
pub open spec fn entry(position: nat, s: SegmentView) -> Seq<char> {
    number::decimal(position) + seq!['\n'] + timestamp::timestamp(s.start_ms as nat) + " --> "@
        + timestamp::timestamp(s.end_ms as nat) + seq!['\n'] + spaces::trim(s.text) + seq![
        '\n',
        '\n',
    ]
}

/// The subtitles as an SRT file, numbered from one.
pub open spec fn rendered(list: Seq<SegmentView>) -> Seq<char>
    decreases list.len(),
{
    if list.len() == 0 {
        Seq::empty()
    } else {
        rendered(list.drop_last()) + entry(list.len(), list.last())
    }
}

/// The subtitles as an SRT file, numbered from one.
pub fn render_srt(segments: &[SubtitleSegment]) -> (r: String)
    ensures
        r@ == rendered(crate::types::cues(segments@)),
{
    let mut out = String::new();
    let n: usize = segments.len();
    let ghost all = crate::types::cues(segments@);
    for i in 0..n
        invariant
            n == segments@.len(),
            all == crate::types::cues(segments@),
            out@ == rendered(all.take(i as int)),
    {
        let seg: &SubtitleSegment = &segments[i];
        let mut item = String::new();
        push_usize(&mut item, i + 1);
        assert(item@ =~= number::decimal((i + 1) as nat));
        add_char(&mut item, '\n');
        item.append(format_timestamp(seg.start_ms).as_str());
        item.append(" --> ");
        item.append(format_timestamp(seg.end_ms).as_str());
        add_char(&mut item, '\n');
        item.append(trimmed(seg.text.as_str()).as_str());
        let ghost head = item@;
        add_char(&mut item, '\n');
        add_char(&mut item, '\n');
        assert(item@ =~= head + seq!['\n', '\n']);
        out.append(item.as_str());
        proof {
            let t = all.take(i + 1);
            assert(t.drop_last() =~= all.take(i as int));
            assert(t.last() == seg@);
        }
    }
    assert(all.take(n as int) =~= all);
    out
}

/// What one block of an SRT file says: start, end and text.
pub struct BlockView {
    pub start_ms: nat,
    pub end_ms: nat,
    pub text: Seq<char>,
}

pub open spec fn arrow() -> Seq<char> {
    seq!['-', '-', '>']
}

/// The first line with an arrow in it.
pub open spec fn arrow_line(lines: Seq<Seq<char>>) -> Option<int>
    decreases lines.len(),
{
    if lines.len() == 0 {
        None
    } else if pieces::find(lines[0], arrow()) is Some {
        Some(0int)
    } else {
        match arrow_line(lines.drop_first()) {
            Some(k) => Some(k + 1),
            None => None,
        }
    }
}

/// The start and the end that a line with an arrow gives.
pub open spec fn line_times(line: Seq<char>) -> Option<(nat, nat)> {
    match pieces::split_once(line, arrow()) {
        Some((a, b)) => match (
            timestamp::ts_value(spaces::trim(a)),
            timestamp::ts_value(spaces::trim(b)),
        ) {
            (Some(start), Some(end)) => Some((start, end)),
            _ => None,
        },
        None => None,
    }
}

/// The lines without the white space around them, and without those that are then empty.
pub open spec fn clean_lines(lines: Seq<Seq<char>>) -> Seq<Seq<char>>
    decreases lines.len(),
{
    if lines.len() == 0 {
        Seq::empty()
    } else {
        let rest = clean_lines(lines.drop_last());
        let line = spaces::trim(lines.last());
        if line.len() == 0 {
            rest
        } else {
            rest.push(line)
        }
    }
}

/// The lines of a block, without the white space at their ends.
pub open spec fn block_lines(block: Seq<char>) -> Seq<Seq<char>> {
    pieces::split(block, seq!['\n']).map_values(|l: Seq<char>| spaces::trim_end(l))
}

/// What a block says, if it says anything: it needs a line with two times, and text below it. An
/// end that is not after the start is taken as one millisecond after it.
#[verifier::opaque]
pub open spec fn block_cue(block: Seq<char>) -> Option<BlockView> {
    let lines = block_lines(block);
    match arrow_line(lines) {
        Some(k) => {
            let body = clean_lines(lines.skip(k + 1));
            match line_times(lines[k]) {
                Some((start, end)) => if body.len() == 0 {
                    None
                } else {
                    Some(
                        BlockView {
                            start_ms: start,
                            end_ms: if end > start {
                                end
                            } else {
                                start + 1
                            },
                            text: pieces::join(body, seq!['\n']),
                        },
                    )
                },
                None => None,
            }
        },
        None => None,
    }
}

/// The blocks of a file: what stands between empty lines.
pub open spec fn blocks(text: Seq<char>) -> Seq<Seq<char>> {
    pieces::split(pieces::replaced(text, seq!['\r', '\n'], seq!['\n']), seq!['\n', '\n'])
}

/// The subtitles that a list of blocks gives, numbered from one.
pub open spec fn block_cues(list: Seq<Seq<char>>) -> Seq<SegmentView>
    decreases list.len(),
{
    if list.len() == 0 {
        Seq::empty()
    } else {
        let rest = block_cues(list.drop_last());
        match block_cue(list.last()) {
            Some(b) => rest.push(
                SegmentView {
                    index: rest.len() as int + 1,
                    start_ms: b.start_ms as int,
                    end_ms: b.end_ms as int,
                    text: b.text,
                },
            ),
            None => rest,
        }
    }
}

/// The subtitles in the text of an SRT file.
pub open spec fn parsed(text: Seq<char>) -> Seq<SegmentView> {
    block_cues(blocks(text))
}

/// Every time in the file fits in 64 bits.
pub open spec fn times_fit(text: Seq<char>) -> bool {
    forall|i: int|
        0 <= i < blocks(text).len() ==> (block_cue(#[trigger] blocks(text)[i]) matches Some(b)
            ==> b.end_ms <= u64::MAX)
}

struct Block {
    start_ms: u128,
    end_ms: u128,
    text: Vec<char>,
}

impl View for Block {
    type V = BlockView;

    closed spec fn view(&self) -> BlockView {
        BlockView {
            start_ms: self.start_ms as nat,
            end_ms: self.end_ms as nat,
            text: self.text@,
        }
    }
}

/// Start and end from a line that has an arrow at `at`.
fn read_times(line: &[char], at: usize) -> (r: Option<(u128, u128)>)
    requires
        pieces::find(line@, arrow()) == Some(at as int),
    ensures
        match r {
            Some((a, b)) => line_times(line@) == Some((a as nat, b as nat)),
            None => line_times(line@) is None,
        },
        r matches Some((a, b)) ==> a < 0x1_0000_0000_0000_0000_0000_0000,
{
    proof {
        pieces::lemma_find(line@, arrow());
    }
    let n: usize = line.len();
    let a: &[char] = &line[0..at];
    let b: &[char] = &line[at + 3..n];
    assert(a@ =~= line@.take(at as int));
    assert(b@ =~= line@.skip(at + 3));
    match (ts_millis(trim_of(a)), ts_millis(trim_of(b))) {
        (Some(start), Some(end)) => Some((start, end)),
        _ => None,
    }
}

fn read_block(block: &[char]) -> (r: Option<Block>)
    ensures
        match r {
            Some(b) => block_cue(block@) == Some(b@) && b.start_ms < b.end_ms,
            None => block_cue(block@) is None,
        },
{
    proof {
        reveal(block_cue);
    }
    let newline: Vec<char> = vec!['\n'];
    let arrow_chars: Vec<char> = vec!['-', '-', '>'];
    assert(newline@ =~= seq!['\n']);
    assert(arrow_chars@ =~= arrow());
    let raw_lines = split_in(block, newline.as_slice());
    let ghost lines = block_lines(block@);
    let n: usize = raw_lines.len();
    assert(forall|j: int|
        0 <= j < n ==> lines[j] == spaces::trim_end(#[trigger] raw_lines@[j]@)) by {
        assert(forall|j: int|
            0 <= j < n ==> #[trigger] raw_lines@[j]@ == pieces::slices(raw_lines@)[j]);
    }
    let mut k: usize = 0;
    let mut at: Option<usize> = None;
    assert(lines.skip(0) =~= lines);
    while k < n && at.is_none()
        invariant
            k <= n,
            n == raw_lines@.len(),
            n == lines.len(),
            arrow_chars@ == arrow(),
            forall|j: int| 0 <= j < n ==> lines[j] == spaces::trim_end(#[trigger] raw_lines@[j]@),
            at is None ==> (arrow_line(lines) == match arrow_line(lines.skip(k as int)) {
                Some(x) => Some(x + k),
                None => None,
            }),
            at matches Some(i) ==> k < n && arrow_line(lines) == Some(k as int) && pieces::find(
                lines[k as int],
                arrow(),
            ) == Some(i as int),
        decreases n - k, (if at is None {
            1int
        } else {
            0int
        }),
    {
        let line = trim_end_of(raw_lines[k]);
        assert(line@ == lines[k as int]);
        assert(lines.skip(k as int)[0] == lines[k as int]);
        assert(lines.skip(k as int).drop_first() =~= lines.skip(k + 1));
        at = find_in(line, arrow_chars.as_slice());
        if at.is_none() {
            k = k + 1;
        }
    }
    let i: usize = match at {
        Some(i) => i,
        None => {
            assert(lines.skip(k as int).len() == 0);
            return None;
        },
    };
    let times = read_times(trim_end_of(raw_lines[k]), i);
    let (start, end): (u128, u128) = match times {
        Some(p) => p,
        None => return None,
    };
    let ghost below = lines.skip(k + 1);
    let mut body: Vec<&[char]> = Vec::new();
    let mut j: usize = k + 1;
    assert(below.take(0) =~= Seq::<Seq<char>>::empty());
    assert(pieces::slices(body@) =~= Seq::<Seq<char>>::empty());
    while j < n
        invariant
            k < j <= n,
            n == raw_lines@.len(),
            n == lines.len(),
            below == lines.skip(k + 1),
            forall|j: int| 0 <= j < n ==> lines[j] == spaces::trim_end(#[trigger] raw_lines@[j]@),
            pieces::slices(body@) == clean_lines(below.take(j - k - 1)),
        decreases n - j,
    {
        let line = trim_of(trim_end_of(raw_lines[j]));
        let ghost t = below.take(j - k);
        assert(t.drop_last() =~= below.take(j - k - 1));
        assert(t.last() == lines[j as int]);
        if line.len() > 0 {
            let ghost before = body@;
            body.push(line);
            assert(pieces::slices(body@) =~= pieces::slices(before).push(line@));
        }
        j = j + 1;
    }
    assert(below.take(n - k - 1) =~= below);
    assert(pieces::slices(body@).len() == body@.len());
    if body.len() == 0 {
        return None;
    }
    let text = join_slices(&body, newline.as_slice());
    let end_ms: u128 = if end > start {
        end
    } else {
        start + 1
    };
    Some(Block { start_ms: start, end_ms, text })
}

/// Why the text of a file gives no subtitles.
#[derive(Debug, Clone, Copy, PartialEq, Eq, Structural)]
pub enum SrtError {
    /// A time does not fit in 64 bits.
    TimeTooLarge,
    /// No block of the file is a subtitle.
    Empty,
}

/// The subtitles in the text of an SRT file, or `None` if a time does not fit in 64 bits.
fn parse_fitting(text: &str) -> (r: Option<Vec<SubtitleSegment>>)
    ensures
        r is Some <==> times_fit(text@),
        r matches Some(v) ==> crate::types::cues(v@) == parsed(text@),
{
    let crlf: Vec<char> = vec!['\r', '\n'];
    let newline: Vec<char> = vec!['\n'];
    let gap: Vec<char> = vec!['\n', '\n'];
    assert(crlf@ =~= seq!['\r', '\n']);
    assert(newline@ =~= seq!['\n']);
    assert(gap@ =~= seq!['\n', '\n']);
    let chars = chars_of(text);
    let unix = replace_in(chars.as_slice(), crlf.as_slice(), newline.as_slice());
    let list = split_in(unix.as_slice(), gap.as_slice());
    let ghost all = blocks(text@);
    assert(pieces::slices(list@) == all);
    let n: usize = list.len();
    let mut out: Vec<SubtitleSegment> = Vec::new();
    assert(all.take(0) =~= Seq::<Seq<char>>::empty());
    assert(crate::types::cues(out@) =~= Seq::<SegmentView>::empty());
    for i in 0..n
        invariant
            n == list@.len(),
            all == blocks(text@),
            pieces::slices(list@) == all,
            out@.len() <= i,
            crate::types::cues(out@) == block_cues(all.take(i as int)),
            forall|j: int|
                0 <= j < i ==> (block_cue(#[trigger] all[j]) matches Some(b) ==> b.end_ms
                    <= u64::MAX),
    {
        assert(pieces::slices(list@)[i as int] == list@[i as int]@);
        let ghost t = all.take(i + 1);
        assert(t.drop_last() =~= all.take(i as int));
        assert(t.last() == all[i as int]);
        match read_block(list[i]) {
            Some(b) => {
                assert(block_cue(all[i as int]) == Some(b@));
                if b.end_ms > u64::MAX as u128 {
                    return None;
                }
                let ghost before = out@;
                let index: usize = out.len() + 1;
                let seg = SubtitleSegment {
                    index,
                    start_ms: b.start_ms as u64,
                    end_ms: b.end_ms as u64,
                    text: string_of(b.text.as_slice()),
                };
                out.push(seg);
                assert(crate::types::cues(out@) =~= crate::types::cues(before).push(seg@));
            },
            None => {},
        }
    }
    assert(all.take(n as int) =~= all);
    Some(out)
}

/// The subtitles in the text of an SRT file. Missing numbers, full stops in times, carriage returns
/// and surplus empty lines are tolerated; blocks that are no subtitles are passed over.
pub fn parse_srt(text: &str) -> (r: Vec<SubtitleSegment>)
    requires
        times_fit(text@),
    ensures
        crate::types::cues(r@) == parsed(text@),
{
    match parse_fitting(text) {
        Some(v) => v,
        None => Vec::new(),
    }
}

/// The subtitles in the text of an SRT file, or why there are none.
pub fn checked_parse_srt(text: &str) -> (r: Result<Vec<SubtitleSegment>, SrtError>)
    ensures
        match r {
            Ok(v) => times_fit(text@) && crate::types::cues(v@) == parsed(text@) && v@.len() > 0,
            Err(SrtError::TimeTooLarge) => !times_fit(text@),
            Err(SrtError::Empty) => times_fit(text@) && parsed(text@).len() == 0,
        },
{
    match parse_fitting(text) {
        Some(v) => {
            assert(crate::types::cues(v@).len() == v@.len());
            if v.len() == 0 {
                Err(SrtError::Empty)
            } else {
                Ok(v)
            }
        },
        None => Err(SrtError::TimeTooLarge),
    }
}

} // verus!
