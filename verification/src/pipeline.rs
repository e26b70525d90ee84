//! What happens to a file.

use vstd::prelude::*;

use crate::srt::cue;
use crate::srt::cue::{layout, CueLimit};
use crate::types;
use crate::types::{SegmentView, SubtitleSegment};

verus! {

/// How files are worked on.
#[derive(Clone, Copy, Debug, PartialEq, Eq, Structural)]
pub enum Mode {
    /// Subtitles are read from the file and translated.
    FromSrt,
    /// Speech is recognised and checked sentence by sentence, with both models in memory.
    WithQc,
    /// Speech is recognised first, and then translated.
    Linear,
}

/// How files are worked on: subtitles that are there need no speech recognition, whatever is said
/// of checking.
pub fn mode_of(from_srt: bool, qc_enabled: bool) -> (r: Mode)
    ensures
        r == (if from_srt {
            Mode::FromSrt
        } else if qc_enabled {
            Mode::WithQc
        } else {
            Mode::Linear
        }),
{
    if from_srt {
        Mode::FromSrt
    } else if qc_enabled {
        Mode::WithQc
    } else {
        Mode::Linear
    }
}

/// Whether sentences are checked.
pub fn checks_sentences(from_srt: bool, qc_enabled: bool) -> (r: bool)
    ensures
        r == (qc_enabled && !from_srt),
{
    qc_enabled && !from_srt
}

/// What comes after the speech of a file is recognised.
#[derive(Clone, Copy, Debug, PartialEq, Eq, Structural)]
pub enum AfterSpeech {
    /// There is nothing to translate: the file has failed.
    NothingHeard,
    /// The recognised text is all that is wanted.
    Finished,
    /// The recognised text is translated.
    Translate,
}

/// What comes after the speech of a file is recognised, given how many subtitles there are.
pub fn after_speech(kept: usize, asr_only: bool) -> (r: AfterSpeech)
    ensures
        r == (if kept == 0 {
            AfterSpeech::NothingHeard
        } else if asr_only {
            AfterSpeech::Finished
        } else {
            AfterSpeech::Translate
        }),
{
    if kept == 0 {
        AfterSpeech::NothingHeard
    } else if asr_only {
        AfterSpeech::Finished
    } else {
        AfterSpeech::Translate
    }
}

/// The subtitles numbered from one.
pub open spec fn reindexed(list: Seq<SegmentView>) -> Seq<SegmentView> {
    Seq::new(list.len(), |i: int| SegmentView { index: i + 1, ..list[i] })
}

/// Numbers the subtitles from one.
pub fn reindex(segments: &mut Vec<SubtitleSegment>)
    ensures
        types::cues(final(segments)@) == reindexed(types::cues(old(segments)@)),
{
    let ghost all = types::cues(segments@);
    let n: usize = segments.len();
    for i in 0..n
        invariant
            n == segments@.len(),
            all.len() == n,
            all == types::cues(old(segments)@),
            forall|j: int|
                0 <= j < i ==> #[trigger] segments@[j]@ == (SegmentView { index: j + 1, ..all[j] }),
            forall|j: int| i <= j < n ==> #[trigger] segments@[j]@ == all[j],
    {
        let seg = segments[i].clone();
        let ghost before = segments@;
        assert(before[i as int]@ == all[i as int]);
        segments.set(
            i,
            SubtitleSegment {
                index: i + 1,
                start_ms: seg.start_ms,
                end_ms: seg.end_ms,
                text: seg.text,
            },
        );
        assert forall|j: int| 0 <= j < i + 1 implies #[trigger] segments@[j]@ == (SegmentView {
            index: j + 1,
            ..all[j]
        }) by {
            if j < i {
                assert(segments@[j] == before[j]);
            }
        }
    }
    assert(types::cues(segments@) =~= reindexed(all));
}

/// The translated subtitles as they are written: laid out if they are to be.
pub open spec fn to_write(
    list: Seq<SegmentView>,
    layout_enabled: bool,
    max_line_width: int,
    limits: Seq<CueLimit>,
) -> Seq<SegmentView> {
    if layout_enabled {
        cue::laid_out(list, max_line_width, limits)
    } else {
        list
    }
}

/// Lays translated subtitles out if they are to be; none if there is nothing to write.
pub fn finish_subtitles(
    translated: Vec<SubtitleSegment>,
    layout_enabled: bool,
    max_line_width: usize,
    limits: &Vec<CueLimit>,
) -> (r: Option<Vec<SubtitleSegment>>)
    requires
        layout_enabled ==> {
            &&& translated@.len() == limits@.len()
            &&& forall|i: int|
                0 <= i < translated@.len() && #[trigger] limits@[i].too_long ==> limits@[i].parts
                    > 0 && cue::split_fits(translated@[i]@, limits@[i])
            &&& cue::room_needed(types::cues(translated@)) < usize::MAX
        },
    ensures
        ({
            let out = to_write(
                types::cues(translated@),
                layout_enabled,
                max_line_width as int,
                limits@,
            );
            match r {
                Some(v) => types::cues(v@) == out && out.len() > 0,
                None => out.len() == 0,
            }
        }),
{
    let out: Vec<SubtitleSegment> = if layout_enabled {
        layout(translated.as_slice(), max_line_width, limits.as_slice())
    } else {
        translated
    };
    assert(types::cues(out@).len() == out@.len());
    if out.len() == 0 {
        None
    } else {
        Some(out)
    }
}

/// How many files count as failed: those that failed, or, where nothing could be begun, all of
/// them, and one at least.
pub fn failed_files(outcome: Option<usize>, files: usize) -> (r: usize)
    ensures
        r == (match outcome {
            Some(failed) => failed,
            None => if files < 1 {
                1usize
            } else {
                files
            },
        }),
{
    match outcome {
        Some(failed) => failed,
        None => if files < 1 {
            1
        } else {
            files
        },
    }
}

} // verus!
