//! Where libraries are looked for, and what is written.

use vstd::prelude::*;

use crate::pipeline;
use crate::runtime;
use crate::srt::cue;
use crate::types::SegmentView;

verus! {

/// A library is loaded from the first directory that has it, and by its name if none has.
pub proof fn law_the_first_directory_counts(present: Seq<bool>)
    ensures
        match runtime::first_present(present) {
            Some(k) => {
                &&& 0 <= k < present.len() && present[k]
                &&& forall|j: int| 0 <= j < k ==> !#[trigger] present[j]
            },
            None => forall|j: int| 0 <= j < present.len() ==> !#[trigger] present[j],
        },
    decreases present.len(),
{
    if present.len() > 0 && !present[0] {
        let rest = present.drop_first();
        law_the_first_directory_counts(rest);
        match runtime::first_present(rest) {
            Some(k) => {
                assert(present[k + 1] == rest[k]);
                assert forall|j: int| 0 <= j < k + 1 implies !#[trigger] present[j] by {
                    if j > 0 {
                        assert(present[j] == rest[j - 1]);
                    }
                }
            },
            None => {
                assert forall|j: int| 0 <= j < present.len() implies !#[trigger] present[j] by {
                    if j > 0 {
                        assert(present[j] == rest[j - 1]);
                    }
                }
            },
        }
    }
}

/// Libraries are looked for in the directories that exist, in the order given, and in no others.
pub proof fn law_existing_directories_are_searched(
    dirs: Seq<Seq<char>>,
    exists: Seq<bool>,
    dir: Seq<char>,
    here: bool,
)
    requires
        dirs.len() == exists.len(),
    ensures
        runtime::existing(Seq::empty(), Seq::empty()) == Seq::<Seq<char>>::empty(),
        here ==> runtime::existing(dirs.push(dir), exists.push(here)) == runtime::existing(
            dirs,
            exists,
        ).push(dir),
        !here ==> runtime::existing(dirs.push(dir), exists.push(here)) == runtime::existing(
            dirs,
            exists,
        ),
{
    assert(dirs.push(dir).drop_last() =~= dirs);
    assert(exists.push(here).drop_last() =~= exists);
}

/// Numbering subtitles anew changes their numbers only, which go up from one.
pub proof fn law_numbering_changes_numbers_only(list: Seq<SegmentView>)
    ensures
        pipeline::reindexed(list).len() == list.len(),
        forall|i: int|
            0 <= i < list.len() ==> {
                let s = #[trigger] pipeline::reindexed(list)[i];
                &&& s.index == i + 1
                &&& s.start_ms == list[i].start_ms && s.end_ms == list[i].end_ms
                &&& s.text == list[i].text
            },
        pipeline::reindexed(pipeline::reindexed(list)) == pipeline::reindexed(list),
{
    assert(pipeline::reindexed(pipeline::reindexed(list)) =~= pipeline::reindexed(list));
}

/// Translated subtitles are written as they are unless they are to be laid out.
pub proof fn law_subtitles_are_laid_out_if_wanted(
    list: Seq<SegmentView>,
    max_line_width: int,
    limits: Seq<cue::CueLimit>,
)
    ensures
        pipeline::to_write(list, false, max_line_width, limits) == list,
        pipeline::to_write(list, true, max_line_width, limits) == cue::laid_out(
            list,
            max_line_width,
            limits,
        ),
{
}

/// As many layers go to the graphics card as are asked for; where that is left to the machine, all of
/// them if it can take any, which 999 is more than enough for, and none otherwise.
pub proof fn law_layers_are_as_asked_for(gpu_layers: int, llm_cuda: bool)
    ensures
        gpu_layers >= 0 ==> runtime::layers_for(gpu_layers, llm_cuda) == gpu_layers,
        gpu_layers < 0 && !llm_cuda ==> runtime::layers_for(gpu_layers, llm_cuda) == 0,
        gpu_layers < 0 && llm_cuda ==> runtime::layers_for(gpu_layers, llm_cuda) == 999,
{
}

} // verus!
