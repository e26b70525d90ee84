//! Which models a search finds, and where it looks.

use vstd::prelude::*;

use crate::config::models;
use crate::config::models::EntryView;
use crate::text::{path, table};

verus! {

/// A file is a model that can be reached from a directory: it is in it, or in one below it that can
/// be reached within one level fewer.
pub open spec fn reaches(
    listing: spec_fn(Seq<char>) -> Seq<EntryView>,
    dir: Seq<char>,
    levels: nat,
    file: Seq<char>,
) -> bool
    decreases levels,
{
    levels > 0 && exists|i: int|
        {
            let e = #[trigger] listing(dir)[i];
            &&& 0 <= i < listing(dir).len()
            &&& if e.is_dir {
                reaches(listing, e.path, (levels - 1) as nat, file)
            } else {
                models::is_model(e.name) && e.path == file
            }
        }
}

/// A search finds exactly the models that can be reached within its levels.
pub proof fn law_every_model_is_found(
    listing: spec_fn(Seq<char>) -> Seq<EntryView>,
    dir: Seq<char>,
    levels: nat,
    file: Seq<char>,
)
    ensures
        models::models_below(listing, dir, levels).contains(file) <==> reaches(
            listing,
            dir,
            levels,
            file,
        ),
    decreases levels, 1nat, 0nat,
{
    if levels > 0 {
        let all = listing(dir);
        lemma_found_among(listing, all, levels, file);
        if reaches(listing, dir, levels, file) {
            let i = choose|i: int|
                {
                    let e = #[trigger] listing(dir)[i];
                    &&& 0 <= i < listing(dir).len()
                    &&& if e.is_dir {
                        reaches(listing, e.path, (levels - 1) as nat, file)
                    } else {
                        models::is_model(e.name) && e.path == file
                    }
                };
            assert(entry_reaches(listing, all[i], levels, file));
        }
        if exists|i: int| 0 <= i < all.len() && entry_reaches(listing, #[trigger] all[i], levels, file) {
            let i = choose|i: int|
                0 <= i < all.len() && entry_reaches(listing, #[trigger] all[i], levels, file);
            let e = listing(dir)[i];
            assert(if e.is_dir {
                reaches(listing, e.path, (levels - 1) as nat, file)
            } else {
                models::is_model(e.name) && e.path == file
            });
        }
    }
}

spec fn entry_reaches(
    listing: spec_fn(Seq<char>) -> Seq<EntryView>,
    e: EntryView,
    levels: nat,
    file: Seq<char>,
) -> bool {
    if e.is_dir {
        reaches(listing, e.path, (levels - 1) as nat, file)
    } else {
        models::is_model(e.name) && e.path == file
    }
}

proof fn lemma_found_among(
    listing: spec_fn(Seq<char>) -> Seq<EntryView>,
    entries: Seq<EntryView>,
    levels: nat,
    file: Seq<char>,
)
    requires
        levels > 0,
    ensures
        models::models_among(listing, entries, levels).contains(file) <==> exists|i: int|
            0 <= i < entries.len() && entry_reaches(listing, #[trigger] entries[i], levels, file),
    decreases levels, 0nat, entries.len(),
{
    let found = models::models_among(listing, entries, levels);
    if entries.len() > 0 {
        let e = entries[0];
        let rest = entries.drop_first();
        lemma_found_among(listing, rest, levels, file);
        law_every_model_is_found(listing, e.path, (levels - 1) as nat, file);
        let here = if e.is_dir {
            models::models_below(listing, e.path, (levels - 1) as nat)
        } else if models::is_model(e.name) {
            seq![e.path]
        } else {
            Seq::empty()
        };
        let more = models::models_among(listing, rest, levels);
        assert(found == here + more);
        lemma_contains_add(here, more, file);
        assert(here.contains(file) <==> entry_reaches(listing, e, levels, file)) by {
            if !e.is_dir && models::is_model(e.name) {
                assert(here[0] == e.path);
            }
        }
        if exists|i: int|
            0 <= i < rest.len() && entry_reaches(listing, #[trigger] rest[i], levels, file) {
            let i = choose|i: int|
                0 <= i < rest.len() && entry_reaches(listing, #[trigger] rest[i], levels, file);
            assert(entries[i + 1] == rest[i]);
        }
        if exists|i: int|
            0 <= i < entries.len() && entry_reaches(listing, #[trigger] entries[i], levels, file) {
            let i = choose|i: int|
                0 <= i < entries.len() && entry_reaches(
                    listing,
                    #[trigger] entries[i],
                    levels,
                    file,
                );
            if i > 0 {
                assert(rest[i - 1] == entries[i]);
            } else {
                assert(entries[0] == e);
            }
        }
        if entry_reaches(listing, e, levels, file) {
            assert(entry_reaches(listing, entries[0], levels, file));
        }
    }
}

proof fn lemma_contains_add(a: Seq<Seq<char>>, b: Seq<Seq<char>>, x: Seq<char>)
    ensures
        (a + b).contains(x) <==> a.contains(x) || b.contains(x),
{
    let all = a + b;
    if a.contains(x) {
        let k = choose|k: int| 0 <= k < a.len() && a[k] == x;
        assert(all[k] == x);
    }
    if b.contains(x) {
        let k = choose|k: int| 0 <= k < b.len() && b[k] == x;
        assert(all[a.len() + k] == x);
    }
    if all.contains(x) {
        let k = choose|k: int| 0 <= k < all.len() && all[k] == x;
        if k < a.len() {
            assert(a[k] == x);
        } else {
            assert(b[k - a.len()] == x);
        }
    }
}

/// What is found below the first entries of a directory comes before what is found below the others.
pub proof fn law_entries_are_searched_in_order(
    listing: spec_fn(Seq<char>) -> Seq<EntryView>,
    a: Seq<EntryView>,
    b: Seq<EntryView>,
    levels: nat,
)
    requires
        levels > 0,
    ensures
        models::models_among(listing, a + b, levels) == models::models_among(listing, a, levels)
            + models::models_among(listing, b, levels),
    decreases a.len(),
{
    let all = a + b;
    if a.len() == 0 {
        assert(all =~= b);
        assert(models::models_among(listing, a, levels) =~= Seq::<Seq<char>>::empty());
        assert(Seq::<Seq<char>>::empty() + models::models_among(listing, b, levels)
            =~= models::models_among(listing, b, levels));
    } else {
        let rest = a.drop_first();
        law_entries_are_searched_in_order(listing, rest, b, levels);
        assert(all[0] == a[0]);
        assert(all.drop_first() =~= rest + b);
        let e = a[0];
        let here = if e.is_dir {
            models::models_below(listing, e.path, (levels - 1) as nat)
        } else if models::is_model(e.name) {
            seq![e.path]
        } else {
            Seq::empty()
        };
        let x = models::models_among(listing, rest, levels);
        let y = models::models_among(listing, b, levels);
        assert(here + (x + y) =~= here + x + y);
    }
}

/// The directory beside the work is searched first, then the one beside the program, then the one
/// above the speech model; each of them is, and none of them twice.
pub proof fn law_each_directory_is_searched_once(
    local: Seq<char>,
    beside_exe: Seq<char>,
    above_asr: Option<Seq<char>>,
    separator: char,
)
    ensures
        ({
            let roots = models::search_roots(local, beside_exe, above_asr, separator);
            &&& roots.len() > 0 && roots[0] == local
            &&& path::same_path(local, beside_exe, separator) || roots.len() > 1 && roots[1]
                == beside_exe
            &&& above_asr matches Some(d) ==> roots.last() == d || exists|i: int|
                0 <= i < roots.len() && path::same_path(#[trigger] roots[i], d, separator)
            &&& forall|i: int, j: int|
                0 <= i < j < roots.len() ==> !path::same_path(
                    #[trigger] roots[i],
                    #[trigger] roots[j],
                    separator,
                )
        }),
{
    let two = if path::same_path(local, beside_exe, separator) {
        seq![local]
    } else {
        seq![local, beside_exe]
    };
    let roots = models::search_roots(local, beside_exe, above_asr, separator);
    if let Some(d) = above_asr {
        if !models::has_path(two, d, separator) {
            assert forall|i: int, j: int| 0 <= i < j < roots.len() implies !path::same_path(
                #[trigger] roots[i],
                #[trigger] roots[j],
                separator,
            ) by {
                if j == two.len() {
                    assert(two[i] == roots[i]);
                } else {
                    assert(two[i] == roots[i] && two[j] == roots[j]);
                }
            }
        }
    }
}

/// The path of a file in a directory that is neither empty nor ends with a separator is the
/// directory, one separator and the name; after a directory that ends with one, none is added.
pub proof fn law_files_are_in_their_directory(dir: Seq<char>, file: Seq<char>, separator: char)
    requires
        file.len() > 0 ==> file[0] != '/' && file[0] != separator,
        file.len() > 1 ==> file[1] != ':',
        dir.len() != 2,
    ensures
        dir.len() > 0 && dir.last() != '/' && dir.last() != separator ==> path::file_in(
            dir,
            file,
            separator,
        ) == dir.push(separator) + file,
        dir.len() == 0 || dir.last() == '/' || dir.last() == separator ==> path::file_in(
            dir,
            file,
            separator,
        ) == dir + file,
{
    assert(dir + seq![separator] + file =~= dir.push(separator) + file);
}

/// Of two names the one comes first that has the earlier character where they first differ, and a
/// name comes before what continues it.
pub proof fn law_names_are_ordered_by_their_first_difference(
    same: Seq<char>,
    x: char,
    a: Seq<char>,
    y: char,
    b: Seq<char>,
)
    requires
        x != y,
    ensures
        table::text_before(same + (seq![x] + a), same + (seq![y] + b)) <==> x < y,
        table::text_before(same, same + (seq![x] + a)),
        !table::text_before(same + (seq![x] + a), same),
    decreases same.len(),
{
    let p = same + (seq![x] + a);
    let q = same + (seq![y] + b);
    if same.len() > 0 {
        let rest = same.drop_first();
        law_names_are_ordered_by_their_first_difference(rest, x, a, y, b);
        assert(p.drop_first() =~= rest + (seq![x] + a));
        assert(q.drop_first() =~= rest + (seq![y] + b));
        assert(p[0] == same[0] && q[0] == same[0]);
    } else {
        assert(p[0] == x && q[0] == y);
    }
}

/// Entries are in order if no name comes before one that stands earlier.
pub proof fn law_entries_in_order(list: Seq<EntryView>, i: int, j: int)
    requires
        models::in_name_order(list),
        0 <= i < j < list.len(),
    ensures
        list[i].name == list[j].name || table::text_before(list[i].name, list[j].name),
{
    table::lemma_before_total(list[i].name, list[j].name);
}

} // verus!
