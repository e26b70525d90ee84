//! Looking for a language model on disk.
//!
//! The search goes through directories in order, down to a depth, and takes the first model file.
//! It says which directory to list, and takes the list.

use vstd::prelude::*;

use crate::text::chars;
use crate::text::chars::{chars_of, string_of};
use crate::text::path;
use crate::text::path::{is_same_path, path_of};
use crate::text::table;
use crate::text::table::comes_before;
use crate::config::paths;
use crate::types;

verus! {

/// How deep the search goes.
pub const SEARCH_DEPTH: usize = 8;

/// One entry of a directory: its name there, and its path.
pub struct DirEntry {
    pub name: String,
    pub path: String,
    pub is_dir: bool,
}

pub struct EntryView {
    pub name: Seq<char>,
    pub path: Seq<char>,
    pub is_dir: bool,
}

impl View for DirEntry {
    type V = EntryView;

    open spec fn view(&self) -> EntryView {
        EntryView { name: self.name@, path: self.path@, is_dir: self.is_dir }
    }
}

pub open spec fn entry_views(list: Seq<DirEntry>) -> Seq<EntryView> {
    list.map_values(|e: DirEntry| e@)
}

/// A place that the search has still to look at: a file, or a directory with the depth left.
pub struct Place {
    pub path: String,
    pub is_dir: bool,
    pub depth: usize,
}

pub struct PlaceView {
    pub path: Seq<char>,
    pub is_dir: bool,
    pub depth: nat,
}

impl View for Place {
    type V = PlaceView;

    open spec fn view(&self) -> PlaceView {
        PlaceView { path: self.path@, is_dir: self.is_dir, depth: self.depth as nat }
    }
}

pub open spec fn place_views(list: Seq<Place>) -> Seq<PlaceView> {
    list.map_values(|p: Place| p@)
}

/// A model file by its name: the extension is `gguf`, in capitals or not.
pub open spec fn is_model(name: Seq<char>) -> bool {
    match paths::extension_of(name) {
        Some(e) => e.map_values(|c: char| types::ascii_lower(c)) == "gguf"@,
        None => false,
    }
}

/// The entries of a directory in the order of their names.
pub open spec fn in_name_order(list: Seq<EntryView>) -> bool {
    forall|i: int, j: int|
        0 <= i < j < list.len() ==> !table::text_before(
            #[trigger] list[j].name,
            #[trigger] list[i].name,
        )
}

/// The models below a directory, `depth` levels down, where `listing` gives the entries of each
/// directory in the order of their names.
pub open spec fn models_below(
    listing: spec_fn(Seq<char>) -> Seq<EntryView>,
    dir: Seq<char>,
    depth: nat,
) -> Seq<Seq<char>>
    decreases 2 * depth, 0nat,
{
    if depth == 0 {
        Seq::empty()
    } else {
        models_among(listing, listing(dir), depth)
    }
}

/// The models among some entries of a directory and below them.
pub open spec fn models_among(
    listing: spec_fn(Seq<char>) -> Seq<EntryView>,
    entries: Seq<EntryView>,
    depth: nat,
) -> Seq<Seq<char>>
    decreases 2 * depth - 1, entries.len(),
    when depth > 0
{
    if entries.len() == 0 {
        Seq::empty()
    } else {
        let e = entries[0];
        (if e.is_dir {
            models_below(listing, e.path, (depth - 1) as nat)
        } else if is_model(e.name) {
            seq![e.path]
        } else {
            Seq::empty()
        }) + models_among(listing, entries.drop_first(), depth)
    }
}

/// The models at the places that are still to be looked at, the last place first.
pub open spec fn models_at(
    listing: spec_fn(Seq<char>) -> Seq<EntryView>,
    places: Seq<PlaceView>,
) -> Seq<Seq<char>>
    decreases places.len(),
{
    if places.len() == 0 {
        Seq::empty()
    } else {
        let p = places.last();
        (if p.is_dir {
            models_below(listing, p.path, p.depth)
        } else {
            seq![p.path]
        }) + models_at(listing, places.drop_last())
    }
}

/// A search: the models found, and the places that are still to be looked at.
pub struct ModelSearch {
    pub found: Vec<String>,
    pub places: Vec<Place>,
}

#[verifier::ext_equal]
pub struct SearchView {
    pub found: Seq<Seq<char>>,
    pub places: Seq<PlaceView>,
}

impl View for ModelSearch {
    type V = SearchView;

    open spec fn view(&self) -> SearchView {
        SearchView { found: chars::views(self.found@), places: place_views(self.places@) }
    }
}

/// All that a search has found and will find.
pub open spec fn outcome(
    s: SearchView,
    listing: spec_fn(Seq<char>) -> Seq<EntryView>,
) -> Seq<Seq<char>> {
    s.found + models_at(listing, s.places)
}

/// A place of a directory entry, if it is worth looking at.
pub open spec fn entry_place(e: EntryView, depth: nat) -> Seq<PlaceView> {
    if e.is_dir || is_model(e.name) {
        seq![PlaceView { path: e.path, is_dir: e.is_dir, depth }]
    } else {
        Seq::empty()
    }
}

/// The places of directory entries, the first entry last.
pub open spec fn entry_places(entries: Seq<EntryView>, depth: nat) -> Seq<PlaceView>
    decreases entries.len(),
{
    if entries.len() == 0 {
        Seq::empty()
    } else {
        entry_places(entries.drop_first(), depth) + entry_place(entries[0], depth)
    }
}

/// The directory to list next, if there is one.
pub open spec fn next_dir(s: SearchView) -> Option<Seq<char>> {
    if s.places.len() > 0 && s.places.last().is_dir && s.places.last().depth > 0 {
        Some(s.places.last().path)
    } else {
        None
    }
}

/// The search with its last place looked at, as far as no directory has to be listed.
pub open spec fn advanced(s: SearchView) -> SearchView
    decreases s.places.len(),
{
    if s.places.len() == 0 || next_dir(s) is Some {
        s
    } else {
        let p = s.places.last();
        advanced(
            SearchView {
                found: if p.is_dir {
                    s.found
                } else {
                    s.found.push(p.path)
                },
                places: s.places.drop_last(),
            },
        )
    }
}

/// The search after the entries of the next directory are known.
pub open spec fn listed(s: SearchView, entries: Seq<EntryView>) -> SearchView {
    let p = s.places.last();
    advanced(
        SearchView {
            found: s.found,
            places: s.places.drop_last() + entry_places(entries, (p.depth - 1) as nat),
        },
    )
}

/// Whether a name is that of a model file.
pub fn names_model(name: &str) -> (r: bool)
    ensures
        r == is_model(name@),
{
    let input = paths::InputPath { parent: None, file_name: Some(lower_name(name)) };
    proof {
        lemma_lower_extension(name@);
    }
    input.has_extension("gguf")
}

/// The name in lower case.
pub open spec fn lowered(name: Seq<char>) -> Seq<char> {
    name.map_values(|c: char| types::ascii_lower(c))
}

fn lower_name(name: &str) -> (r: String)
    ensures
        r@ == lowered(name@),
{
    let v = chars_of(name);
    let mut out: Vec<char> = Vec::new();
    for i in 0..v.len()
        invariant
            v@ == name@,
            out@.len() == i,
            forall|j: int| 0 <= j < i ==> #[trigger] out@[j] == types::ascii_lower(name@[j]),
    {
        out.push(types::lower(v[i]));
    }
    assert(out@ =~= lowered(name@));
    string_of(out.as_slice())
}

proof fn lemma_lower_dot(name: Seq<char>)
    ensures
        crate::llm::reply::last_of(lowered(name), '.') == crate::llm::reply::last_of(name, '.'),
    decreases name.len(),
{
    let low = lowered(name);
    if name.len() > 0 {
        assert(low.drop_last() =~= lowered(name.drop_last()));
        lemma_lower_dot(name.drop_last());
    }
}

proof fn lemma_lower_extension(name: Seq<char>)
    ensures
        match paths::extension_of(name) {
            Some(e) => paths::extension_of(lowered(name)) == Some(lowered(e)),
            None => paths::extension_of(lowered(name)) is None,
        },
{
    lemma_lower_dot(name);
    let low = lowered(name);
    let dots = seq!['.', '.'];
    assert(low == dots <==> name == dots) by {
        if low == dots {
            assert(name.len() == 2);
            assert(low[0] == '.' && low[1] == '.');
            assert(name =~= dots);
        }
        if name == dots {
            assert(low =~= dots);
        }
    }
    match crate::llm::reply::last_of(name, '.') {
        Some(i) => {
            lemma_last_of(name);
            assert(low.skip(i + 1) =~= lowered(name.skip(i + 1)));
        },
        None => {},
    }
}

proof fn lemma_last_of(name: Seq<char>)
    ensures
        match crate::llm::reply::last_of(name, '.') {
            Some(i) => 0 <= i < name.len(),
            None => true,
        },
    decreases name.len(),
{
    if name.len() > 0 {
        lemma_last_of(name.drop_last());
    }
}

/// Looking at the last place changes nothing of what the search will have found.
proof fn lemma_advanced(s: SearchView, listing: spec_fn(Seq<char>) -> Seq<EntryView>)
    ensures
        outcome(advanced(s), listing) == outcome(s, listing),
    decreases s.places.len(),
{
    if s.places.len() > 0 && next_dir(s) is None {
        let p = s.places.last();
        let t = SearchView {
            found: if p.is_dir {
                s.found
            } else {
                s.found.push(p.path)
            },
            places: s.places.drop_last(),
        };
        lemma_advanced(t, listing);
        let rest = models_at(listing, s.places.drop_last());
        if p.is_dir {
            assert(Seq::<Seq<char>>::empty() + rest =~= rest);
        } else {
            assert(s.found + (seq![p.path] + rest) =~= s.found.push(p.path) + rest);
        }
    }
}

proof fn lemma_models_at_add(
    listing: spec_fn(Seq<char>) -> Seq<EntryView>,
    a: Seq<PlaceView>,
    b: Seq<PlaceView>,
)
    ensures
        models_at(listing, a + b) == models_at(listing, b) + models_at(listing, a),
    decreases b.len(),
{
    if b.len() == 0 {
        assert(a + b =~= a);
        assert(models_at(listing, b) + models_at(listing, a) =~= models_at(listing, a));
    } else {
        assert((a + b).drop_last() =~= a + b.drop_last());
        lemma_models_at_add(listing, a, b.drop_last());
        let p = b.last();
        let here = if p.is_dir {
            models_below(listing, p.path, p.depth)
        } else {
            seq![p.path]
        };
        assert(here + (models_at(listing, b.drop_last()) + models_at(listing, a)) =~= here
            + models_at(listing, b.drop_last()) + models_at(listing, a));
    }
}

proof fn lemma_entry_places(
    listing: spec_fn(Seq<char>) -> Seq<EntryView>,
    entries: Seq<EntryView>,
    depth: nat,
)
    requires
        depth > 0,
    ensures
        models_at(listing, entry_places(entries, (depth - 1) as nat)) == models_among(
            listing,
            entries,
            depth,
        ),
    decreases entries.len(),
{
    if entries.len() > 0 {
        let d = (depth - 1) as nat;
        let rest = entries.drop_first();
        lemma_entry_places(listing, rest, depth);
        let one = entry_place(entries[0], d);
        lemma_models_at_add(listing, entry_places(rest, d), one);
        let e = entries[0];
        let here = if e.is_dir {
            models_below(listing, e.path, d)
        } else if is_model(e.name) {
            seq![e.path]
        } else {
            Seq::empty()
        };
        assert(models_at(listing, one) =~= here) by {
            if one.len() > 0 {
                assert(one.drop_last() =~= Seq::<PlaceView>::empty());
                assert(models_at(listing, Seq::<PlaceView>::empty()) =~= Seq::empty());
            }
        }
    }
}

/// Listing directories in turn finds what there is: if the entries of the next directory are as
/// `listing` says, the search will find the same after it as before, in the same order. A search
/// with nothing left to look at has found it.
pub proof fn law_search_finds_what_there_is(
    s: SearchView,
    listing: spec_fn(Seq<char>) -> Seq<EntryView>,
)
    ensures
        next_dir(s) is Some ==> outcome(listed(s, listing(next_dir(s).unwrap())), listing)
            == outcome(s, listing),
        s.places.len() == 0 ==> outcome(s, listing) == s.found,
{
    if next_dir(s) is Some {
        let p = s.places.last();
        let entries = listing(p.path);
        let d = (p.depth - 1) as nat;
        let more = entry_places(entries, d);
        let t = SearchView { found: s.found, places: s.places.drop_last() + more };
        lemma_advanced(t, listing);
        lemma_models_at_add(listing, s.places.drop_last(), more);
        lemma_entry_places(listing, entries, p.depth);
    }
    if s.places.len() == 0 {
        assert(s.found + models_at(listing, s.places) =~= s.found);
    }
}

/// After a listing, a search that wants no other has nothing left to look at.
pub proof fn lemma_listed(s: SearchView, entries: Seq<EntryView>)
    ensures
        next_dir(listed(s, entries)) is None ==> listed(s, entries).places.len() == 0,
{
    let p = s.places.last();
    lemma_at_rest(
        SearchView {
            found: s.found,
            places: s.places.drop_last() + entry_places(entries, (p.depth - 1) as nat),
        },
    );
}

proof fn lemma_at_rest(s: SearchView)
    ensures
        next_dir(advanced(s)) is None ==> advanced(s).places.len() == 0,
    decreases s.places.len(),
{
    if s.places.len() > 0 && next_dir(s) is None {
        let p = s.places.last();
        lemma_at_rest(
            SearchView {
                found: if p.is_dir {
                    s.found
                } else {
                    s.found.push(p.path)
                },
                places: s.places.drop_last(),
            },
        );
    }
}

/// Puts the entries of a directory into the order of their names.
fn sort_entries(entries: Vec<DirEntry>) -> (r: Vec<DirEntry>)
    ensures
        in_name_order(entry_views(r@)),
        entry_views(r@).to_multiset() == entry_views(entries@).to_multiset(),
{
    let mut out: Vec<DirEntry> = Vec::new();
    let ghost all = entry_views(entries@);
    assert(entry_views(out@) =~= all.take(0));
    for e in it: entries
        invariant
            it.seq() == entries@,
            all == entry_views(entries@),
            in_name_order(entry_views(out@)),
            entry_views(out@).to_multiset() == all.take(it.index() as int).to_multiset(),
    {
        let ghost k = it.index() as int;
        let ghost before = entry_views(out@);
        assert(all[k] == e@);
        let n: usize = out.len();
        let mut at: usize = n;
        while at > 0 && comes_before(e.name.as_str(), out[at - 1].name.as_str())
            invariant
                n == out@.len(),
                at <= n,
                before == entry_views(out@),
                forall|j: int| at <= j < n ==> table::text_before(e@.name, #[trigger] before[j].name),
            decreases at,
        {
            assert(before[at - 1] == out@[at - 1]@);
            at = at - 1;
        }
        out.insert(at, e);
        proof {
            let after = entry_views(out@);
            assert(after =~= before.insert(at as int, e@));
            lemma_insert_in_order(before, e@, at as int);
            before.insert_ensures(at as int, e@);
            lemma_insert_multiset(before, e@, at as int);
            assert(all.take(k + 1) =~= all.take(k).push(all[k]));
            vstd::seq_lib::to_multiset_build(all.take(k), all[k]);
        }
    }
    assert(all.take(all.len() as int) =~= all);
    out
}

proof fn lemma_insert_multiset(list: Seq<EntryView>, e: EntryView, at: int)
    requires
        0 <= at <= list.len(),
    ensures
        list.insert(at, e).to_multiset() == list.to_multiset().insert(e),
    decreases list.len() - at,
{
    broadcast use vstd::seq_lib::group_to_multiset_ensures;
    broadcast use vstd::multiset::group_multiset_axioms;
    broadcast use vstd::multiset::group_multiset_properties;

    let all = list.insert(at, e);
    assert(all.remove(at) =~= list);
    assert(all[at] == e);
    assert(all.remove(at).to_multiset() == all.to_multiset().remove(e));
    assert(all.contains(e)) by {
        assert(all[at] == e);
    }
    assert(all.to_multiset().count(e) > 0);
    assert(all.to_multiset() =~= list.to_multiset().insert(e));
}

proof fn lemma_insert_in_order(list: Seq<EntryView>, e: EntryView, at: int)
    requires
        in_name_order(list),
        0 <= at <= list.len(),
        forall|j: int| at <= j < list.len() ==> table::text_before(e.name, #[trigger] list[j].name),
        at > 0 ==> !table::text_before(e.name, list[at - 1].name),
    ensures
        in_name_order(list.insert(at, e)),
{
    let all = list.insert(at, e);
    assert forall|i: int, j: int| 0 <= i < j < all.len() implies !table::text_before(
        #[trigger] all[j].name,
        #[trigger] all[i].name,
    ) by {
        if j < at {
            assert(all[i] == list[i] && all[j] == list[j]);
        } else if j == at {
            assert(all[i] == list[i]);
            if i < at - 1 {
                if table::text_before(e.name, list[i].name) {
                    table::lemma_before_total(list[at - 1].name, list[i].name);
                    assert(!table::text_before(list[at - 1].name, list[i].name));
                    if list[at - 1].name != list[i].name {
                        table::lemma_before_transitive(
                            e.name,
                            list[i].name,
                            list[at - 1].name,
                        );
                    }
                }
            }
        } else {
            assert(all[j] == list[j - 1]);
            if i < at {
                assert(all[i] == list[i]);
            } else if i == at {
                table::lemma_before_total(list[j - 1].name, e.name);
            } else {
                assert(all[i] == list[i - 1]);
            }
        }
    }
}

impl ModelSearch {
    /// A search below a directory.
    pub fn start(root: String) -> (r: Self)
        ensures
            r@.found == Seq::<Seq<char>>::empty(),
            r@.places == seq![
                PlaceView { path: root@, is_dir: true, depth: SEARCH_DEPTH as nat },
            ],
    {
        let places = vec![Place { path: root, is_dir: true, depth: SEARCH_DEPTH }];
        let r = ModelSearch { found: Vec::new(), places };
        assert(chars::views(r.found@) =~= Seq::<Seq<char>>::empty());
        assert(place_views(r.places@) =~= seq![
            PlaceView { path: root@, is_dir: true, depth: SEARCH_DEPTH as nat },
        ]);
        r
    }

    /// The directory to list next.
    pub fn wants(&self) -> (r: Option<&str>)
        ensures
            match r {
                Some(d) => next_dir(self@) == Some(d@),
                None => next_dir(self@) is None,
            },
    {
        let n: usize = self.places.len();
        assert(self@.places.len() == n);
        if n > 0 && self.places[n - 1].is_dir && self.places[n - 1].depth > 0 {
            assert(self@.places.last() == self.places@[n - 1]@);
            Some(self.places[n - 1].path.as_str())
        } else {
            if n > 0 {
                assert(self@.places.last() == self.places@[n - 1]@);
            }
            None
        }
    }

    /// Looks at the places that need no listing.
    fn advance(self) -> (r: Self)
        ensures
            r@ == advanced(self@),
    {
        let ghost want = advanced(self@);
        let ModelSearch { found, places } = self;
        let mut found: Vec<String> = found;
        let mut places: Vec<Place> = places;
        let mut n: usize = places.len();
        while n > 0 && !(places[n - 1].is_dir && places[n - 1].depth > 0)
            invariant
                n == places@.len(),
                want == advanced(
                    SearchView { found: chars::views(found@), places: place_views(places@) },
                ),
            decreases n,
        {
            let ghost before = place_views(places@);
            let ghost had = chars::views(found@);
            assert(before.last() == places@[n - 1]@);
            let p = places.pop();
            assert(place_views(places@) =~= before.drop_last());
            if let Some(p) = p {
                if !p.is_dir {
                    found.push(p.path);
                    assert(chars::views(found@) =~= had.push(before.last().path));
                }
            }
            n = n - 1;
        }
        proof {
            if n > 0 {
                assert(place_views(places@).last() == places@[n - 1]@);
            }
        }
        ModelSearch { found, places }
    }

    /// Takes the entries of the directory that was to be listed.
    pub fn take_listing(self, entries: Vec<DirEntry>) -> (r: Self)
        requires
            next_dir(self@) is Some,
        ensures
            exists|sorted: Seq<EntryView>|
                {
                    &&& in_name_order(sorted)
                    &&& sorted.to_multiset() == entry_views(entries@).to_multiset()
                    &&& r@ == #[trigger] listed(self@, sorted)
                },
    {
        let ghost before = self@;
        let sorted = sort_entries(entries);
        let ModelSearch { found, places } = self;
        let mut places: Vec<Place> = places;
        let n: usize = places.len();
        assert(before.places.len() == n);
        let depth: usize = places[n - 1].depth - 1;
        assert(before.places.last() == places@[n - 1]@);
        places.pop();
        let ghost base = place_views(places@);
        assert(base =~= before.places.drop_last());
        let ghost list = entry_views(sorted@);
        let mut k: usize = sorted.len();
        assert(list.skip(k as int) =~= Seq::<EntryView>::empty());
        assert(base + Seq::<PlaceView>::empty() =~= base);
        while k > 0
            invariant
                k <= sorted@.len(),
                list == entry_views(sorted@),
                place_views(places@) == base + entry_places(list.skip(k as int), depth as nat),
            decreases k,
        {
            k = k - 1;
            let e = &sorted[k];
            let ghost now = place_views(places@);
            let ghost rest = list.skip(k as int);
            proof {
                assert(rest.drop_first() =~= list.skip(k + 1));
                assert(rest[0] == e@);
            }
            let worth: bool = e.is_dir || names_model(e.name.as_str());
            if worth {
                places.push(Place { path: e.path.clone(), is_dir: e.is_dir, depth });
                assert(place_views(places@) =~= now + entry_place(e@, depth as nat));
            } else {
                assert(now + Seq::<PlaceView>::empty() =~= now);
            }
            assert(base + (entry_places(list.skip(k + 1), depth as nat) + entry_place(
                e@,
                depth as nat,
            )) =~= base + entry_places(list.skip(k + 1), depth as nat) + entry_place(
                e@,
                depth as nat,
            ));
        }
        assert(list.skip(0) =~= list);
        let t = ModelSearch { found, places };
        let r = t.advance();
        assert(r@ == listed(before, list));
        r
    }

    /// The first model found; the search is over if nothing is left to look at.
    pub fn first(&self) -> (r: Option<&str>)
        ensures
            match r {
                Some(t) => self@.found.len() > 0 && t@ == self@.found[0],
                None => self@.found.len() == 0,
            },
    {
        assert(self@.found.len() == self.found@.len());
        if self.found.len() > 0 {
            Some(self.found[0].as_str())
        } else {
            None
        }
    }
}

/// Whether a path is in a list.
pub open spec fn has_path(list: Seq<Seq<char>>, p: Seq<char>, separator: char) -> bool {
    exists|i: int| 0 <= i < list.len() && path::same_path(#[trigger] list[i], p, separator)
}

/// The directories to search, in order and each once: the one beside the work, the one beside the
/// program, and the one above the speech model if there is such a directory.
pub open spec fn search_roots(
    local: Seq<char>,
    beside_exe: Seq<char>,
    above_asr: Option<Seq<char>>,
    separator: char,
) -> Seq<Seq<char>> {
    let two = if path::same_path(local, beside_exe, separator) {
        seq![local]
    } else {
        seq![local, beside_exe]
    };
    match above_asr {
        Some(d) => if has_path(two, d, separator) {
            two
        } else {
            two.push(d)
        },
        None => two,
    }
}

/// Whether a path is in a list.
fn list_has_path(list: &Vec<String>, p: &str, separator: char) -> (r: bool)
    ensures
        r == has_path(chars::views(list@), p@, separator),
{
    let ghost all = chars::views(list@);
    for i in 0..list.len()
        invariant
            all == chars::views(list@),
            forall|j: int| 0 <= j < i ==> !path::same_path(#[trigger] all[j], p@, separator),
    {
        assert(all[i as int] == list@[i as int]@);
        if is_same_path(list[i].as_str(), p, separator) {
            return true;
        }
    }
    false
}

/// The directories to search for a language model, given the character that stands between the parts
/// of a path.
pub fn model_roots(exe_dir: &str, above_asr: Option<String>, separator: char) -> (r: Vec<String>)
    ensures
        chars::views(r@) == search_roots(
            "./models"@,
            path::file_in(exe_dir@, "models"@, separator),
            paths::text_view(above_asr),
            separator,
        ),
{
    let mut roots = vec!["./models".to_string()];
    let beside = path_of(exe_dir, "models", separator);
    assert(chars::views(roots@) =~= seq!["./models"@]);
    if !is_same_path("./models", beside.as_str(), separator) {
        roots.push(beside);
        assert(chars::views(roots@) =~= seq![
            "./models"@,
            path::file_in(exe_dir@, "models"@, separator),
        ]);
    }
    if let Some(d) = above_asr {
        let ghost two = chars::views(roots@);
        if !list_has_path(&roots, d.as_str(), separator) {
            roots.push(d);
            assert(chars::views(roots@) =~= two.push(d@));
        }
    }
    roots
}

} // verus!
