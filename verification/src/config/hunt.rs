//! Looking for a language model in one directory after the other.

use vstd::prelude::*;

use crate::config::models;
use crate::config::models::{DirEntry, EntryView, ModelSearch, PlaceView, SearchView};
use crate::text::chars;

verus! {

/// A search in one directory after the other, until one of them holds a model.
pub struct ModelHunt {
    /// The directories to search.
    pub roots: Vec<String>,
    /// The first of them that is not begun.
    pub next: usize,
    /// The search that is going on.
    pub search: ModelSearch,
}

#[verifier::ext_equal]
pub struct HuntView {
    pub left: Seq<Seq<char>>,
    pub search: SearchView,
}

impl View for ModelHunt {
    type V = HuntView;

    open spec fn view(&self) -> HuntView {
        HuntView { left: chars::views(self.roots@).skip(self.next as int), search: self.search@ }
    }
}

/// A search below a directory that has just begun.
pub open spec fn begun(root: Seq<char>) -> SearchView {
    SearchView {
        found: Seq::empty(),
        places: seq![
            PlaceView { path: root, is_dir: true, depth: models::SEARCH_DEPTH as nat },
        ],
    }
}

/// Goes on to the next directory if the last one is done with and held no model.
pub open spec fn gone_on(h: HuntView) -> HuntView {
    if models::next_dir(h.search) is None && h.search.found.len() == 0 && h.left.len() > 0 {
        HuntView { left: h.left.drop_first(), search: begun(h.left[0]) }
    } else {
        h
    }
}

/// The models in the first directory that holds any.
pub open spec fn first_models(
    roots: Seq<Seq<char>>,
    listing: spec_fn(Seq<char>) -> Seq<EntryView>,
) -> Seq<Seq<char>>
    decreases roots.len(),
{
    if roots.len() == 0 {
        Seq::empty()
    } else {
        let here = models::models_below(listing, roots[0], models::SEARCH_DEPTH as nat);
        if here.len() > 0 {
            here
        } else {
            first_models(roots.drop_first(), listing)
        }
    }
}

/// The models that a hunt has found or will find.
pub open spec fn catch(
    h: HuntView,
    listing: spec_fn(Seq<char>) -> Seq<EntryView>,
) -> Seq<Seq<char>> {
    let here = models::outcome(h.search, listing);
    if here.len() > 0 {
        here
    } else {
        first_models(h.left, listing)
    }
}

/// A hunt that wants no listing is over: it has found something, or there is nothing left to search.
pub open spec fn hunt_valid(h: HuntView) -> bool {
    models::next_dir(h.search) is None ==> {
        &&& h.search.places.len() == 0
        &&& h.search.found.len() > 0 || h.left.len() == 0
    }
}

impl ModelHunt {
    pub open spec fn valid(&self) -> bool {
        &&& self.next <= self.roots@.len()
        &&& hunt_valid(self@)
    }

    /// Begins with the first directory.
    pub fn start(roots: Vec<String>) -> (r: Self)
        ensures
            r.valid(),
            r@ == gone_on(
                HuntView {
                    left: chars::views(roots@),
                    search: SearchView { found: Seq::empty(), places: Seq::empty() },
                },
            ),
    {
        let search = ModelSearch { found: Vec::new(), places: Vec::new() };
        let h = ModelHunt { roots, next: 0, search };
        proof {
            assert(chars::views(roots@).skip(0) =~= chars::views(roots@));
            assert(h@.search.found =~= Seq::<Seq<char>>::empty());
            assert(h@.search.places =~= Seq::<PlaceView>::empty());
        }
        h.go_on()
    }

    /// Goes on to the next directory if the last one is done with and held no model.
    fn go_on(self) -> (r: Self)
        requires
            self.next <= self.roots@.len(),
            models::next_dir(self.search@) is None ==> self.search@.places.len() == 0,
        ensures
            r.valid(),
            r@ == gone_on(self@),
    {
        let ghost before = self@;
        let over: bool = self.search.wants().is_none() && self.search.first().is_none();
        assert(before.left.len() == self.roots@.len() - self.next);
        if over && self.next < self.roots.len() {
            let ModelHunt { roots, next, search: _ } = self;
            let search = ModelSearch::start(roots[next].clone());
            let r = ModelHunt { roots, next: next + 1, search };
            proof {
                assert(before.left[0] == roots@[next as int]@);
                assert(r@.left =~= before.left.drop_first());
                assert(r@.search =~= begun(before.left[0]));
                assert(models::next_dir(r@.search) is Some);
            }
            r
        } else {
            self
        }
    }

    /// The directory to list next; none if the hunt is over.
    pub fn wants(&self) -> (r: Option<&str>)
        ensures
            match r {
                Some(d) => models::next_dir(self@.search) == Some(d@),
                None => models::next_dir(self@.search) is None,
            },
    {
        self.search.wants()
    }

    /// Takes the entries of the directory that was to be listed.
    pub fn take_listing(self, entries: Vec<DirEntry>) -> (r: Self)
        requires
            self.valid(),
            models::next_dir(self@.search) is Some,
        ensures
            r.valid(),
            exists|sorted: Seq<EntryView>|
                {
                    &&& models::in_name_order(sorted)
                    &&& sorted.to_multiset() == models::entry_views(entries@).to_multiset()
                    &&& r@ == gone_on(
                        HuntView {
                            left: self@.left,
                            search: #[trigger] models::listed(self@.search, sorted),
                        },
                    )
                },
    {
        let ghost before = self@;
        let ModelHunt { roots, next, search } = self;
        let search = search.take_listing(entries);
        proof {
            let sorted = choose|sorted: Seq<EntryView>|
                {
                    &&& models::in_name_order(sorted)
                    &&& sorted.to_multiset() == models::entry_views(entries@).to_multiset()
                    &&& search@ == #[trigger] models::listed(before.search, sorted)
                };
            models::lemma_listed(before.search, sorted);
        }
        let h = ModelHunt { roots, next, search };
        assert(h@ == (HuntView { left: before.left, search: search@ }));
        h.go_on()
    }

    /// The first model, once the hunt is over.
    pub fn first(&self) -> (r: Option<&str>)
        ensures
            match r {
                Some(t) => self@.search.found.len() > 0 && t@ == self@.search.found[0],
                None => self@.search.found.len() == 0,
            },
    {
        self.search.first()
    }
}

proof fn lemma_begun(root: Seq<char>, listing: spec_fn(Seq<char>) -> Seq<EntryView>)
    ensures
        models::outcome(begun(root), listing) == models::models_below(
            listing,
            root,
            models::SEARCH_DEPTH as nat,
        ),
{
    let places = begun(root).places;
    let here = models::models_below(listing, root, models::SEARCH_DEPTH as nat);
    assert(places.drop_last() =~= Seq::<PlaceView>::empty());
    assert(models::models_at(listing, places.drop_last()) =~= Seq::<Seq<char>>::empty());
    assert(models::models_at(listing, places) =~= here);
    assert(Seq::<Seq<char>>::empty() + here =~= here);
}

proof fn lemma_gone_on(h: HuntView, listing: spec_fn(Seq<char>) -> Seq<EntryView>)
    requires
        models::next_dir(h.search) is None ==> h.search.places.len() == 0,
    ensures
        catch(gone_on(h), listing) == catch(h, listing),
{
    models::law_search_finds_what_there_is(h.search, listing);
    if h.left.len() > 0 {
        lemma_begun(h.left[0], listing);
    }
}

/// A hunt ends with the models of the first directory that holds any: at the start that is what it
/// will find, listing a directory changes nothing of that, and when the hunt is over, that is what it
/// has found. The entries of the directories are as `listing` says.
pub proof fn law_hunt_takes_the_first_directory(
    h: HuntView,
    roots: Seq<Seq<char>>,
    listing: spec_fn(Seq<char>) -> Seq<EntryView>,
)
    requires
        hunt_valid(h),
    ensures
        catch(
            gone_on(
                HuntView {
                    left: roots,
                    search: SearchView { found: Seq::empty(), places: Seq::empty() },
                },
            ),
            listing,
        ) == first_models(roots, listing),
        match models::next_dir(h.search) {
            Some(dir) => catch(
                gone_on(
                    HuntView { left: h.left, search: models::listed(h.search, listing(dir)) },
                ),
                listing,
            ) == catch(h, listing),
            None => catch(h, listing) == h.search.found,
        },
{
    let idle = SearchView { found: Seq::empty(), places: Seq::empty() };
    models::law_search_finds_what_there_is(idle, listing);
    lemma_gone_on(HuntView { left: roots, search: idle }, listing);
    models::law_search_finds_what_there_is(h.search, listing);
    match models::next_dir(h.search) {
        Some(dir) => {
            let after = models::listed(h.search, listing(dir));
            models::lemma_listed(h.search, listing(dir));
            lemma_gone_on(HuntView { left: h.left, search: after }, listing);
        },
        None => {
            if h.search.found.len() == 0 {
                assert(h.search.found =~= first_models(h.left, listing));
            }
        },
    }
}

} // verus!
