//! Texts by name.

use vstd::prelude::*;

use crate::text::chars::{chars_of, list_contains, same_text};
use crate::text::pieces::join_texts;
use crate::text::{chars, pieces};

verus! {

/// A table from names to texts; a later entry for a name replaces an earlier one.
pub struct TextMap {
    pub entries: Vec<(String, String)>,
}

pub open spec fn table(entries: Seq<(String, String)>) -> Map<Seq<char>, Seq<char>>
    decreases entries.len(),
{
    if entries.len() == 0 {
        Map::empty()
    } else {
        table(entries.drop_last()).insert(entries.last().0@, entries.last().1@)
    }
}

impl View for TextMap {
    type V = Map<Seq<char>, Seq<char>>;

    open spec fn view(&self) -> Map<Seq<char>, Seq<char>> {
        table(self.entries@)
    }
}

impl TextMap {
    pub fn new() -> (r: Self)
        ensures
            r@ == Map::<Seq<char>, Seq<char>>::empty(),
    {
        TextMap { entries: Vec::new() }
    }

    /// Enters a text under a name.
    pub fn insert(&mut self, name: &str, text: &str)
        ensures
            final(self)@ == old(self)@.insert(name@, text@),
    {
        let ghost before = self.entries@;
        self.entries.push((name.to_string(), text.to_string()));
        assert(self.entries@.drop_last() =~= before);
    }

    /// The text under a name.
    pub fn get(&self, name: &str) -> (r: Option<&str>)
        ensures
            match r {
                Some(t) => self@.contains_key(name@) && self@[name@] == t@,
                None => !self@.contains_key(name@),
            },
    {
        let mut n: usize = self.entries.len();
        let ghost all = self.entries@;
        assert(all.take(n as int) =~= all);
        while n > 0
            invariant
                n <= all.len(),
                all == self.entries@,
                table(all).contains_key(name@) == table(all.take(n as int)).contains_key(name@),
                table(all).contains_key(name@) ==> table(all)[name@] == table(
                    all.take(n as int),
                )[name@],
            decreases n,
        {
            assert(all.take(n as int).drop_last() =~= all.take(n - 1));
            assert(all.take(n as int).last() == all[n - 1]);
            if same_text(self.entries[n - 1].0.as_str(), name) {
                return Some(self.entries[n - 1].1.as_str());
            }
            n = n - 1;
        }
        None
    }

    /// Whether there is a text under a name.
    pub fn contains(&self, name: &str) -> (r: bool)
        ensures
            r == self@.contains_key(name@),
    {
        self.get(name).is_some()
    }
}

/// Text order: by the first character that differs, a text before its continuations.
pub open spec fn text_before(a: Seq<char>, b: Seq<char>) -> bool
    decreases a.len(),
{
    if b.len() == 0 {
        false
    } else if a.len() == 0 {
        true
    } else if a[0] != b[0] {
        a[0] < b[0]
    } else {
        text_before(a.drop_first(), b.drop_first())
    }
}

/// Of two texts one comes first, unless they are the same.
pub proof fn lemma_before_total(a: Seq<char>, b: Seq<char>)
    ensures
        a == b || text_before(a, b) || text_before(b, a),
        !(text_before(a, b) && text_before(b, a)),
        !text_before(a, a),
    decreases a.len(),
{
    if a.len() == 0 || b.len() == 0 {
        if a.len() == 0 && b.len() == 0 {
            assert(a =~= b);
        }
        if a.len() > 0 {
            lemma_before_total(a.drop_first(), a.drop_first());
        }
    } else {
        lemma_before_total(a.drop_first(), a.drop_first());
        if a[0] == b[0] {
            lemma_before_total(a.drop_first(), b.drop_first());
            if a.drop_first() == b.drop_first() {
                assert(a =~= seq![a[0]] + a.drop_first());
                assert(b =~= seq![b[0]] + b.drop_first());
            }
        }
    }
}

pub proof fn lemma_before_transitive(a: Seq<char>, b: Seq<char>, c: Seq<char>)
    requires
        text_before(a, b),
        text_before(b, c),
    ensures
        text_before(a, c),
    decreases a.len(),
{
    if a.len() > 0 && a[0] == b[0] && b[0] == c[0] {
        lemma_before_transitive(a.drop_first(), b.drop_first(), c.drop_first());
    }
}

/// Whether `a` comes before `b`.
pub fn comes_before(a: &str, b: &str) -> (r: bool)
    ensures
        r == text_before(a@, b@),
{
    let x = chars_of(a);
    let y = chars_of(b);
    let mut i: usize = 0;
    assert(a@.skip(0) =~= a@);
    assert(b@.skip(0) =~= b@);
    loop
        invariant
            x@ == a@,
            y@ == b@,
            i <= a@.len(),
            i <= b@.len(),
            text_before(a@, b@) == text_before(a@.skip(i as int), b@.skip(i as int)),
        decreases a@.len() - i,
    {
        if i >= y.len() {
            return false;
        }
        if i >= x.len() {
            return true;
        }
        assert(a@.skip(i as int)[0] == a@[i as int]);
        assert(b@.skip(i as int)[0] == b@[i as int]);
        if x[i] != y[i] {
            return x[i] < y[i];
        }
        assert(a@.skip(i as int).drop_first() =~= a@.skip(i + 1));
        assert(b@.skip(i as int).drop_first() =~= b@.skip(i + 1));
        i = i + 1;
    }
}

/// Texts in order, each once.
pub open spec fn ordered(list: Seq<Seq<char>>) -> bool {
    forall|i: int, j: int|
        0 <= i < j < list.len() ==> text_before(#[trigger] list[i], #[trigger] list[j])
}

/// Puts a text into its place in an ordered list, unless it is there.
fn insert_ordered(list: &mut Vec<String>, name: &str)
    requires
        ordered(chars::views(old(list)@)),
    ensures
        ordered(chars::views(final(list)@)),
        chars::views(final(list)@).to_set() == chars::views(old(list)@).to_set().insert(name@),
{
    let ghost before = chars::views(list@);
    if list_contains(list, name) {
        assert(before.to_set() =~= before.to_set().insert(name@));
        return;
    }
    let n: usize = list.len();
    let mut k: usize = 0;
    while k < n && comes_before(list[k].as_str(), name)
        invariant
            n == list@.len(),
            k <= n,
            before == chars::views(list@),
            forall|j: int| 0 <= j < k ==> text_before(#[trigger] before[j], name@),
        decreases n - k,
    {
        k = k + 1;
    }
    list.insert(k, name.to_string());
    let ghost after = chars::views(list@);
    proof {
        assert(after =~= before.insert(k as int, name@));
        assert forall|i: int, j: int| 0 <= i < j < after.len() implies text_before(
            #[trigger] after[i],
            #[trigger] after[j],
        ) by {
            let p = if i < k {
                i
            } else {
                i - 1
            };
            let q = if j < k {
                j
            } else {
                j - 1
            };
            if i == k {
                lemma_before_total(before[k as int], name@);
                assert(before.contains(before[k as int]));
                if q > k {
                    lemma_before_transitive(name@, before[k as int], before[q]);
                }
            } else if j != k {
                assert(after[i] == before[p] && after[j] == before[q]);
            }
        }
        assert(after.to_set() =~= before.to_set().insert(name@)) by {
            assert forall|t: Seq<char>| after.contains(t) implies before.contains(t)
                || t == name@ by {
                let i = choose|i: int| 0 <= i < after.len() && after[i] == t;
                if i < k {
                    assert(before[i] == t);
                } else if i > k {
                    assert(before[i - 1] == t);
                }
            }
            assert forall|t: Seq<char>| before.contains(t) || t == name@ implies after.contains(
                t,
            ) by {
                if t == name@ {
                    assert(after[k as int] == t);
                } else {
                    let i = choose|i: int| 0 <= i < before.len() && before[i] == t;
                    if i < k {
                        assert(after[i] == t);
                    } else {
                        assert(after[i + 1] == t);
                    }
                }
            }
        }
    }
}

impl TextMap {
    /// The names, in order, with commas between them.
    pub fn sorted_keys(&self) -> (r: String)
        ensures
            exists|names: Seq<Seq<char>>|
                {
                    &&& ordered(names)
                    &&& names.to_set() == self@.dom()
                    &&& r@ == #[trigger] pieces::join(names, ", "@)
                },
    {
        let ghost all = self.entries@;
        let mut names: Vec<String> = Vec::new();
        let n: usize = self.entries.len();
        assert(chars::views(names@).to_set() =~= table(all.take(0)).dom());
        for i in 0..n
            invariant
                n == all.len(),
                all == self.entries@,
                ordered(chars::views(names@)),
                chars::views(names@).to_set() == table(all.take(i as int)).dom(),
        {
            insert_ordered(&mut names, self.entries[i].0.as_str());
            assert(all.take(i + 1).drop_last() =~= all.take(i as int));
            assert(table(all.take(i + 1)).dom() =~= table(all.take(i as int)).dom().insert(
                all[i as int].0@,
            ));
        }
        assert(all.take(n as int) =~= all);
        join_texts(&names, ", ")
    }
}

} // verus!
