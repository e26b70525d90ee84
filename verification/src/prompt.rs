//! Prompt templates.
//!
//! A template names its variables as `{{name}}`. Rendering replaces each of them in one pass: what
//! a value holds is never read as a template.

use vstd::prelude::*;
use vstd::string::StringExecFns;

use crate::text::chars::{add_char, chars_of, list_contains, string_of};
use crate::text::path::{main_separator, path_of};
use crate::text::quote::quote;
use crate::text::spaces::trim_of;
use crate::text::table::TextMap;
use crate::text::{chars, path, pieces, quote, spaces, table};

verus! {

/// The position of the first `}}` at or after `i`.
pub open spec fn close_at(s: Seq<char>, i: int) -> Option<int>
    decreases s.len() - i,
{
    if i < 0 || i + 1 >= s.len() {
        None
    } else if s[i] == '}' && s[i + 1] == '}' {
        Some(i)
    } else {
        close_at(s, i + 1)
    }
}

/// Where the mark that starts at `i` ends, if one does: the position of its `}}`.
pub open spec fn mark_end(s: Seq<char>, i: int) -> Option<int> {
    if 0 <= i && i + 1 < s.len() && s[i] == '{' && s[i + 1] == '{' {
        close_at(s, i + 2)
    } else {
        None
    }
}

/// The name in the mark from `i` to its `}}` at `end`.
pub open spec fn mark_name(s: Seq<char>, i: int, end: int) -> Seq<char> {
    spaces::trim(s.subrange(i + 2, end))
}

pub open spec fn is_name(name: Seq<char>) -> bool {
    name.len() > 0 && !name.contains('{')
}

/// The variables that a template names from position `i` on, in order.
pub open spec fn names_from(s: Seq<char>, i: int) -> Seq<Seq<char>>
    decreases s.len() - i,
{
    if i < 0 || i >= s.len() {
        Seq::empty()
    } else {
        match mark_end(s, i) {
            Some(end) => if i <= end && end + 2 <= s.len() {
                let name = mark_name(s, i, end);
                (if is_name(name) {
                    seq![name]
                } else {
                    Seq::empty()
                }) + names_from(s, end + 2)
            } else {
                Seq::empty()
            },
            None => names_from(s, i + 1),
        }
    }
}

/// The list without repetitions: each text where it first stands.
pub open spec fn without_repeats(list: Seq<Seq<char>>) -> Seq<Seq<char>>
    decreases list.len(),
{
    if list.len() == 0 {
        Seq::empty()
    } else {
        let front = without_repeats(list.drop_last());
        if front.contains(list.last()) {
            front
        } else {
            front.push(list.last())
        }
    }
}

/// The template from position `i` on with the values of its variables.
pub open spec fn filled_from(s: Seq<char>, i: int, vars: Map<Seq<char>, Seq<char>>) -> Seq<char>
    decreases s.len() - i,
{
    if i < 0 || i >= s.len() {
        Seq::empty()
    } else {
        match mark_end(s, i) {
            Some(end) => if i <= end && end + 2 <= s.len() && vars.contains_key(
                mark_name(s, i, end),
            ) {
                vars[mark_name(s, i, end)] + filled_from(s, end + 2, vars)
            } else {
                seq![s[i]] + filled_from(s, i + 1, vars)
            },
            None => seq![s[i]] + filled_from(s, i + 1, vars),
        }
    }
}

/// The template with the values of its variables.
pub open spec fn filled(s: Seq<char>, vars: Map<Seq<char>, Seq<char>>) -> Seq<char> {
    filled_from(s, 0, vars)
}

pub proof fn lemma_close_at(s: Seq<char>, i: int)
    requires
        0 <= i,
    ensures
        match close_at(s, i) {
            Some(e) => {
                &&& i <= e < s.len() - 1
                &&& s[e] == '}' && s[e + 1] == '}'
                &&& forall|j: int| i <= j < e ==> !(#[trigger] s[j] == '}' && s[j + 1] == '}')
            },
            None => true,
        },
    decreases s.len() - i,
{
    if i + 1 < s.len() && !(s[i] == '}' && s[i + 1] == '}') {
        lemma_close_at(s, i + 1);
    }
}

/// The position of the first `}}` at or after `start`.
pub fn find_close(s: &[char], start: usize) -> (r: Option<usize>)
    requires
        start <= s@.len(),
    ensures
        match r {
            Some(e) => close_at(s@, start as int) == Some(e as int) && start <= e < s@.len() - 1,
            None => close_at(s@, start as int) is None,
        },
{
    let n: usize = s.len();
    let mut i: usize = start;
    while i < n && n - i > 1
        invariant
            n == s@.len(),
            start <= i <= n,
            close_at(s@, start as int) == close_at(s@, i as int),
        decreases n - i,
    {
        if s[i] == '}' && s[i + 1] == '}' {
            return Some(i);
        }
        i = i + 1;
    }
    None
}

/// Where the mark that starts at `i` ends.
fn find_mark_end(s: &[char], i: usize) -> (r: Option<usize>)
    requires
        i < s@.len(),
    ensures
        match r {
            Some(e) => mark_end(s@, i as int) == Some(e as int) && i + 2 <= e < s@.len() - 1,
            None => mark_end(s@, i as int) is None,
        },
{
    if s.len() - i > 1 && s[i] == '{' && s[i + 1] == '{' {
        find_close(s, i + 2)
    } else {
        None
    }
}

fn has_brace(s: &[char]) -> (r: bool)
    ensures
        r == s@.contains('{'),
{
    for i in 0..s.len()
        invariant
            forall|j: int| 0 <= j < i ==> s@[j] != '{',
    {
        if s[i] == '{' {
            return true;
        }
    }
    false
}

/// The variables that a template names, each once, in order.
pub fn placeholders(template: &str) -> (r: Vec<String>)
    ensures
        chars::views(r@) == without_repeats(names_from(template@, 0)),
{
    let s = chars_of(template);
    let n: usize = s.len();
    let mut out: Vec<String> = Vec::new();
    let mut i: usize = 0;
    let ghost mut seen: Seq<Seq<char>> = Seq::empty();
    assert(chars::views(out@) =~= without_repeats(seen));
    assert(seen + names_from(template@, 0) =~= names_from(template@, 0));
    while i < n
        invariant
            n == s@.len(),
            s@ == template@,
            i <= n,
            chars::views(out@) == without_repeats(seen),
            seen + names_from(template@, i as int) == names_from(template@, 0),
        decreases n - i,
    {
        match find_mark_end(s.as_slice(), i) {
            Some(end) => {
                let name = trim_of(&s.as_slice()[i + 2..end]);
                let ghost rest = names_from(template@, end + 2);
                let ghost before = chars::views(out@);
                if name.len() > 0 && !has_brace(name) {
                    let text = string_of(name);
                    if !list_contains(&out, text.as_str()) {
                        out.push(text);
                        assert(chars::views(out@) =~= before.push(name@));
                    }
                    proof {
                        assert(seen + (seq![name@] + rest) =~= seen.push(name@) + rest);
                        assert(seen.push(name@).drop_last() =~= seen);
                        seen = seen.push(name@);
                    }
                } else {
                    assert(Seq::<Seq<char>>::empty() + rest =~= rest);
                }
                i = end + 2;
            },
            None => {
                i = i + 1;
            },
        }
    }
    assert(seen + Seq::<Seq<char>>::empty() =~= seen);
    out
}

/// The template with the values of its variables; marks without a value stay as they are.
pub fn fill(template: &str, vars: &TextMap) -> (r: String)
    ensures
        r@ == filled(template@, vars@),
{
    let s = chars_of(template);
    let n: usize = s.len();
    let mut out = String::new();
    let mut i: usize = 0;
    assert(out@ + filled(template@, vars@) =~= filled(template@, vars@));
    while i < n
        invariant
            n == s@.len(),
            s@ == template@,
            i <= n,
            out@ + filled_from(template@, i as int, vars@) == filled(template@, vars@),
        decreases n - i,
    {
        let ghost before = out@;
        let mut next: usize = i + 1;
        let mut done: bool = false;
        if let Some(end) = find_mark_end(s.as_slice(), i) {
            let name = string_of(trim_of(&s.as_slice()[i + 2..end]));
            if let Some(v) = vars.get(name.as_str()) {
                out.append(v);
                next = end + 2;
                done = true;
                assert(before + (v@ + filled_from(template@, end + 2, vars@)) =~= before + v@
                    + filled_from(template@, end + 2, vars@));
            }
        }
        if !done {
            add_char(&mut out, s[i]);
            assert(before + (seq![s@[i as int]] + filled_from(template@, i + 1, vars@)) =~= before
                + seq![s@[i as int]] + filled_from(template@, i + 1, vars@));
        }
        i = next;
    }
    assert(out@ + Seq::<char>::empty() =~= out@);
    out
}

/// Why a prompt could not be rendered.
pub enum PromptError {
    /// There is no such template; the path is where it should be.
    NotLoaded { path: String, dir: String },
    /// The template names a variable that has no value.
    MissingVariable { file: String, name: String, given: String },
}

/// What to tell the user of a template that is not there, given its path and the directory of the
/// templates as they are shown.
pub open spec fn not_loaded_text(path: Seq<char>, dir: Seq<char>) -> Seq<char> {
    "读取提示词失败: "@ + path + "（提示词目录 "@ + dir + "）"@
}

/// What to tell the user of a template that is not there, given its path and the directory of the
/// templates as they are shown.
pub fn not_loaded_message(path: &str, dir: &str) -> (r: String)
    ensures
        r@ == not_loaded_text(path@, dir@),
{
    let mut r = "读取提示词失败: ".to_string();
    r.append(path);
    r.append("（提示词目录 ");
    r.append(dir);
    r.append("）");
    r
}

impl PromptError {
    pub open spec fn message_text(&self) -> Seq<char> {
        match self {
            PromptError::NotLoaded { path, dir } => not_loaded_text(
                quote::quoted(path@),
                quote::quoted(dir@),
            ),
            PromptError::MissingVariable { file, name, given } => "提示词 "@ + file@
                + " 需要变量 {{"@ + name@ + "}}，但代码没有提供（已提供: "@ + given@ + "）"@,
        }
    }

    /// What to tell the user.
    pub fn message(&self) -> (r: String)
        ensures
            r@ == self.message_text(),
    {
        match self {
            PromptError::NotLoaded { path, dir } => {
                let path = quote(path.as_str());
                let dir = quote(dir.as_str());
                not_loaded_message(path.as_str(), dir.as_str())
            },
            PromptError::MissingVariable { file, name, given } => {
                let mut r = "提示词 ".to_string();
                r.append(file.as_str());
                r.append(" 需要变量 {{");
                r.append(name.as_str());
                r.append("}}，但代码没有提供（已提供: ");
                r.append(given.as_str());
                r.append("）");
                r
            },
        }
    }
}

/// The templates of a directory, and the character that stands between the parts of a path.
pub struct PromptStore {
    pub dir: String,
    pub separator: char,
    pub templates: TextMap,
}

/// The first of the names that has no value.
pub open spec fn first_missing(
    names: Seq<Seq<char>>,
    vars: Map<Seq<char>, Seq<char>>,
) -> Option<Seq<char>>
    decreases names.len(),
{
    if names.len() == 0 {
        None
    } else {
        match first_missing(names.drop_last(), vars) {
            Some(n) => Some(n),
            None => if vars.contains_key(names.last()) {
                None
            } else {
                Some(names.last())
            },
        }
    }
}

/// What rendering a template gives: the text, if there is such a template and all its variables
/// have values.
pub open spec fn rendered(
    templates: Map<Seq<char>, Seq<char>>,
    file: Seq<char>,
    vars: Map<Seq<char>, Seq<char>>,
) -> Option<Seq<char>> {
    if templates.contains_key(file) && first_missing(names_from(templates[file], 0), vars) is None {
        Some(filled(templates[file], vars))
    } else {
        None
    }
}

impl PromptStore {
    /// A store for the templates of a directory; none is loaded yet. Paths are parted as on this
    /// system.
    pub fn new(dir: &str) -> (r: Self)
        ensures
            r.dir@ == dir@,
            r.templates@ == Map::<Seq<char>, Seq<char>>::empty(),
    {
        PromptStore { dir: dir.to_string(), separator: main_separator(), templates: TextMap::new() }
    }

    /// Keeps the text of a template.
    pub fn insert(&mut self, file: &str, template: &str)
        ensures
            final(self).dir == old(self).dir,
            final(self).separator == old(self).separator,
            final(self).templates@ == old(self).templates@.insert(file@, template@),
    {
        self.templates.insert(file, template);
    }

    /// Renders a template with the given values.
    pub fn render(&self, file: &str, vars: &TextMap) -> (r: Result<String, PromptError>)
        ensures
            r is Ok <==> rendered(self.templates@, file@, vars@) is Some,
            r matches Ok(t) ==> rendered(self.templates@, file@, vars@) == Some(t@),
            r matches Err(PromptError::NotLoaded { path: p, dir }) ==> {
                &&& !self.templates@.contains_key(file@)
                &&& p@ == path::file_in(self.dir@, file@, self.separator)
                &&& dir@ == self.dir@
            },
            r matches Err(PromptError::MissingVariable { file: f, name, given }) ==> {
                &&& self.templates@.contains_key(file@)
                &&& f@ == file@
                &&& first_missing(names_from(self.templates@[file@], 0), vars@) == Some(name@)
                &&& exists|names: Seq<Seq<char>>|
                    {
                        &&& table::ordered(names)
                        &&& names.to_set() == vars@.dom()
                        &&& given@ == #[trigger] pieces::join(names, ", "@)
                    }
            },
    {
        let template = match self.templates.get(file) {
            Some(t) => t,
            None => {
                let path = path_of(self.dir.as_str(), file, self.separator);
                return Err(PromptError::NotLoaded { path, dir: self.dir.clone() });
            },
        };
        let used = placeholders(template);
        let ghost names = names_from(template@, 0);
        let ghost once = without_repeats(names);
        proof {
            lemma_first_missing(names, vars@);
            assert(once.take(0) =~= Seq::<Seq<char>>::empty());
        }
        for i in 0..used.len()
            invariant
                once == chars::views(used@),
                once == without_repeats(names),
                names == names_from(template@, 0),
                self.templates@.contains_key(file@),
                self.templates@[file@] == template@,
                first_missing(once, vars@) == first_missing(names, vars@),
                first_missing(once.take(i as int), vars@) is None,
        {
            assert(once.take(i + 1).drop_last() =~= once.take(i as int));
            assert(once.take(i + 1).last() == used@[i as int]@);
            if !vars.contains(used[i].as_str()) {
                proof {
                    lemma_first_missing_prefix(once, vars@, i + 1);
                }
                return Err(
                    PromptError::MissingVariable {
                        file: file.to_string(),
                        name: used[i].clone(),
                        given: vars.sorted_keys(),
                    },
                );
            }
        }
        assert(once.take(used@.len() as int) =~= once);
        Ok(fill(template, vars))
    }

    /// The given names that a template does not use.
    pub fn unused(&self, file: &str, names: &Vec<String>) -> (r: Vec<String>)
        ensures
            chars::views(r@) == (if self.templates@.contains_key(file@) {
                chars::views(names@).filter(
                    |n: Seq<char>| !names_from(self.templates@[file@], 0).contains(n),
                )
            } else {
                Seq::empty()
            }),
    {
        let mut out: Vec<String> = Vec::new();
        let template = match self.templates.get(file) {
            Some(t) => t,
            None => {
                assert(chars::views(out@) =~= Seq::<Seq<char>>::empty());
                return out;
            },
        };
        let used = placeholders(template);
        let ghost all = chars::views(names@);
        let ghost free = |n: Seq<char>| !names_from(template@, 0).contains(n);
        proof {
            lemma_without_repeats(names_from(template@, 0));
            reveal(Seq::filter);
        }
        assert(chars::views(out@) =~= all.take(0).filter(free));
        for i in 0..names.len()
            invariant
                all == chars::views(names@),
                chars::views(used@) == without_repeats(names_from(template@, 0)),
                forall|n: Seq<char>|
                    without_repeats(names_from(template@, 0)).contains(n) <==> names_from(
                        template@,
                        0,
                    ).contains(n),
                free == (|n: Seq<char>| !names_from(template@, 0).contains(n)),
                chars::views(out@) == all.take(i as int).filter(free),
        {
            let ghost before = chars::views(out@);
            proof {
                reveal(Seq::filter);
                assert(all.take(i + 1).drop_last() =~= all.take(i as int));
                assert(all.take(i + 1).last() == names@[i as int]@);
            }
            if !list_contains(&used, names[i].as_str()) {
                out.push(names[i].clone());
                assert(chars::views(out@) =~= before.push(names@[i as int]@));
            }
        }
        assert(all.take(names@.len() as int) =~= all);
        out
    }
}

proof fn lemma_without_repeats(list: Seq<Seq<char>>)
    ensures
        forall|n: Seq<char>| without_repeats(list).contains(n) <==> list.contains(n),
    decreases list.len(),
{
    if list.len() > 0 {
        let rest = list.drop_last();
        lemma_without_repeats(rest);
        let front = without_repeats(rest);
        assert forall|n: Seq<char>| without_repeats(list).contains(n) <==> list.contains(n) by {
            if list.contains(n) {
                let k = choose|k: int| 0 <= k < list.len() && list[k] == n;
                if k < list.len() - 1 {
                    assert(rest[k] == n);
                    assert(rest.contains(n));
                    assert(front.contains(n));
                    let j = choose|j: int| 0 <= j < front.len() && front[j] == n;
                    assert(without_repeats(list)[j] == n);
                } else {
                    if !front.contains(n) {
                        assert(without_repeats(list)[front.len() as int] == n);
                    }
                }
            }
            if without_repeats(list).contains(n) {
                let k = choose|k: int|
                    0 <= k < without_repeats(list).len() && without_repeats(list)[k] == n;
                if k < front.len() {
                    assert(front[k] == n);
                    assert(rest.contains(n));
                    let j = choose|j: int| 0 <= j < rest.len() && rest[j] == n;
                    assert(list[j] == n);
                } else {
                    assert(list[list.len() - 1] == n);
                }
            }
        }
    } else {
        assert(without_repeats(list) =~= list);
    }
}

/// A name is missing from the list exactly if it is missing from the list without repetitions, and
/// the first one is the same.
proof fn lemma_first_missing(list: Seq<Seq<char>>, vars: Map<Seq<char>, Seq<char>>)
    ensures
        first_missing(without_repeats(list), vars) == first_missing(list, vars),
    decreases list.len(),
{
    if list.len() > 0 {
        let rest = list.drop_last();
        lemma_first_missing(rest, vars);
        let front = without_repeats(rest);
        if front.contains(list.last()) {
            if first_missing(front, vars) is None {
                lemma_none_missing(front, vars, list.last());
            }
        } else {
            assert(front.push(list.last()).drop_last() =~= front);
        }
    }
}

proof fn lemma_none_missing(
    list: Seq<Seq<char>>,
    vars: Map<Seq<char>, Seq<char>>,
    name: Seq<char>,
)
    requires
        first_missing(list, vars) is None,
        list.contains(name),
    ensures
        vars.contains_key(name),
    decreases list.len(),
{
    let k = choose|k: int| 0 <= k < list.len() && list[k] == name;
    if k < list.len() - 1 {
        assert(list.drop_last()[k] == name);
        lemma_none_missing(list.drop_last(), vars, name);
    }
}

proof fn lemma_first_missing_prefix(
    list: Seq<Seq<char>>,
    vars: Map<Seq<char>, Seq<char>>,
    k: int,
)
    requires
        0 <= k <= list.len(),
        first_missing(list.take(k), vars) is Some,
    ensures
        first_missing(list, vars) == first_missing(list.take(k), vars),
    decreases list.len() - k,
{
    if k < list.len() {
        assert(list.take(k + 1).drop_last() =~= list.take(k));
        lemma_first_missing_prefix(list, vars, k + 1);
    } else {
        assert(list.take(k) =~= list);
    }
}

} // verus!
