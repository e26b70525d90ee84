//! What rendering a template guarantees.

use vstd::prelude::*;

use crate::prompt;
use crate::text::{piece_laws, spaces};

verus! {

/// A template without a mark is rendered as it is.
pub proof fn law_plain_template(s: Seq<char>, vars: Map<Seq<char>, Seq<char>>)
    requires
        piece_laws::lacks_pair(s, '{', '{'),
    ensures
        prompt::filled(s, vars) == s,
{
    lemma_plain(s, 0, vars);
    assert(s.skip(0) =~= s);
}

proof fn lemma_plain(s: Seq<char>, i: int, vars: Map<Seq<char>, Seq<char>>)
    requires
        piece_laws::lacks_pair(s, '{', '{'),
        0 <= i <= s.len(),
    ensures
        prompt::filled_from(s, i, vars) == s.skip(i),
    decreases s.len() - i,
{
    if i < s.len() {
        lemma_plain(s, i + 1, vars);
        assert(seq![s[i]] + s.skip(i + 1) =~= s.skip(i));
    }
}

/// A part of a template: text that stays, or a variable.
pub enum Part {
    Text(Seq<char>),
    Value(Seq<char>),
}

/// The parts of a template from position `i` on, given the names of the variables that there are.
/// What the variables hold has no part in it.
pub open spec fn parts_from(s: Seq<char>, i: int, names: Set<Seq<char>>) -> Seq<Part>
    decreases s.len() - i,
{
    if i < 0 || i >= s.len() {
        Seq::empty()
    } else {
        let end = prompt::mark_end(s, i);
        if end is Some && i <= end->0 && end->0 + 2 <= s.len() && names.contains(
            prompt::mark_name(s, i, end->0),
        ) {
            seq![Part::Value(prompt::mark_name(s, i, end->0))] + parts_from(s, end->0 + 2, names)
        } else {
            seq![Part::Text(seq![s[i]])] + parts_from(s, i + 1, names)
        }
    }
}

/// The text of a part.
pub open spec fn part_text(p: Part, vars: Map<Seq<char>, Seq<char>>) -> Seq<char> {
    match p {
        Part::Text(t) => t,
        Part::Value(name) => vars[name],
    }
}

/// The parts one after the other, with the values of the variables.
pub open spec fn put_together(parts: Seq<Part>, vars: Map<Seq<char>, Seq<char>>) -> Seq<char>
    decreases parts.len(),
{
    if parts.len() == 0 {
        Seq::empty()
    } else {
        part_text(parts[0], vars) + put_together(parts.drop_first(), vars)
    }
}

/// Values are never read as a template: which parts a template has depends on the names of the
/// variables alone, and rendering puts each value in its place as it is.
pub proof fn law_values_are_not_rescanned(s: Seq<char>, vars: Map<Seq<char>, Seq<char>>)
    ensures
        prompt::filled(s, vars) == put_together(parts_from(s, 0, vars.dom()), vars),
{
    lemma_parts(s, 0, vars);
}

proof fn lemma_put_first(first: Part, rest: Seq<Part>, vars: Map<Seq<char>, Seq<char>>)
    ensures
        put_together(seq![first] + rest, vars) == part_text(first, vars) + put_together(rest, vars),
{
    let all = seq![first] + rest;
    assert(all.len() == rest.len() + 1);
    assert(all[0] == first);
    assert(all.drop_first() =~= rest);
}

proof fn lemma_parts(s: Seq<char>, i: int, vars: Map<Seq<char>, Seq<char>>)
    requires
        0 <= i,
    ensures
        prompt::filled_from(s, i, vars) == put_together(parts_from(s, i, vars.dom()), vars),
    decreases s.len() - i,
{
    if i < s.len() {
        let names = vars.dom();
        lemma_parts(s, i + 1, vars);
        lemma_put_first(Part::Text(seq![s[i]]), parts_from(s, i + 1, names), vars);
        if let Some(end) = prompt::mark_end(s, i) {
            prompt::lemma_close_at(s, i + 2);
            lemma_parts(s, end + 2, vars);
            let name = prompt::mark_name(s, i, end);
            lemma_put_first(Part::Value(name), parts_from(s, end + 2, names), vars);
        }
    }
}

proof fn lemma_close_shifted(a: Seq<char>, b: Seq<char>, i: int)
    requires
        0 <= i,
    ensures
        prompt::close_at(a + b, a.len() + i) == (match prompt::close_at(b, i) {
            Some(e) => Some(a.len() + e),
            None => None,
        }),
    decreases b.len() - i,
{
    if i + 1 < b.len() {
        assert((a + b)[a.len() + i] == b[i] && (a + b)[a.len() + i + 1] == b[i + 1]);
        lemma_close_shifted(a, b, i + 1);
    }
}

proof fn lemma_mark_shifted(a: Seq<char>, b: Seq<char>, i: int)
    requires
        0 <= i < b.len(),
    ensures
        prompt::mark_end(a + b, a.len() + i) == (match prompt::mark_end(b, i) {
            Some(e) => Some(a.len() + e),
            None => None,
        }),
        prompt::mark_end(b, i) matches Some(e) ==> i + 2 <= e <= b.len() - 2 && prompt::mark_name(
            a + b,
            a.len() + i,
            a.len() + e,
        ) == prompt::mark_name(b, i, e),
{
    let all = a + b;
    assert(all[a.len() + i] == b[i]);
    if i + 1 < b.len() {
        assert(all[a.len() + i + 1] == b[i + 1]);
    }
    lemma_close_shifted(a, b, i + 2);
    prompt::lemma_close_at(b, i + 2);
    if let Some(e) = prompt::mark_end(b, i) {
        assert(all.subrange(a.len() + i + 2, a.len() + e) =~= b.subrange(i + 2, e));
    }
}

/// What stands before a position has no part in what is made of the text from there on.
proof fn lemma_shifted(a: Seq<char>, b: Seq<char>, i: int, vars: Map<Seq<char>, Seq<char>>)
    requires
        0 <= i,
    ensures
        prompt::filled_from(a + b, a.len() + i, vars) == prompt::filled_from(b, i, vars),
        prompt::names_from(a + b, a.len() + i) == prompt::names_from(b, i),
    decreases b.len() - i,
{
    if i < b.len() {
        assert((a + b)[a.len() + i] == b[i]);
        lemma_mark_shifted(a, b, i);
        lemma_shifted(a, b, i + 1, vars);
        if let Some(e) = prompt::mark_end(b, i) {
            lemma_shifted(a, b, e + 2, vars);
        }
    }
}

/// Text without an opening brace is passed over.
proof fn lemma_text_first(a: Seq<char>, b: Seq<char>, i: int, vars: Map<Seq<char>, Seq<char>>)
    requires
        0 <= i <= a.len(),
        piece_laws::lacks(a, '{'),
    ensures
        prompt::filled_from(a + b, i, vars) == a.skip(i) + prompt::filled_from(
            a + b,
            a.len() as int,
            vars,
        ),
        prompt::names_from(a + b, i) == prompt::names_from(a + b, a.len() as int),
    decreases a.len() - i,
{
    let all = a + b;
    let rest = prompt::filled_from(all, a.len() as int, vars);
    if i < a.len() {
        lemma_text_first(a, b, i + 1, vars);
        assert(all[i] == a[i]);
        assert(seq![a[i]] + (a.skip(i + 1) + rest) =~= a.skip(i) + rest);
    } else {
        assert(a.skip(i) + rest =~= rest);
    }
}

/// The text between two braces on either side is the name of a variable, white space around it apart:
/// a template has it among its names, and the value takes the place of the mark. What stands before
/// the mark stays, and what follows is rendered by itself.
pub proof fn law_marks_are_replaced(
    before: Seq<char>,
    inner: Seq<char>,
    after: Seq<char>,
    vars: Map<Seq<char>, Seq<char>>,
)
    requires
        piece_laws::lacks(before, '{'),
        piece_laws::lacks(inner, '{'),
        piece_laws::lacks(inner, '}'),
    ensures
        ({
            let template = before + (seq!['{', '{'] + inner + seq!['}', '}'] + after);
            let name = spaces::trim(inner);
            &&& vars.contains_key(name) ==> prompt::filled(template, vars) == before + vars[name]
                + prompt::filled(after, vars)
            &&& name.len() > 0 ==> prompt::names_from(template, 0) == seq![name]
                + prompt::names_from(after, 0)
            &&& name.len() == 0 ==> prompt::names_from(template, 0) == prompt::names_from(after, 0)
        }),
{
    let mark = seq!['{', '{'] + inner + seq!['}', '}'];
    let rest = mark + after;
    let template = before + rest;
    let n = before.len() as int;
    let name = spaces::trim(inner);
    lemma_text_first(before, rest, 0, vars);
    assert(before.skip(0) =~= before);
    let e = inner.len() as int + 2;
    assert(rest[0] == '{' && rest[1] == '{');
    assert(rest[e] == '}' && rest[e + 1] == '}');
    lemma_close_found(rest, 2, e, inner);
    assert(rest.subrange(2, e) =~= inner);
    lemma_mark_shifted(before, rest, 0);
    lemma_shifted(before, rest, 0, vars);
    lemma_shifted(mark, after, 0, vars);
    assert(mark.len() == e + 2);
    assert(prompt::mark_end(rest, 0) == Some(e));
    if vars.contains_key(name) {
        assert(prompt::filled_from(rest, 0, vars) == vars[name] + prompt::filled(after, vars));
        assert(before + (vars[name] + prompt::filled(after, vars)) =~= before + vars[name]
            + prompt::filled(after, vars));
    }
    assert(!name.contains('{')) by {
        if name.contains('{') {
            let k = choose|k: int| 0 <= k < name.len() && name[k] == '{';
            spaces::lemma_trim_start(inner);
            spaces::lemma_trim_end(spaces::trim_start(inner));
            let t = spaces::trim_start(inner);
            assert(name[k] == t[k]);
            assert(t[k] == inner[inner.len() - t.len() + k]);
        }
    }
    if name.len() == 0 {
        assert(Seq::<Seq<char>>::empty() + prompt::names_from(after, 0) =~= prompt::names_from(
            after,
            0,
        ));
    }
}

proof fn lemma_close_found(rest: Seq<char>, i: int, e: int, inner: Seq<char>)
    requires
        2 <= i <= e < rest.len() - 1,
        e == inner.len() + 2,
        forall|j: int| 2 <= j < e ==> #[trigger] rest[j] == inner[j - 2],
        piece_laws::lacks(inner, '}'),
        rest[e] == '}' && rest[e + 1] == '}',
    ensures
        prompt::close_at(rest, i) == Some(e),
    decreases e - i,
{
    if i < e {
        assert(rest[i] == inner[i - 2]);
        lemma_close_found(rest, i + 1, e, inner);
    }
}

/// A prompt is rendered exactly if there is such a template and each of the variables that it names
/// has a value; and then it is the template with the values in it.
pub proof fn law_prompts_need_every_value(
    templates: Map<Seq<char>, Seq<char>>,
    file: Seq<char>,
    vars: Map<Seq<char>, Seq<char>>,
)
    ensures
        prompt::rendered(templates, file, vars) is Some <==> templates.contains_key(file)
            && forall|i: int|
            0 <= i < prompt::names_from(templates[file], 0).len() ==> vars.contains_key(
                #[trigger] prompt::names_from(templates[file], 0)[i],
            ),
        prompt::rendered(templates, file, vars) matches Some(t) ==> t == prompt::filled(
            templates[file],
            vars,
        ),
{
    if templates.contains_key(file) {
        law_the_first_missing_name_is_told(prompt::names_from(templates[file], 0), vars);
    }
}

/// The name that is told to be missing is the first one without a value, and none is if all have
/// one.
pub proof fn law_the_first_missing_name_is_told(
    names: Seq<Seq<char>>,
    vars: Map<Seq<char>, Seq<char>>,
)
    ensures
        match prompt::first_missing(names, vars) {
            Some(n) => exists|k: int|
                {
                    &&& 0 <= k < names.len()
                    &&& #[trigger] names[k] == n
                    &&& !vars.contains_key(n)
                    &&& forall|j: int| 0 <= j < k ==> vars.contains_key(#[trigger] names[j])
                },
            None => forall|j: int| 0 <= j < names.len() ==> vars.contains_key(#[trigger] names[j]),
        },
    decreases names.len(),
{
    if names.len() > 0 {
        let front = names.drop_last();
        law_the_first_missing_name_is_told(front, vars);
        match prompt::first_missing(front, vars) {
            Some(n) => {
                let k = choose|k: int|
                    {
                        &&& 0 <= k < front.len()
                        &&& #[trigger] front[k] == n
                        &&& !vars.contains_key(n)
                        &&& forall|j: int| 0 <= j < k ==> vars.contains_key(#[trigger] front[j])
                    };
                assert(names[k] == n);
                assert forall|j: int| 0 <= j < k implies vars.contains_key(#[trigger] names[j]) by {
                    assert(names[j] == front[j]);
                }
            },
            None => {
                assert forall|j: int| 0 <= j < front.len() implies vars.contains_key(
                    #[trigger] names[j],
                ) by {
                    assert(names[j] == front[j]);
                }
                assert(names[names.len() - 1] == names.last());
            },
        }
    }
}

/// The names of a template are listed once each, in the order in which they first come.
pub proof fn law_names_are_listed_once(names: Seq<Seq<char>>, n: Seq<char>)
    ensures
        prompt::without_repeats(names).no_duplicates(),
        prompt::without_repeats(names).contains(n) <==> names.contains(n),
        names.no_duplicates() ==> prompt::without_repeats(names) == names,
        names.contains(n) ==> prompt::without_repeats(names.push(n)) == prompt::without_repeats(
            names,
        ),
        !names.contains(n) ==> prompt::without_repeats(names.push(n)) == prompt::without_repeats(
            names,
        ).push(n),
    decreases names.len(),
{
    assert(names.push(n).drop_last() =~= names);
    if names.len() > 0 {
        let front = names.drop_last();
        let last = names.last();
        law_names_are_listed_once(front, n);
        law_names_are_listed_once(front, last);
        assert(names[names.len() - 1] == last);
        let kept = prompt::without_repeats(front);
        if front.contains(n) {
            let k = choose|k: int| 0 <= k < front.len() && front[k] == n;
            assert(names[k] == n);
        }
        if names.contains(n) && n != last {
            let k = choose|k: int| 0 <= k < names.len() && names[k] == n;
            assert(front[k] == n);
        }
        if !kept.contains(last) {
            let all = kept.push(last);
            if kept.contains(n) {
                let k = choose|k: int| 0 <= k < kept.len() && kept[k] == n;
                assert(all[k] == n);
            }
            assert(all[kept.len() as int] == last);
            if all.contains(n) && n != last {
                let k = choose|k: int| 0 <= k < all.len() && all[k] == n;
                assert(kept[k] == n);
            }
            assert forall|i: int, j: int| 0 <= i < all.len() && 0 <= j < all.len() && i
                != j implies all[i] != all[j] by {
                if i == kept.len() {
                    assert(kept[j] == all[j]);
                    assert(kept.contains(kept[j]));
                } else if j == kept.len() {
                    assert(kept[i] == all[i]);
                    assert(kept.contains(kept[i]));
                } else {
                    assert(kept[i] == all[i] && kept[j] == all[j]);
                }
            }
        }
        if names.no_duplicates() {
            assert(front.no_duplicates());
            assert(!front.contains(last)) by {
                if front.contains(last) {
                    let k = choose|k: int| 0 <= k < front.len() && front[k] == last;
                    assert(names[k] == names[names.len() - 1]);
                }
            }
            assert(front.push(last) =~= names);
        }
    } else {
        assert(prompt::without_repeats(names) =~= names);
    }
}

} // verus!
