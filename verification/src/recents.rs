//! The list of files that were opened last.

use vstd::prelude::*;

use crate::json::{
    a_list_holds_its_strings, json_from_str, json_pretty, parse_strings, pretty_strings, strings_in,
    strings_json,
};
use crate::text::texts;

verus! {

/// The name of the file that holds the list.
pub fn recents_name() -> (r: &'static str)
    ensures
        r@ == "autoblur-recents.json"@,
{
    "autoblur-recents.json"
}

/// The directory of that file: the executable's, if it is known, else one for temporary files.
/// `P` is the type of paths.
pub fn recents_dir<P>(beside: Option<P>, temporary: P) -> (r: P)
    ensures
        r == (match beside {
            Some(dir) => dir,
            None => temporary,
        }),
{
    match beside {
        Some(dir) => dir,
        None => temporary,
    }
}

/// The longest list.
pub const MOST: usize = 8;

/// Being another path than the given one.
pub open spec fn other_than(path: Seq<char>) -> spec_fn(Seq<char>) -> bool {
    |p: Seq<char>| p != path
}

/// The list without a path.
pub open spec fn without(list: Seq<Seq<char>>, path: Seq<char>) -> Seq<Seq<char>> {
    list.filter(other_than(path))
}

/// The list with a path in front, once, and no longer than it may be.
pub open spec fn with_first(list: Seq<Seq<char>>, path: Seq<char>) -> Seq<Seq<char>> {
    let all = seq![path] + without(list, path);
    if all.len() > MOST {
        all.take(MOST as int)
    } else {
        all
    }
}

/// The list that is stored as a text; an empty one where the text is not that of a list of
/// strings.
pub open spec fn stored(text: Seq<char>) -> Seq<Seq<char>> {
    match json_from_str(text) {
        Ok(json) => match strings_in(json) {
            Some(list) => list,
            None => Seq::empty(),
        },
        Err(_) => Seq::empty(),
    }
}

/// The list that is stored as `text`; an empty one where there is none.
pub fn recents(text: Option<&str>) -> (r: Vec<String>)
    ensures
        texts(r@) == (match text {
            Some(t) => stored(t@),
            None => Seq::empty(),
        }),
{
    let found = match text {
        Some(t) => parse_strings(t),
        None => None,
    };
    match found {
        Some(list) => list,
        None => {
            let list: Vec<String> = Vec::new();
            assert(texts(list@) =~= Seq::empty());
            list
        },
    }
}

/// The text as which a list is stored. Reading it gives the list back.
pub fn set_recents(list: &Vec<String>) -> (r: String)
    ensures
        json_pretty(strings_json(texts(list@))) == Ok::<Seq<char>, Seq<char>>(r@),
        stored(r@) == texts(list@),
{
    proof {
        a_list_holds_its_strings(texts(list@));
    }
    match pretty_strings(list) {
        Some(text) => text,
        None => "[]".to_owned(),
    }
}

/// The list without a path.
pub fn drop_recent(list: &Vec<String>, path: &str) -> (r: Vec<String>)
    ensures
        texts(r@) == without(texts(list@), path@),
{
    let ghost all = texts(list@);
    let ghost other = other_than(path@);
    let path_text = path.to_owned();
    let mut out: Vec<String> = Vec::new();
    assert(texts(out@) =~= all.take(0).filter(other)) by {
        reveal(Seq::filter);
    }
    for i in 0..list.len()
        invariant
            all == texts(list@),
            other == other_than(path@),
            path_text@ == path@,
            texts(out@) == all.take(i as int).filter(other),
    {
        let ghost was = out@;
        assert(all.take(i + 1).drop_last() == all.take(i as int));
        assert(all[i as int] == list@[i as int]@);
        if !(list[i] == path_text) {
            out.push(list[i].clone());
            assert(texts(out@) == texts(was).push(list@[i as int]@));
        }
        assert(texts(out@) =~= all.take(i + 1).filter(other)) by {
            reveal(Seq::filter);
        }
    }
    assert(all.take(list.len() as int) == all);
    out
}

/// The list with a path in front.
pub fn push_recent(list: &Vec<String>, path: &str) -> (r: Vec<String>)
    ensures
        texts(r@) == with_first(texts(list@), path@),
{
    let mut rest = drop_recent(list, path);
    let ghost was = rest@;
    let mut out: Vec<String> = Vec::new();
    out.push(path.to_owned());
    out.append(&mut rest);
    assert(texts(out@) =~= seq![path@] + texts(was));
    out.truncate(MOST);
    assert(texts(out@) =~= with_first(texts(list@), path@));
    out
}

/// Of the paths those whose flag is set.
pub open spec fn chosen(list: Seq<Seq<char>>, flags: Seq<bool>) -> Seq<Seq<char>>
    decreases list.len(),
{
    if list.len() == 0 || list.len() > flags.len() {
        Seq::empty()
    } else {
        let before = chosen(list.drop_last(), flags.take(list.len() - 1));
        if flags[list.len() - 1] {
            before.push(list.last())
        } else {
            before
        }
    }
}

/// The files of the list that are still there.
pub fn existing(list: &Vec<String>, is_file: &Vec<bool>) -> (r: Vec<String>)
    requires
        list@.len() == is_file@.len(),
    ensures
        texts(r@) == chosen(texts(list@), is_file@),
{
    let mut out: Vec<String> = Vec::new();
    let ghost all = texts(list@);
    assert(texts(out@) =~= chosen(all.take(0), is_file@.take(0)));
    for i in 0..list.len()
        invariant
            list@.len() == is_file@.len(),
            all == texts(list@),
            texts(out@) == chosen(all.take(i as int), is_file@.take(i as int)),
    {
        let ghost was = out@;
        assert(all.take(i + 1).drop_last() == all.take(i as int));
        assert(is_file@.take(i + 1).take(i as int) == is_file@.take(i as int));
        if is_file[i] {
            out.push(list[i].clone());
            assert(texts(out@) == texts(was).push(list@[i as int]@));
        }
    }
    assert(all.take(list.len() as int) == all);
    assert(is_file@.take(list.len() as int) == is_file@);
    out
}

/// A path that was opened stands first, and only there; the list keeps to its limit.
pub proof fn the_last_opened_comes_first(list: Seq<Seq<char>>, path: Seq<char>)
    ensures
        with_first(list, path).len() <= MOST,
        with_first(list, path)[0] == path,
        forall|i: int|
            0 < i < with_first(list, path).len() ==> #[trigger] with_first(list, path)[i] != path,
{
    let rest = without(list, path);
    let other = other_than(path);
    assert forall|i: int| 0 < i < with_first(list, path).len() implies #[trigger] with_first(
        list,
        path,
    )[i] != path by {
        list.lemma_filter_pred(other, i - 1);
        assert(with_first(list, path)[i] == rest[i - 1]);
    }
}

/// A path that was dropped is gone; the others stay.
pub proof fn a_dropped_path_is_gone(list: Seq<Seq<char>>, path: Seq<char>, other: Seq<char>)
    ensures
        !without(list, path).contains(path),
        other != path && list.contains(other) ==> without(list, path).contains(other),
{
    let keep = other_than(path);
    assert forall|i: int| 0 <= i < without(list, path).len() implies without(list, path)[i]
        != path by {
        list.lemma_filter_pred(keep, i);
    }
    if other != path && list.contains(other) {
        let i = choose|i: int| 0 <= i < list.len() && list[i] == other;
        list.lemma_filter_contains(keep, i);
    }
}

/// Dropping a path looks at each entry by itself and keeps the order: of two lists the second
/// follows the first, and an entry goes exactly if it is the path.
pub proof fn dropping_keeps_the_order(
    a: Seq<Seq<char>>,
    b: Seq<Seq<char>>,
    entry: Seq<char>,
    path: Seq<char>,
)
    ensures
        without(Seq::empty(), path) == Seq::<Seq<char>>::empty(),
        without(seq![entry], path) == (if entry == path {
            Seq::empty()
        } else {
            seq![entry]
        }),
        without(a + b, path) == without(a, path) + without(b, path),
    decreases b.len(),
{
    let other = other_than(path);
    reveal(Seq::filter);
    let nothing = Seq::<Seq<char>>::empty();
    assert(nothing.filter(other) =~= nothing);
    assert(seq![entry].drop_last() =~= nothing);
    assert(without(seq![entry], path) =~= (if entry == path {
        Seq::empty()
    } else {
        seq![entry]
    }));
    if b.len() == 0 {
        assert(a + b =~= a);
        assert(b =~= nothing);
        assert(without(a, path) + nothing =~= without(a, path));
    } else {
        dropping_keeps_the_order(a, b.drop_last(), entry, path);
        assert((a + b).drop_last() =~= a + b.drop_last());
        assert(without(a + b, path) =~= without(a, path) + without(b, path));
    }
}

/// Behind the path that was opened stand the other entries, in the order in which they were; where
/// there are more than seven, the last of them go.
pub proof fn the_others_follow(list: Seq<Seq<char>>, path: Seq<char>)
    ensures
        with_first(list, path).len() == (if without(list, path).len() < 7 {
            without(list, path).len() + 1
        } else {
            8
        }),
        with_first(list, path)[0] == path,
        forall|i: int|
            0 < i < with_first(list, path).len() ==> #[trigger] with_first(list, path)[i] == without(
                list,
                path,
            )[i - 1],
{
}

/// The list that a text holds is the one that was stored as it; every other text holds none.
pub proof fn a_text_holds_the_list_of_its_document(text: Seq<char>, list: Seq<Seq<char>>)
    ensures
        json_from_str(text) == Ok::<crate::json::Json, Seq<char>>(strings_json(list)) ==> stored(text)
            == list,
        json_from_str(text) is Err ==> stored(text).len() == 0,
        json_from_str(text) is Ok && strings_in(json_from_str(text)->Ok_0) is None ==> stored(
            text,
        ).len() == 0,
{
    a_list_holds_its_strings(list);
}

/// Each entry is looked at by itself, and the order is kept: an entry stays exactly if its flag is
/// set.
pub proof fn choosing_keeps_the_order(
    a: Seq<Seq<char>>,
    flags_a: Seq<bool>,
    b: Seq<Seq<char>>,
    flags_b: Seq<bool>,
    entry: Seq<char>,
    flag: bool,
)
    requires
        a.len() == flags_a.len(),
        b.len() == flags_b.len(),
    ensures
        chosen(seq![entry], seq![flag]) == (if flag {
            seq![entry]
        } else {
            Seq::empty()
        }),
        chosen(a + b, flags_a + flags_b) == chosen(a, flags_a) + chosen(b, flags_b),
    decreases b.len(),
{
    reveal_with_fuel(chosen, 2);
    assert(seq![entry].drop_last() =~= Seq::<Seq<char>>::empty());
    assert(chosen(seq![entry], seq![flag]) =~= (if flag {
        seq![entry]
    } else {
        Seq::empty()
    }));
    if b.len() == 0 {
        assert(a + b =~= a);
        assert(flags_a + flags_b =~= flags_a);
        assert(chosen(a, flags_a) + chosen(b, flags_b) =~= chosen(a, flags_a));
    } else {
        let all = a + b;
        let flags = flags_a + flags_b;
        choosing_keeps_the_order(a, flags_a, b.drop_last(), flags_b.drop_last(), entry, flag);
        assert(all.drop_last() =~= a + b.drop_last());
        assert(flags.take(all.len() - 1) =~= flags_a + flags_b.drop_last());
        assert(flags_b.take(b.len() - 1) =~= flags_b.drop_last());
        assert(chosen(all, flags) =~= chosen(a, flags_a) + chosen(b, flags_b));
    }
}

}
