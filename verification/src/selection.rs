//! Choosing the models of a chat: toggling a model in the selection and
//! searching the model list.

use vstd::prelude::*;
use crate::text::{chars_eq, chars_of, find_from_exec, string_of};
use crate::votes::{contains_text, lowercase, to_lowercase, views};

verus! {

/// The first position of `x` in `s`, if any.
pub open spec fn first_position(s: Seq<Seq<char>>, x: Seq<char>) -> Option<int>
    decreases s.len(),
{
    if s.len() == 0 {
        None
    } else if s[0] == x {
        Some(0)
    } else {
        match first_position(s.drop_first(), x) {
            Some(i) => Some(i + 1),
            None => None,
        }
    }
}

/// The selection after toggling `x`: its first occurrence removed if it was
/// chosen, else `x` added at the end.
pub open spec fn toggled(s: Seq<Seq<char>>, x: Seq<char>) -> Seq<Seq<char>> {
    match first_position(s, x) {
        Some(i) => s.remove(i),
        None => s.push(x),
    }
}

proof fn lemma_first_position(s: Seq<Seq<char>>, x: Seq<char>)
    ensures
        match first_position(s, x) {
            Some(i) => 0 <= i < s.len() && s[i] == x && forall|k: int| 0 <= k < i ==> s[k] != x,
            None => forall|k: int| 0 <= k < s.len() ==> s[k] != x,
        },
    decreases s.len(),
{
    if s.len() > 0 && s[0] != x {
        lemma_first_position(s.drop_first(), x);
        assert forall|k: int| 0 < k < s.len() implies s[k] == s.drop_first()[k - 1] by {}
    }
}

/// Toggling a model that was not chosen, twice, gives the selection back.
pub proof fn lemma_toggle_twice(s: Seq<Seq<char>>, x: Seq<char>)
    requires
        !s.contains(x),
    ensures
        toggled(toggled(s, x), x) == s,
{
    lemma_first_position(s, x);
    assert(first_position(s, x) is None) by {
        if first_position(s, x) is Some {
            let i = first_position(s, x)->0;
            assert(s.contains(x));
        }
    }
    let t = s.push(x);
    lemma_first_position(t, x);
    assert forall|k: int| 0 <= k < s.len() implies t[k] != x by {
        assert(t[k] == s[k]);
        if t[k] == x {
            assert(s.contains(x));
        }
    }
    assert(first_position(t, x) == Some(s.len() as int)) by {
        match first_position(t, x) {
            Some(i) => {
                if i < s.len() {
                    assert(t[i] != x);
                }
            },
            None => {
                assert(t[s.len() as int] == x);
            },
        }
    }
    assert(t.remove(s.len() as int) =~= s);
}

/// Adds `model_id` to the selection, or removes it if it was chosen.
pub fn toggle_model(selected: &mut Vec<String>, model_id: String)
    ensures
        views(final(selected)@) == toggled(views(old(selected)@), model_id@),
{
    let ghost s = views(selected@);
    proof {
        lemma_first_position(s, model_id@);
    }
    let id = chars_of(model_id.as_str());
    let mut i: usize = 0;
    while i < selected.len()
        invariant
            i <= selected.len(),
            s == views(selected@),
            selected@ == old(selected)@,
            id@ == model_id@,
            forall|k: int| 0 <= k < i ==> selected@[k]@ != model_id@,
        decreases selected.len() - i,
    {
        if chars_eq(&chars_of(selected[i].as_str()), &id) {
            assert(s[i as int] == model_id@);
            assert(first_position(s, model_id@) == Some(i as int)) by {
                lemma_first_position(s, model_id@);
                match first_position(s, model_id@) {
                    Some(j) => {
                        if j < i {
                            assert(s[j] == selected@[j]@);
                        }
                        if j > i {
                            assert(s[i as int] == model_id@);
                        }
                    },
                    None => {},
                }
            }
            selected.remove(i);
            assert(views(selected@) =~= s.remove(i as int));
            return;
        }
        i = i + 1;
    }
    assert(first_position(s, model_id@) is None) by {
        lemma_first_position(s, model_id@);
        match first_position(s, model_id@) {
            Some(j) => {
                assert(s[j] == selected@[j]@);
            },
            None => {},
        }
    }
    let ghost m = model_id@;
    selected.push(model_id);
    assert(views(selected@) =~= s.push(m));
}

/// A model is listed under a search when the search, in lowercase, is empty,
/// or when the model's name or ID, in lowercase, contains it.
pub open spec fn model_listed(name: Seq<char>, id: Seq<char>, search: Seq<char>) -> bool {
    let q = lowercase(search);
    q.len() == 0 || contains_text(lowercase(name), q) || contains_text(lowercase(id), q)
}

/// Whether a model is listed under the search.
pub fn model_matches(display_name: &str, id: &str, search: &str) -> (r: bool)
    ensures
        r == model_listed(display_name@, id@, search@),
{
    let q = chars_of(to_lowercase(search).as_str());
    if q.len() == 0 {
        return true;
    }
    let name = chars_of(to_lowercase(display_name).as_str());
    if find_from_exec(&name, &q, 0).is_some() {
        return true;
    }
    let idl = chars_of(to_lowercase(id).as_str());
    find_from_exec(&idl, &q, 0).is_some()
}

/// The places, in order, of the models listed under the search; each model
/// is given by its display name and its ID.
pub fn listed_models(models: &[(String, String)], search: &str) -> (r: Vec<usize>)
    ensures
        forall|k: int| 0 <= k < r@.len() ==> (#[trigger] r@[k]) < models@.len() && model_listed(
            models@[r@[k] as int].0@,
            models@[r@[k] as int].1@,
            search@,
        ),
        forall|k: int, l: int| 0 <= k < l < r@.len() ==> #[trigger] r@[k] < #[trigger] r@[l],
        forall|i: int| 0 <= i < models@.len() && model_listed(#[trigger] models@[i].0@, models@[i].1@, search@)
            ==> r@.contains(i as usize),
{
    let mut r: Vec<usize> = Vec::new();
    let mut i: usize = 0;
    while i < models.len()
        invariant
            i <= models.len(),
            forall|k: int| 0 <= k < r@.len() ==> (#[trigger] r@[k]) < i && model_listed(
                models@[r@[k] as int].0@,
                models@[r@[k] as int].1@,
                search@,
            ),
            forall|k: int, l: int| 0 <= k < l < r@.len() ==> #[trigger] r@[k] < #[trigger] r@[l],
            forall|j: int| 0 <= j < i && model_listed(#[trigger] models@[j].0@, models@[j].1@, search@)
                ==> r@.contains(j as usize),
        decreases models.len() - i,
    {
        if model_matches(models[i].0.as_str(), models[i].1.as_str(), search) {
            let ghost before = r@;
            r.push(i);
            assert forall|j: int| 0 <= j < i + 1 && model_listed(#[trigger] models@[j].0@, models@[j].1@, search@)
                implies r@.contains(j as usize) by {
                if j < i {
                    let k = choose|k: int| 0 <= k < before.len() && before[k] == j as usize;
                    assert(r@[k] == j as usize);
                } else {
                    assert(r@[before.len() as int] == j as usize);
                }
            }
        }
        i = i + 1;
    }
    r
}

/// The models a chat starts with: the selection, unless nothing is selected.
pub fn models_to_start(selected: &[String]) -> (r: Option<Vec<String>>)
    ensures
        r is Some <==> selected@.len() > 0,
        r matches Some(v) ==> v@.len() == selected@.len() && forall|i: int| 0 <= i < v@.len() ==> (#[trigger] v@[i])@
            == selected@[i]@,
{
    if selected.len() == 0 {
        return None;
    }
    let mut v: Vec<String> = Vec::new();
    let mut i: usize = 0;
    while i < selected.len()
        invariant
            i <= selected.len(),
            v@.len() == i,
            forall|q: int| 0 <= q < i ==> (#[trigger] v@[q])@ == selected@[q]@,
        decreases selected.len() - i,
    {
        v.push(selected[i].clone());
        i = i + 1;
    }
    Some(v)
}


/// The search finds a model by its name or by its ID, in any case: an empty
/// search lists every model; otherwise a model is listed exactly when its
/// lowercase name or its lowercase ID contains the lowercase search.
pub proof fn lemma_search(name: Seq<char>, id: Seq<char>, search: Seq<char>)
    ensures
        lowercase(search).len() == 0 ==> model_listed(name, id, search),
        contains_text(lowercase(name), lowercase(search)) ==> model_listed(name, id, search),
        contains_text(lowercase(id), lowercase(search)) ==> model_listed(name, id, search),
        model_listed(name, id, search) && lowercase(search).len() > 0 ==> contains_text(lowercase(name), lowercase(search))
            || contains_text(lowercase(id), lowercase(search)),
{
}

} // verus!
