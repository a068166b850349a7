//! How the answers of several models streaming at once are put together:
//! each piece of text joins its model's answer so far, and the end or an
//! error of a stream makes that model's result.

use vstd::prelude::*;
use crate::history::ModelResponse;
use crate::prompts::{response_answer, AnswerView};
use crate::text::{chars_eq, chars_of, concat, string_of};

verus! {

/// What a model's stream reports.
#[derive(Clone, Debug, PartialEq)]
pub enum StreamStep {
    /// A further piece of the answer.
    Content(String),
    /// The answer is complete.
    Done,
    /// The stream failed with this message.
    Error(String),
}

/// The answers so far, one per model ID that has sent text.
pub open spec fn partial_view(p: Seq<(String, String)>) -> Seq<(Seq<char>, Seq<char>)> {
    p.map_values(|e: (String, String)| (e.0@, e.1@))
}

/// The text that model `id` has sent so far: that of its first entry, or
/// nothing.
pub open spec fn text_so_far(p: Seq<(Seq<char>, Seq<char>)>, id: Seq<char>) -> Seq<char>
    decreases p.len(),
{
    if p.len() == 0 {
        seq![]
    } else if p[0].0 == id {
        p[0].1
    } else {
        text_so_far(p.drop_first(), id)
    }
}

/// The answers so far with `chunk` added to model `id`'s: at the end of its
/// first entry, or as a new entry at the end.
pub open spec fn with_chunk(p: Seq<(Seq<char>, Seq<char>)>, id: Seq<char>, chunk: Seq<char>) -> Seq<(Seq<char>, Seq<char>)>
    decreases p.len(),
{
    if p.len() == 0 {
        seq![(id, chunk)]
    } else if p[0].0 == id {
        p.update(0, (id, p[0].1 + chunk))
    } else {
        seq![p[0]] + with_chunk(p.drop_first(), id, chunk)
    }
}

/// The result a finished or failed stream of model `id` makes, if any.
pub open spec fn step_result(p: Seq<(Seq<char>, Seq<char>)>, id: Seq<char>, step: StreamStep) -> Option<AnswerView> {
    match step {
        StreamStep::Content(_) => None,
        StreamStep::Done => Some((id, text_so_far(p, id), None)),
        StreamStep::Error(e) => Some((id, seq![], Some(e@))),
    }
}

/// Where the first entry of model `id` stands.
fn entry_of(partial: &Vec<(String, String)>, id: &Vec<char>) -> (r: Option<usize>)
    ensures
        match r {
            Some(q) => q < partial@.len() && partial@[q as int].0@ == id@ && forall|t: int| 0 <= t < q ==> #[trigger] partial@[t].0@
                != id@,
            None => forall|t: int| 0 <= t < partial@.len() ==> #[trigger] partial@[t].0@ != id@,
        },
{
    let mut i: usize = 0;
    while i < partial.len()
        invariant
            i <= partial.len(),
            forall|t: int| 0 <= t < i ==> #[trigger] partial@[t].0@ != id@,
        decreases partial.len() - i,
    {
        if chars_eq(&chars_of(partial[i].0.as_str()), id) {
            return Some(i);
        }
        i = i + 1;
    }
    None
}

proof fn lemma_first_entry(p: Seq<(Seq<char>, Seq<char>)>, id: Seq<char>, chunk: Seq<char>, q: Option<int>)
    requires
        match q {
            Some(q) => 0 <= q < p.len() && p[q].0 == id && forall|t: int| 0 <= t < q ==> #[trigger] p[t].0 != id,
            None => forall|t: int| 0 <= t < p.len() ==> #[trigger] p[t].0 != id,
        },
    ensures
        match q {
            Some(q) => text_so_far(p, id) == p[q].1 && with_chunk(p, id, chunk) == p.update(q, (id, p[q].1 + chunk)),
            None => text_so_far(p, id) == Seq::<char>::empty() && with_chunk(p, id, chunk) == p.push((id, chunk)),
        },
    decreases p.len(),
{
    if p.len() > 0 && p[0].0 != id {
        let d = p.drop_first();
        let q2 = match q {
            Some(q) => Some(q - 1),
            None => None::<int>,
        };
        assert forall|t: int| 0 <= t < d.len() && (q2 matches Some(k) ==> t < k) implies #[trigger] d[t].0 != id by {
            assert(d[t] == p[t + 1]);
        }
        lemma_first_entry(d, id, chunk, q2);
        match q {
            Some(q) => {
                assert(seq![p[0]] + d.update(q - 1, (id, p[q].1 + chunk)) =~= p.update(q, (id, p[q].1 + chunk)));
            },
            None => {
                assert(seq![p[0]] + d.push((id, chunk)) =~= p.push((id, chunk)));
            },
        }
    } else if p.len() > 0 {
        assert(q == Some(0int)) by {
            if let Some(k) = q {
                if k > 0 {
                    assert(p[0].0 != id);
                }
            }
        }
    }
}

/// Takes in one report of model `model_id`'s stream: a piece of text joins
/// its answer so far; the end of the stream adds a result with that answer,
/// and an error adds a result with the error and no text.
pub fn take_step(
    partial: &mut Vec<(String, String)>,
    results: &mut Vec<ModelResponse>,
    model_id: &str,
    step: StreamStep,
)
    ensures
        partial_view(final(partial)@) == match step {
            StreamStep::Content(chunk) => with_chunk(partial_view(old(partial)@), model_id@, chunk@),
            _ => partial_view(old(partial)@),
        },
        results_view(final(results)@) == match step_result(partial_view(old(partial)@), model_id@, step) {
            Some(a) => results_view(old(results)@).push(a),
            None => results_view(old(results)@),
        },
{
    let ghost p0 = partial_view(partial@);
    let id = chars_of(model_id);
    let found = entry_of(partial, &id);
    proof {
        let q = match found {
            Some(q) => Some(q as int),
            None => None::<int>,
        };
        let chunk = match step {
            StreamStep::Content(ref c) => c@,
            _ => seq![],
        };
        lemma_first_entry(p0, model_id@, chunk, q);
    }
    let ghost r0 = results_view(results@);
    match step {
        StreamStep::Content(chunk) => {
            match found {
                Some(q) => {
                    let text = string_of(&concat(&chars_of(partial[q].1.as_str()), &chars_of(chunk.as_str())));
                    let key = string_of(&id);
                    partial.set(q, (key, text));
                    assert(partial_view(partial@) =~= p0.update(q as int, (model_id@, p0[q as int].1 + chunk@)));
                },
                None => {
                    partial.push((string_of(&id), chunk));
                    assert(partial_view(partial@) =~= p0.push((model_id@, chunk@)));
                },
            }
        },
        StreamStep::Done => {
            let text = match found {
                Some(q) => string_of(&chars_of(partial[q].1.as_str())),
                None => String::new(),
            };
            results.push(ModelResponse { model_id: string_of(&id), content: text, error_message: None });
            assert(results_view(results@) =~= r0.push((model_id@, text_so_far(p0, model_id@), None)));
        },
        StreamStep::Error(e) => {
            results.push(ModelResponse { model_id: string_of(&id), content: String::new(), error_message: Some(e) });
            assert(results_view(results@) =~= r0.push((model_id@, seq![], Some(e@))));
        },
    }
}

/// A piece of text goes to its own model's answer and to no other: that
/// answer grows by the piece, and every other model's stays as it was.
pub proof fn lemma_chunk_appends(p: Seq<(Seq<char>, Seq<char>)>, id: Seq<char>, chunk: Seq<char>, other: Seq<char>)
    ensures
        text_so_far(with_chunk(p, id, chunk), id) == text_so_far(p, id) + chunk,
        other != id ==> text_so_far(with_chunk(p, id, chunk), other) == text_so_far(p, other),
    decreases p.len(),
{
    if p.len() == 0 {
        let w = seq![(id, chunk)];
        assert(w.drop_first().len() == 0);
        assert(text_so_far(w.drop_first(), other) == Seq::<char>::empty());
        assert(w[0].0 == id);
        assert(Seq::<char>::empty() + chunk =~= chunk);
    } else if p[0].0 == id {
        let w = p.update(0, (id, p[0].1 + chunk));
        assert(w.drop_first() =~= p.drop_first());
        assert(w[0].0 == id);
    } else {
        lemma_chunk_appends(p.drop_first(), id, chunk, other);
        let w = seq![p[0]] + with_chunk(p.drop_first(), id, chunk);
        assert(w.drop_first() =~= with_chunk(p.drop_first(), id, chunk));
        assert(w[0] == p[0]);
    }
}

pub open spec fn results_view(r: Seq<ModelResponse>) -> Seq<AnswerView> {
    r.map_values(|x: ModelResponse| response_answer(x))
}

} // verus!
