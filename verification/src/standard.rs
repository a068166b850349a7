//! The standard mode: each chosen model answers the user, with its own
//! conversation so far as context.

use vstd::prelude::*;
use crate::history::{ConversationHistory, ModelResponse};
use crate::text::{chars_eq, chars_of};

verus! {

/// What the request of a turn holds: the system prompt, each earlier
/// exchange as a user and an assistant message, then the new question, as
/// `(role, content)` pairs.
pub open spec fn turn_messages(system: Seq<char>, history: Seq<(String, String)>, text: Seq<char>) -> Seq<
    (Seq<char>, Seq<char>),
> {
    Seq::new(
        2 * history.len() + 2,
        |i: int|
            if i == 0 {
                ("system"@, system)
            } else if i == 2 * history.len() + 1 {
                ("user"@, text)
            } else if i % 2 == 1 {
                ("user"@, history[(i - 1) / 2].0@)
            } else {
                ("assistant"@, history[(i - 2) / 2].1@)
            },
    )
}

/// The messages of a turn, as `(role, content)` pairs.
pub fn chat_messages(system_prompt: &str, history: &[(String, String)], text: &str) -> (r: Vec<(String, String)>)
    requires
        2 * history@.len() + 2 <= usize::MAX,
    ensures
        r@.len() == 2 * history@.len() + 2,
        forall|i: int| 0 <= i < r@.len() ==> ((#[trigger] r@[i]).0@, r@[i].1@) == turn_messages(system_prompt@, history@, text@)[i],
{
    let ghost t = turn_messages(system_prompt@, history@, text@);
    let mut r: Vec<(String, String)> = Vec::new();
    r.push(("system".to_owned(), system_prompt.to_owned()));
    let mut k: usize = 0;
    while k < history.len()
        invariant
            k <= history.len(),
            2 * history@.len() + 2 <= usize::MAX,
            t == turn_messages(system_prompt@, history@, text@),
            r@.len() == 2 * k + 1,
            forall|i: int| 0 <= i < r@.len() ==> ((#[trigger] r@[i]).0@, r@[i].1@) == t[i],
        decreases history.len() - k,
    {
        r.push(("user".to_owned(), history[k].0.clone()));
        r.push(("assistant".to_owned(), history[k].1.clone()));
        assert(t[2 * k + 1] == ("user"@, history@[k as int].0@));
        assert(t[2 * k + 2] == ("assistant"@, history@[k as int].1@));
        k = k + 1;
    }
    r.push(("user".to_owned(), text.to_owned()));
    r
}

/// The last result that came for `id`, if any.
pub open spec fn last_result(results: Seq<(String, Result<String, String>)>, id: Seq<char>) -> Option<
    Result<String, String>,
>
    decreases results.len(),
{
    if results.len() == 0 {
        None
    } else if results.last().0@ == id {
        Some(results.last().1)
    } else {
        last_result(results.drop_last(), id)
    }
}

/// What a model's answer of a turn shows: its content, or its error, or
/// `No response received` when nothing came.
pub open spec fn response_of(model: Seq<char>, res: Option<Result<String, String>>) -> (
    Seq<char>,
    Seq<char>,
    Option<Seq<char>>,
) {
    match res {
        Some(Ok(content)) => (model, content@, None),
        Some(Err(e)) => (model, seq![], Some(e@)),
        None => (model, seq![], Some("No response received"@)),
    }
}

pub open spec fn response_fields(r: ModelResponse) -> (Seq<char>, Seq<char>, Option<Seq<char>>) {
    (
        r.model_id@,
        r.content@,
        match r.error_message {
            Some(e) => Some(e@),
            None => None,
        },
    )
}

/// Where the last result for `id` stands among `results`.
fn last_index_for(results: &[(String, Result<String, String>)], id: &Vec<char>) -> (r: Option<usize>)
    ensures
        match r {
            Some(q) => q < results@.len() && last_result(results@, id@) == Some(results@[q as int].1),
            None => last_result(results@, id@) is None,
        },
{
    let mut j = results.len();
    assert(results@.take(j as int) =~= results@);
    while j > 0
        invariant
            j <= results.len(),
            last_result(results@, id@) == last_result(results@.take(j as int), id@),
        decreases j,
    {
        assert(results@.take(j as int).drop_last() =~= results@.take(j - 1));
        if chars_eq(&chars_of(results[j - 1].0.as_str()), id) {
            return Some(j - 1);
        }
        j = j - 1;
    }
    None
}

/// The answers of a turn, one per chosen model in order, from the results
/// that came in (the last one for a model counts).
pub fn final_responses(models: &[String], results: &[(String, Result<String, String>)]) -> (r: Vec<ModelResponse>)
    ensures
        r@.len() == models@.len(),
        forall|i: int| 0 <= i < r@.len() ==> response_fields(#[trigger] r@[i]) == response_of(
            models@[i]@,
            last_result(results@, models@[i]@),
        ),
{
    let mut r: Vec<ModelResponse> = Vec::new();
    let mut i: usize = 0;
    while i < models.len()
        invariant
            i <= models.len(),
            r@.len() == i,
            forall|q: int| 0 <= q < i ==> response_fields(#[trigger] r@[q]) == response_of(
                models@[q]@,
                last_result(results@, models@[q]@),
            ),
        decreases models.len() - i,
    {
        let id = chars_of(models[i].as_str());
        let found = last_index_for(results, &id);
        let resp = match found {
            Some(q) => match &results[q].1 {
                Ok(content) => ModelResponse { model_id: models[i].clone(), content: content.clone(), error_message: None },
                Err(e) => ModelResponse { model_id: models[i].clone(), content: String::new(), error_message: Some(e.clone()) },
            },
            None => ModelResponse {
                model_id: models[i].clone(),
                content: String::new(),
                error_message: Some("No response received".to_owned()),
            },
        };
        r.push(resp);
        i = i + 1;
    }
    r
}

/// Adds the exchange to a single model's conversation, when its answer came
/// without an error.
pub fn record_single_exchange(history: &mut Vec<(String, String)>, text: &str, responses: &[ModelResponse])
    ensures
        (responses@.len() > 0 && responses@[0].error_message is None) ==> final(history)@.len() == old(
            history,
        )@.len() + 1 && final(history)@.take(old(history)@.len() as int) == old(history)@
            && final(history)@.last().0@ == text@ && final(history)@.last().1@ == responses@[0].content@,
        !(responses@.len() > 0 && responses@[0].error_message is None) ==> final(history)@ == old(
            history,
        )@,
{
    if responses.len() > 0 && responses[0].error_message.is_none() {
        let ghost before = history@;
        history.push((text.to_owned(), responses[0].content.clone()));
        assert(history@.take(before.len() as int) =~= before);
    }
}

/// An exchange as text: the user's message and the answer.
pub open spec fn exchange_view(p: (String, String)) -> (Seq<char>, Seq<char>) {
    (p.0@, p.1@)
}

pub open spec fn exchanges_view(s: Seq<(String, String)>) -> Seq<(Seq<char>, Seq<char>)> {
    s.map_values(|p: (String, String)| exchange_view(p))
}

/// The model IDs of the per-model conversations, in order.
pub open spec fn conversation_ids(c: Seq<(String, Vec<(String, String)>)>) -> Seq<Seq<char>> {
    c.map_values(|e: (String, Vec<(String, String)>)| e.0@)
}

/// Some model of `models` has ID `id`.
pub open spec fn chosen(models: Seq<String>, id: Seq<char>) -> bool {
    exists|j: int| 0 <= j < models.len() && #[trigger] models[j]@ == id
}

/// A fresh set of per-model conversations for the chosen models: one empty
/// conversation per distinct model ID, in the order the models were chosen.
pub fn fresh_conversations(models: &[String]) -> (r: Vec<(String, Vec<(String, String)>)>)
    ensures
        conversation_ids(r@).no_duplicates(),
        forall|i: int| 0 <= i < r@.len() ==> chosen(models@, #[trigger] r@[i].0@) && r@[i].1@.len() == 0,
        forall|j: int| 0 <= j < models@.len() ==> #[trigger] conversation_ids(r@).contains(models@[j]@),
{
    let mut r: Vec<(String, Vec<(String, String)>)> = Vec::new();
    let mut k: usize = 0;
    while k < models.len()
        invariant
            k <= models.len(),
            conversation_ids(r@).no_duplicates(),
            forall|i: int| 0 <= i < r@.len() ==> chosen(models@, #[trigger] r@[i].0@) && r@[i].1@.len() == 0,
            forall|j: int| 0 <= j < k ==> #[trigger] conversation_ids(r@).contains(models@[j]@),
        decreases models.len() - k,
    {
        let id = chars_of(models[k].as_str());
        let mut seen = false;
        let mut q: usize = 0;
        while q < r.len()
            invariant
                q <= r.len(),
                id@ == models@[k as int]@,
                seen == exists|t: int| 0 <= t < q && #[trigger] r@[t].0@ == id@,
            decreases r.len() - q,
        {
            if chars_eq(&chars_of(r[q].0.as_str()), &id) {
                seen = true;
            }
            q = q + 1;
        }
        let ghost before = r@;
        if seen {
            proof {
                let t = choose|t: int| 0 <= t < q && #[trigger] r@[t].0@ == id@;
                assert(conversation_ids(r@)[t] == models@[k as int]@);
            }
        } else {
            assert(chosen(models@, models@[k as int]@));
            r.push((models[k].clone(), Vec::new()));
            assert(conversation_ids(r@) =~= conversation_ids(before).push(models@[k as int]@));
            assert forall|j: int| 0 <= j <= k implies #[trigger] conversation_ids(r@).contains(models@[j]@) by {
                if j < k {
                    assert(conversation_ids(before).contains(models@[j]@));
                    let t = choose|t: int| 0 <= t < conversation_ids(before).len() && conversation_ids(before)[t] == models@[j]@;
                    assert(conversation_ids(r@)[t] == models@[j]@);
                } else {
                    assert(conversation_ids(r@)[before.len() as int] == models@[j]@);
                }
            }
        }
        k = k + 1;
    }
    r
}

/// The exchanges a turn adds to the conversation of model `id`: one for
/// each of its answers that came without an error, in order.
pub open spec fn added_for(responses: Seq<ModelResponse>, id: Seq<char>, text: Seq<char>) -> Seq<(Seq<char>, Seq<char>)>
    decreases responses.len(),
{
    if responses.len() == 0 {
        seq![]
    } else {
        let pre = added_for(responses.drop_last(), id, text);
        let r = responses.last();
        if r.error_message is None && r.model_id@ == id {
            pre.push((text, r.content@))
        } else {
            pre
        }
    }
}

/// Adds a turn to the per-model conversations: each answer that came
/// without an error joins the conversation of its model, where one is kept.
pub fn record_multi_exchange(
    conversations: &mut Vec<(String, Vec<(String, String)>)>,
    text: &str,
    responses: &[ModelResponse],
)
    ensures
        conversation_ids(final(conversations)@) == conversation_ids(old(conversations)@),
        forall|i: int| 0 <= i < final(conversations)@.len() ==> exchanges_view(#[trigger] final(conversations)@[i].1@)
            == exchanges_view(old(conversations)@[i].1@) + added_for(responses@, old(conversations)@[i].0@, text@),
{
    let ghost all = old(conversations)@;
    let mut rest: Vec<(String, Vec<(String, String)>)> = Vec::new();
    std::mem::swap(conversations, &mut rest);
    let n = rest.len();
    let mut k: usize = 0;
    while rest.len() > 0
        invariant
            k + rest.len() == n == all.len(),
            conversations@.len() == k,
            forall|q: int| 0 <= q < rest.len() ==> #[trigger] rest@[q] == all[q + k],
            forall|i: int| 0 <= i < k ==> (#[trigger] conversations@[i]).0@ == all[i].0@ && exchanges_view(
                conversations@[i].1@,
            ) == exchanges_view(all[i].1@) + added_for(responses@, all[i].0@, text@),
        decreases rest.len(),
    {
        let ghost r0 = rest@;
        let (id, mut h) = rest.remove(0);
        assert(all[k as int] == r0[0]);
        assert forall|q: int| 0 <= q < rest.len() implies #[trigger] rest@[q] == all[q + k + 1] by {
            assert(rest@[q] == r0[q + 1]);
        }
        let idc = chars_of(id.as_str());
        let ghost h0 = exchanges_view(h@);
        let mut j: usize = 0;
        assert(responses@.take(0) =~= Seq::<ModelResponse>::empty());
        assert(exchanges_view(h@) =~= h0 + added_for(responses@.take(0), id@, text@));
        while j < responses.len()
            invariant
                j <= responses.len(),
                idc@ == id@,
                exchanges_view(h@) == h0 + added_for(responses@.take(j as int), id@, text@),
            decreases responses.len() - j,
        {
            assert(responses@.take(j + 1).drop_last() =~= responses@.take(j as int));
            let ghost before = exchanges_view(h@);
            if responses[j].error_message.is_none() && chars_eq(&chars_of(responses[j].model_id.as_str()), &idc) {
                h.push((text.to_owned(), responses[j].content.clone()));
                assert(exchanges_view(h@) =~= before.push((text@, responses@[j as int].content@)));
            }
            j = j + 1;
        }
        assert(responses@.take(j as int) =~= responses@);
        let ghost prev = conversations@;
        conversations.push((id, h));
        assert forall|i: int| 0 <= i < k + 1 implies (#[trigger] conversations@[i]).0@ == all[i].0@ && exchanges_view(
            conversations@[i].1@,
        ) == exchanges_view(all[i].1@) + added_for(responses@, all[i].0@, text@) by {
            if i < k {
                assert(conversations@[i] == prev[i]);
            }
        }
        k = k + 1;
    }
    assert(conversation_ids(conversations@) =~= conversation_ids(all));
}

/// The conversation kept for model `id`, if any: the first listed under it.
pub open spec fn conversation_of(c: Seq<(String, Vec<(String, String)>)>, id: Seq<char>) -> Seq<(String, String)>
    decreases c.len(),
{
    if c.len() == 0 {
        seq![]
    } else if c[0].0@ == id {
        c[0].1@
    } else {
        conversation_of(c.drop_first(), id)
    }
}

/// The messages of a turn for one of several models: its own conversation
/// so far, or none where it has no conversation yet.
pub fn model_turn_messages(
    system_prompt: &str,
    conversations: &[(String, Vec<(String, String)>)],
    model_id: &str,
    text: &str,
) -> (r: Vec<(String, String)>)
    requires
        forall|i: int| 0 <= i < conversations@.len() ==> 2 * (#[trigger] conversations@[i]).1@.len() + 2 <= usize::MAX,
    ensures
        r@.len() == 2 * conversation_of(conversations@, model_id@).len() + 2,
        forall|i: int| 0 <= i < r@.len() ==> ((#[trigger] r@[i]).0@, r@[i].1@) == turn_messages(
            system_prompt@,
            conversation_of(conversations@, model_id@),
            text@,
        )[i],
{
    let idc = chars_of(model_id);
    let mut i: usize = 0;
    assert(conversations@.skip(0) =~= conversations@);
    while i < conversations.len()
        invariant
            i <= conversations.len(),
            idc@ == model_id@,
            forall|q: int| 0 <= q < conversations@.len() ==> 2 * (#[trigger] conversations@[q]).1@.len() + 2 <= usize::MAX,
            conversation_of(conversations@, model_id@) == conversation_of(conversations@.skip(i as int), model_id@),
        decreases conversations.len() - i,
    {
        assert(conversations@.skip(i as int).drop_first() =~= conversations@.skip(i + 1));
        if chars_eq(&chars_of(conversations[i].0.as_str()), &idc) {
            assert(2 * conversations@[i as int].1@.len() + 2 <= usize::MAX);
            assert(conversations@.skip(i as int)[0] == conversations@[i as int]);
            return chat_messages(system_prompt, conversations[i].1.as_slice(), text);
        }
        i = i + 1;
    }
    let empty: Vec<(String, String)> = Vec::new();
    assert(conversations@.skip(i as int).len() == 0);
    chat_messages(system_prompt, empty.as_slice(), text)
}

/// Adds a finished turn to the conversations: to the shared one when a
/// single model answered, to each model's own otherwise.
pub fn record_turn(history: &mut ConversationHistory, text: &str, single_model: bool, responses: &[ModelResponse])
    ensures
        single_model ==> final(history).multi_model@ == old(history).multi_model@
            && ((responses@.len() > 0 && responses@[0].error_message is None) ==> exchanges_view(final(history).single_model@)
            == exchanges_view(old(history).single_model@).push((text@, responses@[0].content@)))
            && (!(responses@.len() > 0 && responses@[0].error_message is None) ==> final(history).single_model@
            == old(history).single_model@),
        !single_model ==> final(history).single_model@ == old(history).single_model@ && conversation_ids(
            final(history).multi_model@,
        ) == conversation_ids(old(history).multi_model@) && forall|i: int|
            0 <= i < final(history).multi_model@.len() ==> exchanges_view(#[trigger] final(history).multi_model@[i].1@)
                == exchanges_view(old(history).multi_model@[i].1@) + added_for(
                responses@,
                old(history).multi_model@[i].0@,
                text@,
            ),
{
    if single_model {
        let ghost before = history.single_model@;
        record_single_exchange(&mut history.single_model, text, responses);
        if responses.len() > 0 && responses[0].error_message.is_none() {
            assert(history.single_model@ =~= before.push(history.single_model@.last()));
            assert(exchanges_view(history.single_model@) =~= exchanges_view(before).push((text@, responses@[0].content@)));
        }
    } else {
        record_multi_exchange(&mut history.multi_model, text, responses);
    }
}


/// A turn's request holds the system prompt first, then the earlier
/// exchanges oldest first (the `k`-th as the user's message at `2k+1` and
/// the answer at `2k+2`), and the new question last.
pub proof fn lemma_turn_order(system: Seq<char>, history: Seq<(String, String)>, text: Seq<char>)
    ensures
        turn_messages(system, history, text).len() == 2 * history.len() + 2,
        turn_messages(system, history, text)[0] == ("system"@, system),
        turn_messages(system, history, text)[2 * history.len() + 1int] == ("user"@, text),
        forall|k: int| 0 <= k < history.len() ==> {
            &&& #[trigger] turn_messages(system, history, text)[2 * k + 1] == ("user"@, history[k].0@)
            &&& turn_messages(system, history, text)[2 * k + 2] == ("assistant"@, history[k].1@)
        },
{
    let t = turn_messages(system, history, text);
    assert forall|k: int| 0 <= k < history.len() implies {
        &&& #[trigger] t[2 * k + 1] == ("user"@, history[k].0@)
        &&& t[2 * k + 2] == ("assistant"@, history[k].1@)
    } by {
        assert((2 * k + 1) % 2 == 1);
        assert((2 * k + 2) % 2 == 0);
        assert((2 * k + 1 - 1) / 2 == k);
        assert((2 * k + 2 - 2) / 2 == k);
    }
}

/// The request after one more exchange is the request that asked it, with
/// its answer and the new question after it: exchanges stay in the order
/// they happened.
pub proof fn lemma_turn_extends(system: Seq<char>, history: Seq<(String, String)>, e: (String, String), text: Seq<char>)
    ensures
        turn_messages(system, history.push(e), text) == turn_messages(system, history, e.0@).push(
            ("assistant"@, e.1@),
        ).push(("user"@, text)),
{
    lemma_turn_order(system, history.push(e), text);
    lemma_turn_order(system, history, e.0@);
    let a = turn_messages(system, history.push(e), text);
    let b = turn_messages(system, history, e.0@).push(("assistant"@, e.1@)).push(("user"@, text));
    assert forall|i: int| 0 <= i < a.len() implies a[i] == b[i] by {
        if i > 0 && i < 2 * history.len() + 1 {
            let k = (i - 1) / 2;
            if i % 2 == 1 {
                assert(i == 2 * k + 1);
                assert(history.push(e)[k] == history[k]);
            } else {
                assert(i == 2 * k + 2);
                assert(history.push(e)[k] == history[k]);
            }
        } else if i == 2 * history.len() + 1 {
            assert(history.push(e)[history.len() as int] == e);
        }
    }
    assert(a =~= b);
}

} // verus!
