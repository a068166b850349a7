//! The prompts sent to the models in each phase of the competitive and the
//! collaborative modes, made from the editable templates by filling in their
//! placeholders.

use vstd::prelude::*;
use crate::collaborative::CollaborativePromptTemplates;
use crate::history::{ModelProposal, ModelResponse, ModelVote, PromptTemplates, VoteTally};
use crate::text::{
    chars_eq, chars_of, concat, join, join_range, replace_all, replace_all_exec, string_of, trim,
    trimmed, view_lines,
};
use crate::votes::{
    are_winners_of, compute_tallies, is_tally_of, lemma_vote_choice, parse_vote, views, vote_choice,
};
use crate::votes::CompetitivePhase;

verus! {

/// `template` with every `{key}` placeholder replaced by `value`
/// (`str::replace`).
fn fill(template: &Vec<char>, key: &str, value: &str) -> (r: Vec<char>)
    requires
        key@.len() > 0,
    ensures
        r@ == replace_all(template@, key@, value@),
{
    replace_all_exec(template, &chars_of(key), &chars_of(value))
}

proof fn lemma_keys()
    ensures
        "{user_question}"@.len() > 0,
        "{all_proposals}"@.len() > 0,
        "{your_proposal}"@.len() > 0,
        "{other_responses}"@.len() > 0,
        "{initial_responses}"@.len() > 0,
        "{reviews}"@.len() > 0,
{
    reveal_strlit("{user_question}");
    reveal_strlit("{all_proposals}");
    reveal_strlit("{your_proposal}");
    reveal_strlit("{other_responses}");
    reveal_strlit("{initial_responses}");
    reveal_strlit("{reviews}");
}

/// The prompt asking each model for its proposal.
pub fn proposal_prompt(templates: &PromptTemplates, question: &str) -> (r: String)
    ensures
        r@ == replace_all(templates.proposal@, "{user_question}"@, question@),
{
    proof {
        lemma_keys();
    }
    string_of(&fill(&chars_of(templates.proposal.as_str()), "{user_question}", question))
}

/// The prompt asking a model for its vote.
pub fn voting_prompt(templates: &PromptTemplates, question: &str, all_proposals: &str, your_proposal: &str) -> (r: String)
    ensures
        r@ == replace_all(
            replace_all(
                replace_all(templates.voting@, "{user_question}"@, question@),
                "{all_proposals}"@,
                all_proposals@,
            ),
            "{your_proposal}"@,
            your_proposal@,
        ),
{
    proof {
        lemma_keys();
    }
    let t = fill(&chars_of(templates.voting.as_str()), "{user_question}", question);
    let t = fill(&t, "{all_proposals}", all_proposals);
    string_of(&fill(&t, "{your_proposal}", your_proposal))
}

/// How a proposal is shown to the voters.
pub open spec fn proposal_entry(p: ModelProposal) -> Seq<char> {
    "Model: "@ + p.model_id@ + "\n"@ + p.content@ + "\n"@
}

/// The entries of the proposals that came without an error, in order.
pub open spec fn proposal_entries(ps: Seq<ModelProposal>) -> Seq<Seq<char>>
    decreases ps.len(),
{
    if ps.len() == 0 {
        seq![]
    } else {
        let pre = proposal_entries(ps.drop_last());
        if ps.last().error_message is None {
            pre.push(proposal_entry(ps.last()))
        } else {
            pre
        }
    }
}

/// The models whose proposal came without an error, in order.
pub open spec fn successful_ids(ps: Seq<ModelProposal>) -> Seq<Seq<char>>
    decreases ps.len(),
{
    if ps.len() == 0 {
        seq![]
    } else {
        let pre = successful_ids(ps.drop_last());
        if ps.last().error_message is None {
            pre.push(ps.last().model_id@)
        } else {
            pre
        }
    }
}

/// The successful proposals, as the voters see them, separated by rules.
pub fn all_proposals_text(proposals: &[ModelProposal]) -> (r: String)
    ensures
        r@ == join(proposal_entries(proposals@), "\n---\n\n"@),
{
    let mut pieces: Vec<Vec<char>> = Vec::new();
    let mut k: usize = 0;
    assert(proposals@.take(0) =~= Seq::<ModelProposal>::empty());
    assert(view_lines(pieces@) =~= Seq::<Seq<char>>::empty());
    while k < proposals.len()
        invariant
            k <= proposals.len(),
            view_lines(pieces@) == proposal_entries(proposals@.take(k as int)),
        decreases proposals.len() - k,
    {
        assert(proposals@.take(k + 1).drop_last() =~= proposals@.take(k as int));
        let p = &proposals[k];
        if p.error_message.is_none() {
            let e = concat(&chars_of("Model: "), &chars_of(p.model_id.as_str()));
            let e = concat(&e, &chars_of("\n"));
            let e = concat(&e, &chars_of(p.content.as_str()));
            let e = concat(&e, &chars_of("\n"));
            let ghost before = view_lines(pieces@);
            pieces.push(e);
            assert(view_lines(pieces@) =~= before.push(proposal_entry(*p)));
        }
        k = k + 1;
    }
    assert(proposals@.take(proposals.len() as int) =~= proposals@);
    assert(view_lines(pieces@).subrange(0, pieces.len() as int) =~= view_lines(pieces@));
    string_of(&join_range(&pieces, 0, pieces.len(), &chars_of("\n---\n\n")))
}

/// The models whose proposal came without an error: the candidates of the
/// vote.
pub fn successful_model_ids(proposals: &[ModelProposal]) -> (r: Vec<String>)
    ensures
        crate::votes::views(r@) == successful_ids(proposals@),
{
    let mut ids: Vec<String> = Vec::new();
    let mut k: usize = 0;
    assert(proposals@.take(0) =~= Seq::<ModelProposal>::empty());
    assert(crate::votes::views(ids@) =~= Seq::<Seq<char>>::empty());
    while k < proposals.len()
        invariant
            k <= proposals.len(),
            crate::votes::views(ids@) == successful_ids(proposals@.take(k as int)),
        decreases proposals.len() - k,
    {
        assert(proposals@.take(k + 1).drop_last() =~= proposals@.take(k as int));
        if proposals[k].error_message.is_none() {
            let ghost before = crate::votes::views(ids@);
            ids.push(proposals[k].model_id.clone());
            assert(crate::votes::views(ids@) =~= before.push(proposals@[k as int].model_id@));
        }
        k = k + 1;
    }
    assert(proposals@.take(proposals.len() as int) =~= proposals@);
    ids
}

/// The name under which a phase is saved.
pub open spec fn phase_tag_of(p: CompetitivePhase) -> Seq<char> {
    match p {
        CompetitivePhase::Proposal => "proposal"@,
        CompetitivePhase::Voting => "voting"@,
        CompetitivePhase::Tallying => "tallying"@,
        CompetitivePhase::Complete => "complete"@,
    }
}

/// The phase a saved name stands for; an unknown name counts as complete.
pub open spec fn phase_of_tag(t: Seq<char>) -> CompetitivePhase {
    if t == "proposal"@ {
        CompetitivePhase::Proposal
    } else if t == "voting"@ {
        CompetitivePhase::Voting
    } else if t == "tallying"@ {
        CompetitivePhase::Tallying
    } else {
        CompetitivePhase::Complete
    }
}

/// A saved phase reads back as the phase it was saved from.
pub proof fn lemma_phase_tag(p: CompetitivePhase)
    ensures
        phase_of_tag(phase_tag_of(p)) == p,
{
    reveal_strlit("proposal");
    reveal_strlit("voting");
    reveal_strlit("tallying");
    reveal_strlit("complete");
    assert("voting"@.len() != "proposal"@.len());
    assert("tallying"@[0] != "proposal"@[0]);
    assert("tallying"@.len() != "voting"@.len());
    assert("complete"@[0] != "proposal"@[0]);
    assert("complete"@.len() != "voting"@.len());
    assert("complete"@[0] != "tallying"@[0]);
}

/// The name under which a phase is saved.
pub fn phase_tag(p: CompetitivePhase) -> (r: &'static str)
    ensures
        r@ == phase_tag_of(p),
{
    match p {
        CompetitivePhase::Proposal => "proposal",
        CompetitivePhase::Voting => "voting",
        CompetitivePhase::Tallying => "tallying",
        CompetitivePhase::Complete => "complete",
    }
}

/// The phase a saved name stands for.
pub fn phase_from_tag(t: &str) -> (r: CompetitivePhase)
    ensures
        r == phase_of_tag(t@),
{
    let cs = chars_of(t);
    if chars_eq(&cs, &chars_of("proposal")) {
        CompetitivePhase::Proposal
    } else if chars_eq(&cs, &chars_of("voting")) {
        CompetitivePhase::Voting
    } else if chars_eq(&cs, &chars_of("tallying")) {
        CompetitivePhase::Tallying
    } else {
        CompetitivePhase::Complete
    }
}

/// How a response is shown to the other models: `model: content`.
pub open spec fn response_entry(r: ModelResponse) -> Seq<char> {
    r.model_id@ + ": "@ + r.content@
}

/// The entries of the responses that came without an error, leaving out
/// those of the model `skip`, in order.
pub open spec fn response_entries(rs: Seq<ModelResponse>, skip: Option<Seq<char>>) -> Seq<Seq<char>>
    decreases rs.len(),
{
    if rs.len() == 0 {
        seq![]
    } else {
        let pre = response_entries(rs.drop_last(), skip);
        let last = rs.last();
        if last.error_message is None && skip != Some(last.model_id@) {
            pre.push(response_entry(last))
        } else {
            pre
        }
    }
}

/// The successful responses, but those of `skip`, one `model: content` per
/// paragraph.
pub fn responses_text(responses: &[ModelResponse], skip: Option<&str>) -> (r: String)
    ensures
        r@ == join(
            response_entries(
                responses@,
                match skip {
                    Some(s) => Some(s@),
                    None => None,
                },
            ),
            "\n\n"@,
        ),
{
    let ghost sk = match skip {
        Some(s) => Some(s@),
        None => None::<Seq<char>>,
    };
    let mut pieces: Vec<Vec<char>> = Vec::new();
    let mut k: usize = 0;
    assert(responses@.take(0) =~= Seq::<ModelResponse>::empty());
    assert(view_lines(pieces@) =~= Seq::<Seq<char>>::empty());
    while k < responses.len()
        invariant
            k <= responses.len(),
            sk == match skip {
                Some(s) => Some(s@),
                None => None::<Seq<char>>,
            },
            view_lines(pieces@) == response_entries(responses@.take(k as int), sk),
        decreases responses.len() - k,
    {
        assert(responses@.take(k + 1).drop_last() =~= responses@.take(k as int));
        let r = &responses[k];
        let id = chars_of(r.model_id.as_str());
        let skipped = match skip {
            Some(s) => chars_eq(&id, &chars_of(s)),
            None => false,
        };
        if r.error_message.is_none() && !skipped {
            let e = concat(&id, &chars_of(": "));
            let e = concat(&e, &chars_of(r.content.as_str()));
            let ghost before = view_lines(pieces@);
            pieces.push(e);
            assert(view_lines(pieces@) =~= before.push(response_entry(*r)));
        }
        k = k + 1;
    }
    assert(responses@.take(responses.len() as int) =~= responses@);
    assert(view_lines(pieces@).subrange(0, pieces.len() as int) =~= view_lines(pieces@));
    string_of(&join_range(&pieces, 0, pieces.len(), &chars_of("\n\n")))
}

/// The prompt asking each model for its first answer.
pub fn initial_prompt(templates: &CollaborativePromptTemplates, question: &str) -> (r: String)
    ensures
        r@ == replace_all(templates.initial_response@, "{user_question}"@, question@),
{
    proof {
        lemma_keys();
    }
    string_of(&fill(&chars_of(templates.initial_response.as_str()), "{user_question}", question))
}

/// The prompt asking a model to review the other answers.
pub fn review_prompt(templates: &CollaborativePromptTemplates, question: &str, other_responses: &str) -> (r: String)
    ensures
        r@ == replace_all(
            replace_all(templates.cross_review@, "{user_question}"@, question@),
            "{other_responses}"@,
            other_responses@,
        ),
{
    proof {
        lemma_keys();
    }
    let t = fill(&chars_of(templates.cross_review.as_str()), "{user_question}", question);
    string_of(&fill(&t, "{other_responses}", other_responses))
}

/// The prompt asking for the answer that combines the others.
pub fn consensus_prompt(templates: &CollaborativePromptTemplates, question: &str, initial_responses: &str, reviews: &str) -> (r: String)
    ensures
        r@ == replace_all(
            replace_all(
                replace_all(templates.consensus@, "{user_question}"@, question@),
                "{initial_responses}"@,
                initial_responses@,
            ),
            "{reviews}"@,
            reviews@,
        ),
{
    proof {
        lemma_keys();
    }
    let t = fill(&chars_of(templates.consensus.as_str()), "{user_question}", question);
    let t = fill(&t, "{initial_responses}", initial_responses);
    string_of(&fill(&t, "{reviews}", reviews))
}

/// Whether a round can start: the question is not blank, no round is
/// running, and at least `min_models` models are chosen (one for the
/// collaborative mode, two for the competitive mode).
pub fn round_can_start(question: &str, busy: bool, models: &[String], min_models: usize) -> (r: bool)
    ensures
        r == (trim(question@).len() > 0 && !busy && models.len() >= min_models),
{
    let cs = chars_of(question);
    let t = trimmed(&cs, 0, cs.len());
    assert(cs@.subrange(0, cs@.len() as int) =~= cs@);
    t.len() > 0 && !busy && models.len() >= min_models
}

/// The number of responses that came without an error.
pub open spec fn ok_count(rs: Seq<ModelResponse>) -> nat
    decreases rs.len(),
{
    if rs.len() == 0 {
        0
    } else {
        ok_count(rs.drop_last()) + if rs.last().error_message is None {
            1nat
        } else {
            0nat
        }
    }
}

fn count_ok(rs: &[ModelResponse]) -> (n: usize)
    ensures
        n == ok_count(rs@),
{
    let mut n: usize = 0;
    let mut k: usize = 0;
    assert(rs@.take(0) =~= Seq::<ModelResponse>::empty());
    while k < rs.len()
        invariant
            k <= rs.len(),
            n == ok_count(rs@.take(k as int)),
            n <= k,
        decreases rs.len() - k,
    {
        assert(rs@.take(k + 1).drop_last() =~= rs@.take(k as int));
        if rs[k].error_message.is_none() {
            n = n + 1;
        }
        k = k + 1;
    }
    assert(rs@.take(rs.len() as int) =~= rs@);
    n
}

/// The review prompt for a model, given the other answers.
pub open spec fn review_prompt_for(
    t: CollaborativePromptTemplates,
    question: Seq<char>,
    phase1: Seq<ModelResponse>,
    model: Seq<char>,
) -> Seq<char> {
    replace_all(
        replace_all(t.cross_review@, "{user_question}"@, question),
        "{other_responses}"@,
        join(response_entries(phase1, Some(model)), "\n\n"@),
    )
}

/// The review phase of a collaborative round: once at least two first
/// answers came without an error, each chosen model, in order, is asked to
/// review the successful answers of the other models (never its own); with
/// fewer, nobody reviews.
pub fn review_requests(
    templates: &CollaborativePromptTemplates,
    question: &str,
    models: &[String],
    phase1: &[ModelResponse],
) -> (r: Vec<(String, String)>)
    ensures
        ok_count(phase1@) < 2 ==> r@.len() == 0,
        ok_count(phase1@) >= 2 ==> r@.len() == models@.len(),
        forall|i: int| 0 <= i < r@.len() ==> (#[trigger] r@[i]).0@ == models@[i]@ && r@[i].1@
            == review_prompt_for(*templates, question@, phase1@, models@[i]@),
{
    let mut r: Vec<(String, String)> = Vec::new();
    if count_ok(phase1) < 2 {
        return r;
    }
    let mut i: usize = 0;
    while i < models.len()
        invariant
            i <= models.len(),
            r@.len() == i,
            forall|j: int| 0 <= j < i ==> (#[trigger] r@[j]).0@ == models@[j]@ && r@[j].1@
                == review_prompt_for(*templates, question@, phase1@, models@[j]@),
        decreases models.len() - i,
    {
        let others = responses_text(phase1, Some(models[i].as_str()));
        let prompt = review_prompt(templates, question, others.as_str());
        r.push((models[i].clone(), prompt));
        i = i + 1;
    }
    r
}

/// The consensus prompt, over all successful answers and all successful
/// reviews.
pub open spec fn consensus_prompt_for(
    t: CollaborativePromptTemplates,
    question: Seq<char>,
    phase1: Seq<ModelResponse>,
    reviews: Seq<ModelResponse>,
) -> Seq<char> {
    replace_all(
        replace_all(
            replace_all(t.consensus@, "{user_question}"@, question),
            "{initial_responses}"@,
            join(response_entries(phase1, None), "\n\n"@),
        ),
        "{reviews}"@,
        join(response_entries(reviews, None), "\n\n"@),
    )
}

/// The consensus phase of a collaborative round: when at least two first
/// answers came without an error, the first chosen model is asked to combine
/// all the successful answers and reviews into one; otherwise there is no
/// consensus.
pub fn consensus_request(
    templates: &CollaborativePromptTemplates,
    question: &str,
    models: &[String],
    phase1: &[ModelResponse],
    reviews: &[ModelResponse],
) -> (r: Option<(String, String)>)
    ensures
        r is Some <==> (ok_count(phase1@) >= 2 && models@.len() > 0),
        r matches Some((m, p)) ==> m@ == models@[0]@ && p@ == consensus_prompt_for(
            *templates,
            question@,
            phase1@,
            reviews@,
        ),
{
    if count_ok(phase1) < 2 || models.len() == 0 {
        return None;
    }
    let initial = responses_text(phase1, None);
    let reviewed = responses_text(reviews, None);
    let prompt = consensus_prompt(templates, question, initial.as_str(), reviewed.as_str());
    Some((models[0].clone(), prompt))
}

/// The proposals that came without an error, in order.
pub open spec fn successful_proposals(ps: Seq<ModelProposal>) -> Seq<ModelProposal>
    decreases ps.len(),
{
    if ps.len() == 0 {
        seq![]
    } else {
        let pre = successful_proposals(ps.drop_last());
        if ps.last().error_message is None {
            pre.push(ps.last())
        } else {
            pre
        }
    }
}

proof fn lemma_successful(ps: Seq<ModelProposal>)
    ensures
        successful_ids(ps).len() == successful_proposals(ps).len(),
        forall|i: int| 0 <= i < successful_ids(ps).len() ==> #[trigger] successful_ids(ps)[i]
            == successful_proposals(ps)[i].model_id@,
    decreases ps.len(),
{
    if ps.len() > 0 {
        lemma_successful(ps.drop_last());
    }
}

/// The voting prompt of a model, given its own proposal.
pub open spec fn voting_prompt_for(
    t: PromptTemplates,
    question: Seq<char>,
    proposals: Seq<ModelProposal>,
    own: Seq<char>,
) -> Seq<char> {
    replace_all(
        replace_all(
            replace_all(t.voting@, "{user_question}"@, question),
            "{all_proposals}"@,
            join(proposal_entries(proposals), "\n---\n\n"@),
        ),
        "{your_proposal}"@,
        own,
    )
}

/// The voting phase of a competitive round: once at least two proposals
/// came without an error, each model with a successful proposal, in order,
/// is shown all of them and its own, and asked for a vote; with fewer,
/// nobody votes.
pub fn voting_requests(templates: &PromptTemplates, question: &str, proposals: &[ModelProposal]) -> (r: Vec<(String, String)>)
    ensures
        successful_ids(proposals@).len() < 2 ==> r@.len() == 0,
        successful_ids(proposals@).len() >= 2 ==> r@.len() == successful_proposals(proposals@).len(),
        forall|i: int| 0 <= i < r@.len() ==> {
            let p = successful_proposals(proposals@)[i];
            &&& (#[trigger] r@[i]).0@ == p.model_id@
            &&& r@[i].1@ == voting_prompt_for(*templates, question@, proposals@, p.content@)
        },
{
    proof {
        lemma_successful(proposals@);
    }
    let mut r: Vec<(String, String)> = Vec::new();
    let ids = successful_model_ids(proposals);
    if ids.len() < 2 {
        return r;
    }
    let all = all_proposals_text(proposals);
    let mut k: usize = 0;
    assert(proposals@.take(0) =~= Seq::<ModelProposal>::empty());
    while k < proposals.len()
        invariant
            k <= proposals.len(),
            all@ == join(proposal_entries(proposals@), "\n---\n\n"@),
            r@.len() == successful_proposals(proposals@.take(k as int)).len(),
            forall|i: int| 0 <= i < r@.len() ==> {
                let p = successful_proposals(proposals@.take(k as int))[i];
                &&& (#[trigger] r@[i]).0@ == p.model_id@
                &&& r@[i].1@ == voting_prompt_for(*templates, question@, proposals@, p.content@)
            },
        decreases proposals.len() - k,
    {
        assert(proposals@.take(k + 1).drop_last() =~= proposals@.take(k as int));
        let p = &proposals[k];
        if p.error_message.is_none() {
            let prompt = voting_prompt(templates, question, all.as_str(), p.content.as_str());
            r.push((p.model_id.clone(), prompt));
        }
        k = k + 1;
    }
    assert(proposals@.take(proposals.len() as int) =~= proposals@);
    r
}

/// What the list of a round's votes shows of a vote.
pub open spec fn vote_view(v: ModelVote) -> (Seq<char>, Option<Seq<char>>, Seq<char>, Option<Seq<char>>) {
    (
        v.voter_id@,
        match v.voted_for {
            Some(x) => Some(x@),
            None => None,
        },
        v.raw_response@,
        match v.error_message {
            Some(e) => Some(e@),
            None => None,
        },
    )
}

/// The vote a voter's answer makes: the model its response chooses among
/// the candidates, or none with the error when asking failed.
pub open spec fn vote_from(voter: Seq<char>, answer: Result<String, String>, ids: Seq<Seq<char>>) -> (
    Seq<char>,
    Option<Seq<char>>,
    Seq<char>,
    Option<Seq<char>>,
) {
    match answer {
        Ok(text) => (voter, vote_choice(text@, voter, ids), text@, None),
        Err(e) => (voter, None, seq![], Some(e@)),
    }
}

/// The votes of a round from the voters' answers, in order: only a model
/// among the candidates votes, and only its first answer counts.
pub open spec fn round_votes(answers: Seq<(String, Result<String, String>)>, ids: Seq<Seq<char>>) -> Seq<
    (Seq<char>, Option<Seq<char>>, Seq<char>, Option<Seq<char>>),
>
    decreases answers.len(),
{
    if answers.len() == 0 {
        seq![]
    } else {
        let pre = round_votes(answers.drop_last(), ids);
        let (voter, answer) = answers.last();
        if ids.contains(voter@) && !(exists|j: int| 0 <= j < pre.len() && pre[j].0 == voter@) {
            pre.push(vote_from(voter@, answer, ids))
        } else {
            pre
        }
    }
}

/// Each voter of a round is a candidate, votes once, and never for itself.
pub proof fn lemma_round_votes(answers: Seq<(String, Result<String, String>)>, ids: Seq<Seq<char>>)
    ensures
        forall|i: int| 0 <= i < round_votes(answers, ids).len() ==> ids.contains(
            #[trigger] round_votes(answers, ids)[i].0,
        ),
        forall|i: int, j: int| 0 <= i < j < round_votes(answers, ids).len() ==> #[trigger] round_votes(answers, ids)[i].0
            != #[trigger] round_votes(answers, ids)[j].0,
        forall|i: int| 0 <= i < round_votes(answers, ids).len() ==> ((#[trigger] round_votes(answers, ids)[i]).1 matches Some(x)
            ==> x != round_votes(answers, ids)[i].0 && ids.contains(x)),
    decreases answers.len(),
{
    if answers.len() > 0 {
        let pre = round_votes(answers.drop_last(), ids);
        lemma_round_votes(answers.drop_last(), ids);
        let (voter, answer) = answers.last();
        match answer {
            Ok(text) => lemma_vote_choice(text@, voter@, ids),
            Err(_) => {},
        }
        let r = round_votes(answers, ids);
        if r.len() > pre.len() {
            assert forall|i: int| 0 <= i < pre.len() implies r[i] == pre[i] by {}
            assert forall|i: int, j: int| 0 <= i < j < r.len() implies #[trigger] r[i].0 != #[trigger] r[j].0 by {
                if j == pre.len() {
                    assert(r[i] == pre[i]);
                } else {
                    assert(r[i] == pre[i] && r[j] == pre[j]);
                }
            }
            assert forall|i: int| 0 <= i < r.len() implies ids.contains(#[trigger] r[i].0) by {
                if i < pre.len() {
                    assert(r[i] == pre[i]);
                }
            }
            assert forall|i: int| 0 <= i < r.len() implies ((#[trigger] r[i]).1 matches Some(x) ==> x != r[i].0
                && ids.contains(x)) by {
                if i < pre.len() {
                    assert(r[i] == pre[i]);
                }
            }
        }
    }
}

/// Whether `voter` voted already.
fn has_voted(votes: &Vec<ModelVote>, voter: &String) -> (r: bool)
    ensures
        r == exists|j: int| 0 <= j < votes@.len() && vote_view(votes@[j]).0 == voter@,
{
    let vc = chars_of(voter.as_str());
    let mut j: usize = 0;
    while j < votes.len()
        invariant
            j <= votes.len(),
            vc@ == voter@,
            forall|q: int| 0 <= q < j ==> vote_view(votes@[q]).0 != voter@,
        decreases votes.len() - j,
    {
        if chars_eq(&chars_of(votes[j].voter_id.as_str()), &vc) {
            return true;
        }
        j = j + 1;
    }
    false
}

/// The end of a competitive round: with fewer than two successful
/// proposals there are no votes, tallies or winners; otherwise the votes of
/// the candidates' answers, and their tallies and winners over the
/// candidates. `answers` holds each voter's response, or the error of
/// asking it.
pub fn round_outcome(proposals: &[ModelProposal], answers: &[(String, Result<String, String>)]) -> (r: (
    Vec<ModelVote>,
    Vec<VoteTally>,
    Vec<String>,
))
    ensures
        successful_ids(proposals@).len() < 2 ==> r.0@.len() == 0 && r.1@.len() == 0 && r.2@.len() == 0,
        successful_ids(proposals@).len() >= 2 ==> {
            &&& r.0@.map_values(|v: ModelVote| vote_view(v)) == round_votes(answers@, successful_ids(proposals@))
            &&& is_tally_of(r.1@, r.0@, successful_ids(proposals@))
            &&& are_winners_of(r.2@, r.1@)
        },
        forall|i: int, j: int| 0 <= i < j < r.0@.len() ==> (#[trigger] r.0@[i]).voter_id@ != (#[trigger] r.0@[j]).voter_id@,
        forall|i: int| 0 <= i < r.0@.len() ==> ((#[trigger] r.0@[i]).voted_for matches Some(x) ==> x@ != r.0@[i].voter_id@
            && successful_ids(proposals@).contains(x@)),
{
    let ids = successful_model_ids(proposals);
    let ghost sids = successful_ids(proposals@);
    let mut votes: Vec<ModelVote> = Vec::new();
    if ids.len() < 2 {
        return (votes, Vec::new(), Vec::new());
    }
    let mut k: usize = 0;
    assert(answers@.take(0) =~= Seq::<(String, Result<String, String>)>::empty());
    assert(votes@.map_values(|v: ModelVote| vote_view(v)) =~= Seq::<(Seq<char>, Option<Seq<char>>, Seq<char>, Option<Seq<char>>)>::empty());
    while k < answers.len()
        invariant
            k <= answers.len(),
            views(ids@) == sids,
            votes@.map_values(|v: ModelVote| vote_view(v)) == round_votes(answers@.take(k as int), sids),
        decreases answers.len() - k,
    {
        let ghost pre = answers@.take(k as int);
        assert(answers@.take(k + 1).drop_last() =~= pre);
        let (voter, answer) = &answers[k];
        let ghost before = votes@.map_values(|v: ModelVote| vote_view(v));
        let candidate = crate::votes::contains_string(&ids, voter);
        let voted = has_voted(&votes, voter);
        proof {
            if voted {
                let j = choose|j: int| 0 <= j < votes@.len() && vote_view(votes@[j]).0 == voter@;
                assert(before[j].0 == voter@);
            } else {
                assert forall|j: int| 0 <= j < before.len() implies before[j].0 != voter@ by {
                    assert(before[j] == vote_view(votes@[j]));
                }
            }
        }
        if candidate && !voted {
            let vote = match answer {
                Ok(text) => ModelVote {
                    voter_id: voter.clone(),
                    voted_for: parse_vote(text.as_str(), voter.as_str(), ids.as_slice()),
                    raw_response: text.clone(),
                    error_message: None,
                },
                Err(e) => ModelVote {
                    voter_id: voter.clone(),
                    voted_for: None,
                    raw_response: String::new(),
                    error_message: Some(e.clone()),
                },
            };
            votes.push(vote);
            assert(votes@.map_values(|v: ModelVote| vote_view(v)) =~= before.push(vote_view(vote)));
        }
        k = k + 1;
    }
    assert(answers@.take(answers.len() as int) =~= answers@);
    proof {
        lemma_round_votes(answers@, sids);
        let rv = round_votes(answers@, sids);
        assert forall|i: int, j: int| 0 <= i < j < votes@.len() implies (#[trigger] votes@[i]).voter_id@ != (#[trigger] votes@[j]).voter_id@ by {
            assert(votes@.map_values(|v: ModelVote| vote_view(v))[i] == vote_view(votes@[i]));
            assert(votes@.map_values(|v: ModelVote| vote_view(v))[j] == vote_view(votes@[j]));
            assert(rv[i].0 != rv[j].0);
        }
        assert forall|i: int| 0 <= i < votes@.len() implies ((#[trigger] votes@[i]).voted_for matches Some(x) ==> x@ != votes@[i].voter_id@
            && sids.contains(x@)) by {
            assert(votes@.map_values(|v: ModelVote| vote_view(v))[i] == vote_view(votes@[i]));
        }
    }
    let (tallies, winners) = compute_tallies(votes.as_slice(), ids.as_slice());
    (votes, tallies, winners)
}

/// A model's answer in a phase as text: its model ID, content and error.
pub type AnswerView = (Seq<char>, Seq<char>, Option<Seq<char>>);

pub open spec fn opt_text(o: Option<String>) -> Option<Seq<char>> {
    match o {
        Some(e) => Some(e@),
        None => None,
    }
}

pub open spec fn response_answer(r: ModelResponse) -> AnswerView {
    (r.model_id@, r.content@, opt_text(r.error_message))
}

pub open spec fn proposal_answer(p: ModelProposal) -> AnswerView {
    (p.model_id@, p.content@, opt_text(p.error_message))
}

/// The last answer reported for model `id`, if any.
pub open spec fn last_answer(rs: Seq<AnswerView>, id: Seq<char>) -> Option<AnswerView>
    decreases rs.len(),
{
    if rs.len() == 0 {
        None
    } else if rs.last().0 == id {
        Some(rs.last())
    } else {
        last_answer(rs.drop_last(), id)
    }
}

/// The answers of a phase as a round keeps them: for each chosen model in
/// order, the last answer reported for it; a model with none is left out.
pub open spec fn gathered(models: Seq<Seq<char>>, rs: Seq<AnswerView>) -> Seq<AnswerView>
    decreases models.len(),
{
    if models.len() == 0 {
        seq![]
    } else {
        let pre = gathered(models.drop_last(), rs);
        match last_answer(rs, models.last()) {
            Some(a) => pre.push(a),
            None => pre,
        }
    }
}

proof fn lemma_last_answer(rs: Seq<AnswerView>, id: Seq<char>, q: Option<int>)
    requires
        match q {
            Some(q) => 0 <= q < rs.len() && rs[q].0 == id && forall|t: int| q < t < rs.len() ==> #[trigger] rs[t].0 != id,
            None => forall|t: int| 0 <= t < rs.len() ==> #[trigger] rs[t].0 != id,
        },
    ensures
        last_answer(rs, id) == match q {
            Some(q) => Some(rs[q]),
            None => None::<AnswerView>,
        },
    decreases rs.len(),
{
    if rs.len() > 0 {
        if q != Some((rs.len() - 1) as int) {
            assert(rs.last() == rs[rs.len() - 1]);
            lemma_last_answer(rs.drop_last(), id, q);
        }
    }
}

proof fn lemma_last_answer_from(rs: Seq<AnswerView>, id: Seq<char>)
    ensures
        last_answer(rs, id) matches Some(a) ==> a.0 == id && rs.contains(a),
    decreases rs.len(),
{
    if rs.len() > 0 && rs.last().0 != id {
        lemma_last_answer_from(rs.drop_last(), id);
        if let Some(a) = last_answer(rs.drop_last(), id) {
            let t = choose|t: int| 0 <= t < rs.drop_last().len() && rs.drop_last()[t] == a;
            assert(rs[t] == a);
        }
    } else if rs.len() > 0 {
        assert(rs[rs.len() - 1] == rs.last());
    }
}

/// A round keeps at most one answer per chosen model, and each answer it
/// keeps is one that a chosen model reported, under that model's ID.
pub proof fn lemma_gathered(models: Seq<Seq<char>>, rs: Seq<AnswerView>)
    ensures
        gathered(models, rs).len() <= models.len(),
        forall|i: int| 0 <= i < gathered(models, rs).len() ==> models.contains(#[trigger] gathered(models, rs)[i].0)
            && rs.contains(gathered(models, rs)[i]),
    decreases models.len(),
{
    if models.len() > 0 {
        let pre = gathered(models.drop_last(), rs);
        lemma_gathered(models.drop_last(), rs);
        lemma_last_answer_from(rs, models.last());
        let g = gathered(models, rs);
        assert forall|i: int| 0 <= i < g.len() implies models.contains(#[trigger] g[i].0) && rs.contains(g[i]) by {
            if i < pre.len() {
                assert(g[i] == pre[i]);
                let t = choose|t: int| 0 <= t < models.drop_last().len() && models.drop_last()[t] == pre[i].0;
                assert(models[t] == pre[i].0);
            } else {
                assert(models[models.len() - 1] == models.last());
            }
        }
    }
}

/// Where the last of `ids` equal to `id` stands.
fn last_index_with(ids: &Vec<String>, id: &Vec<char>) -> (r: Option<usize>)
    ensures
        match r {
            Some(q) => q < ids@.len() && ids@[q as int]@ == id@ && forall|t: int| q < t < ids@.len() ==> #[trigger] ids@[t]@ != id@,
            None => forall|t: int| 0 <= t < ids@.len() ==> #[trigger] ids@[t]@ != id@,
        },
{
    let mut j = ids.len();
    while j > 0
        invariant
            j <= ids.len(),
            forall|t: int| j <= t < ids@.len() ==> #[trigger] ids@[t]@ != id@,
        decreases j,
    {
        if chars_eq(&chars_of(ids[j - 1].as_str()), id) {
            return Some(j - 1);
        }
        j = j - 1;
    }
    None
}

/// The first-phase answers of a collaborative round, from the results in
/// the order they came: for each chosen model in order, its last result;
/// a model that reported nothing is left out.
pub fn collected_responses(models: &[String], results: &[ModelResponse]) -> (r: Vec<ModelResponse>)
    ensures
        r@.map_values(|x: ModelResponse| response_answer(x)) == gathered(
            views(models@),
            results@.map_values(|x: ModelResponse| response_answer(x)),
        ),
{
    let ghost rs = results@.map_values(|x: ModelResponse| response_answer(x));
    let ghost mv = views(models@);
    let mut ids: Vec<String> = Vec::new();
    let mut i: usize = 0;
    while i < results.len()
        invariant
            i <= results.len(),
            ids@.len() == i,
            forall|t: int| 0 <= t < i ==> (#[trigger] ids@[t])@ == results@[t].model_id@,
        decreases results.len() - i,
    {
        ids.push(results[i].model_id.clone());
        i = i + 1;
    }
    let mut r: Vec<ModelResponse> = Vec::new();
    let mut k: usize = 0;
    assert(mv.take(0) =~= Seq::<Seq<char>>::empty());
    while k < models.len()
        invariant
            k <= models.len(),
            mv == views(models@),
            rs == results@.map_values(|x: ModelResponse| response_answer(x)),
            ids@.len() == results@.len(),
            forall|t: int| 0 <= t < ids@.len() ==> (#[trigger] ids@[t])@ == results@[t].model_id@,
            r@.map_values(|x: ModelResponse| response_answer(x)) == gathered(mv.take(k as int), rs),
        decreases models.len() - k,
    {
        assert(mv.take(k + 1).drop_last() =~= mv.take(k as int));
        assert(mv.take(k + 1).last() == models@[k as int]@);
        let idc = chars_of(models[k].as_str());
        let found = last_index_with(&ids, &idc);
        proof {
            let q = match found {
                Some(q) => Some(q as int),
                None => None::<int>,
            };
            assert forall|t: int| 0 <= t < rs.len() implies (#[trigger] rs[t]).0 == ids@[t]@ by {}
            lemma_last_answer(rs, idc@, q);
        }
        if let Some(q) = found {
            let ghost before = r@.map_values(|x: ModelResponse| response_answer(x));
            let ghost prev = r@;
            let e = &results[q];
            let copy = ModelResponse {
                model_id: e.model_id.clone(),
                content: e.content.clone(),
                error_message: match &e.error_message {
                    Some(m) => Some(m.clone()),
                    None => None,
                },
            };
            assert(response_answer(copy) == rs[q as int]);
            r.push(copy);
            assert(r@.map_values(|x: ModelResponse| response_answer(x)) =~= before.push(rs[q as int])) by {
                assert forall|t: int| 0 <= t < prev.len() implies response_answer(r@[t]) == before[t] by {
                    assert(r@[t] == prev[t]);
                }
            }
        }
        k = k + 1;
    }
    assert(mv.take(models.len() as int) =~= mv);
    r
}

/// The proposals of a competitive round, from the results in the order
/// they came: for each chosen model in order, its last result; a model that
/// reported nothing is left out.
pub fn collected_proposals(models: &[String], results: &[ModelProposal]) -> (r: Vec<ModelProposal>)
    ensures
        r@.map_values(|x: ModelProposal| proposal_answer(x)) == gathered(
            views(models@),
            results@.map_values(|x: ModelProposal| proposal_answer(x)),
        ),
{
    let ghost rs = results@.map_values(|x: ModelProposal| proposal_answer(x));
    let ghost mv = views(models@);
    let mut ids: Vec<String> = Vec::new();
    let mut i: usize = 0;
    while i < results.len()
        invariant
            i <= results.len(),
            ids@.len() == i,
            forall|t: int| 0 <= t < i ==> (#[trigger] ids@[t])@ == results@[t].model_id@,
        decreases results.len() - i,
    {
        ids.push(results[i].model_id.clone());
        i = i + 1;
    }
    let mut r: Vec<ModelProposal> = Vec::new();
    let mut k: usize = 0;
    assert(mv.take(0) =~= Seq::<Seq<char>>::empty());
    while k < models.len()
        invariant
            k <= models.len(),
            mv == views(models@),
            rs == results@.map_values(|x: ModelProposal| proposal_answer(x)),
            ids@.len() == results@.len(),
            forall|t: int| 0 <= t < ids@.len() ==> (#[trigger] ids@[t])@ == results@[t].model_id@,
            r@.map_values(|x: ModelProposal| proposal_answer(x)) == gathered(mv.take(k as int), rs),
        decreases models.len() - k,
    {
        assert(mv.take(k + 1).drop_last() =~= mv.take(k as int));
        assert(mv.take(k + 1).last() == models@[k as int]@);
        let idc = chars_of(models[k].as_str());
        let found = last_index_with(&ids, &idc);
        proof {
            let q = match found {
                Some(q) => Some(q as int),
                None => None::<int>,
            };
            assert forall|t: int| 0 <= t < rs.len() implies (#[trigger] rs[t]).0 == ids@[t]@ by {}
            lemma_last_answer(rs, idc@, q);
        }
        if let Some(q) = found {
            let ghost before = r@.map_values(|x: ModelProposal| proposal_answer(x));
            let ghost prev = r@;
            let e = &results[q];
            let copy = ModelProposal {
                model_id: e.model_id.clone(),
                content: e.content.clone(),
                error_message: match &e.error_message {
                    Some(m) => Some(m.clone()),
                    None => None,
                },
            };
            assert(proposal_answer(copy) == rs[q as int]);
            r.push(copy);
            assert(r@.map_values(|x: ModelProposal| proposal_answer(x)) =~= before.push(rs[q as int])) by {
                assert forall|t: int| 0 <= t < prev.len() implies proposal_answer(r@[t]) == before[t] by {
                    assert(r@[t] == prev[t]);
                }
            }
        }
        k = k + 1;
    }
    assert(mv.take(models.len() as int) =~= mv);
    r
}

/// The first-phase answers when the models could not be asked at all:
/// each chosen model, in order, with the error.
pub fn failed_responses(models: &[String], error: &str) -> (r: Vec<ModelResponse>)
    ensures
        r@.len() == models@.len(),
        forall|i: int| 0 <= i < r@.len() ==> response_answer(#[trigger] r@[i]) == (models@[i]@, Seq::<char>::empty(), Some(error@)),
{
    let mut r: Vec<ModelResponse> = Vec::new();
    let mut i: usize = 0;
    while i < models.len()
        invariant
            i <= models.len(),
            r@.len() == i,
            forall|q: int| 0 <= q < i ==> response_answer(#[trigger] r@[q]) == (models@[q]@, Seq::<char>::empty(), Some(error@)),
        decreases models.len() - i,
    {
        r.push(ModelResponse { model_id: models[i].clone(), content: String::new(), error_message: Some(error.to_owned()) });
        i = i + 1;
    }
    r
}

} // verus!
