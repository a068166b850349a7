use gtllm::collaborative::{CollaborativePhase, CollaborativePromptTemplates, PromptType};
use gtllm::history::{ModelProposal, ModelResponse, PromptTemplates};
use gtllm::prompts::{
    all_proposals_text, consensus_prompt, initial_prompt, phase_from_tag, phase_tag, proposal_prompt,
    responses_text, review_prompt, successful_model_ids, voting_prompt,
};
use gtllm::votes::CompetitivePhase;

fn proposal(id: &str, content: &str, error: Option<&str>) -> ModelProposal {
    ModelProposal {
        model_id: id.to_string(),
        content: content.to_string(),
        error_message: error.map(|e| e.to_string()),
    }
}

fn response(id: &str, content: &str, error: Option<&str>) -> ModelResponse {
    ModelResponse {
        model_id: id.to_string(),
        content: content.to_string(),
        error_message: error.map(|e| e.to_string()),
    }
}

#[test]
fn proposal_and_voting_prompts_fill_placeholders() {
    let t = PromptTemplates {
        proposal: "Q: {user_question} / {user_question}".to_string(),
        voting: "{user_question}|{all_proposals}|{your_proposal}".to_string(),
    };
    assert_eq!(proposal_prompt(&t, "why?"), "Q: why? / why?");
    assert_eq!(voting_prompt(&t, "q", "all", "mine"), "q|all|mine");
    // The question is filled in first, so a placeholder in it is filled too.
    assert_eq!(voting_prompt(&t, "{your_proposal}", "A", "M"), "M|A|M");
}

#[test]
fn default_proposal_prompt_ends_with_the_question() {
    let p = proposal_prompt(&PromptTemplates::default(), "What is 2+2?");
    assert!(p.ends_with("question:\n\nWhat is 2+2?"));
}

#[test]
fn proposals_text_skips_failed_proposals() {
    let ps = vec![
        proposal("a/x", "one", None),
        proposal("b/y", "", Some("timeout")),
        proposal("c/z", "three", None),
    ];
    assert_eq!(all_proposals_text(&ps), "Model: a/x\none\n\n---\n\nModel: c/z\nthree\n");
    assert_eq!(successful_model_ids(&ps), vec!["a/x".to_string(), "c/z".to_string()]);
    assert_eq!(all_proposals_text(&[]), "");
}

#[test]
fn responses_text_leaves_out_errors_and_the_reviewer() {
    let rs = vec![
        response("a", "alpha", None),
        response("b", "beta", None),
        response("c", "", Some("failed")),
    ];
    assert_eq!(responses_text(&rs, None), "a: alpha\n\nb: beta");
    assert_eq!(responses_text(&rs, Some("a")), "b: beta");
}

#[test]
fn collaborative_prompts_fill_placeholders() {
    let t = CollaborativePromptTemplates {
        initial_response: "I {user_question}".to_string(),
        cross_review: "R {user_question} {other_responses}".to_string(),
        consensus: "C {user_question} {initial_responses} {reviews}".to_string(),
    };
    assert_eq!(initial_prompt(&t, "q"), "I q");
    assert_eq!(review_prompt(&t, "q", "o"), "R q o");
    assert_eq!(consensus_prompt(&t, "q", "i", "r"), "C q i r");
}

#[test]
fn collaborative_prompts_read_back_what_was_set() {
    let mut t = CollaborativePromptTemplates::default();
    assert!(t.get(PromptType::Review).contains("{other_responses}"));
    let consensus = t.get(PromptType::Consensus);
    t.set(PromptType::Initial, "new".to_string());
    assert_eq!(t.get(PromptType::Initial), "new");
    assert_eq!(t.get(PromptType::Consensus), consensus);
    assert_eq!(PromptType::Consensus.name(), "Consensus Synthesis");
    assert_eq!(PromptType::Review.variables(), "{user_question}, {other_responses}");
    assert_eq!(CollaborativePhase::Review.name(), "Phase 2: Cross-Review");
    assert_eq!(CollaborativePhase::Consensus.badge_color(), "bg-green-500");
}

#[test]
fn phases_are_saved_by_name() {
    for p in [
        CompetitivePhase::Proposal,
        CompetitivePhase::Voting,
        CompetitivePhase::Tallying,
        CompetitivePhase::Complete,
    ] {
        assert_eq!(phase_from_tag(phase_tag(p)), p);
    }
    assert_eq!(phase_tag(CompetitivePhase::Voting), "voting");
    assert_eq!(phase_from_tag("unknown"), CompetitivePhase::Complete);
}
