use gtllm::history::{ModelVote, PromptTemplates, VoteTally};
use gtllm::votes::{compute_tallies, parse_vote, CompetitivePhase, CompetitivePromptType};

fn ids(v: &[&str]) -> Vec<String> {
    v.iter().map(|s| s.to_string()).collect()
}

fn vote(voter: &str, for_: Option<&str>) -> ModelVote {
    ModelVote {
        voter_id: voter.to_string(),
        voted_for: for_.map(|s| s.to_string()),
        raw_response: String::new(),
        error_message: None,
    }
}

#[test]
fn votes_by_full_model_id() {
    let valid = ids(&["openai/gpt-4o", "mistralai/mixtral-8x7b"]);
    assert_eq!(
        parse_vote("  mistralai/mixtral-8x7b  ", "openai/gpt-4o", &valid),
        Some("mistralai/mixtral-8x7b".to_string())
    );
    assert_eq!(
        parse_vote("I vote for openai/gpt-4o.", "mistralai/mixtral-8x7b", &valid),
        Some("openai/gpt-4o".to_string())
    );
}

#[test]
fn a_model_cannot_vote_for_itself() {
    let valid = ids(&["openai/gpt-4o", "mistralai/mixtral-8x7b"]);
    assert_eq!(parse_vote("openai/gpt-4o", "openai/gpt-4o", &valid), None);
    assert_eq!(parse_vote("GPT-4O is best", "openai/gpt-4o", &valid), None);
}

#[test]
fn votes_by_model_name_in_any_case() {
    let valid = ids(&["openai/gpt-4o", "mistralai/mixtral-8x7b"]);
    assert_eq!(
        parse_vote("My vote: MIXTRAL-8X7B", "openai/gpt-4o", &valid),
        Some("mistralai/mixtral-8x7b".to_string())
    );
    assert_eq!(parse_vote("none of them", "openai/gpt-4o", &valid), None);
}

#[test]
fn tallies_count_and_order_votes() {
    let models = ids(&["a/x", "b/y", "c/z"]);
    let votes = vec![
        vote("a/x", Some("b/y")),
        vote("b/y", Some("c/z")),
        vote("c/z", Some("b/y")),
        vote("d/w", Some("e/v")),
        vote("e/v", None),
    ];
    let (tallies, winners) = compute_tallies(&votes, &models);
    assert_eq!(
        tallies,
        vec![
            VoteTally { model_id: "b/y".to_string(), vote_count: 2, voters: ids(&["a/x", "c/z"]) },
            VoteTally { model_id: "c/z".to_string(), vote_count: 1, voters: ids(&["b/y"]) },
            VoteTally { model_id: "a/x".to_string(), vote_count: 0, voters: vec![] },
        ]
    );
    assert_eq!(winners, ids(&["b/y"]));
}

#[test]
fn ties_share_the_win_and_keep_model_order() {
    let models = ids(&["a", "b", "c", "a"]);
    let votes = vec![vote("a", Some("c")), vote("c", Some("b")), vote("b", Some("a"))];
    let (tallies, winners) = compute_tallies(&votes, &models);
    let order: Vec<&str> = tallies.iter().map(|t| t.model_id.as_str()).collect();
    assert_eq!(order, vec!["a", "b", "c"]);
    assert!(tallies.iter().all(|t| t.vote_count == 1));
    assert_eq!(winners, ids(&["a", "b", "c"]));
}

#[test]
fn no_votes_no_winners() {
    let models = ids(&["a", "b"]);
    let votes = vec![vote("a", None), vote("b", None)];
    let (tallies, winners) = compute_tallies(&votes, &models);
    assert_eq!(tallies.len(), 2);
    assert!(winners.is_empty());
    let (tallies, winners) = compute_tallies(&[], &[]);
    assert!(tallies.is_empty() && winners.is_empty());
}

#[test]
fn competitive_prompts_read_back_what_was_set() {
    let mut t = PromptTemplates::default();
    assert!(t.get(CompetitivePromptType::Proposal).ends_with("{user_question}"));
    assert!(t.get(CompetitivePromptType::Voting).contains("{all_proposals}"));
    let voting = t.voting.clone();
    t.set(CompetitivePromptType::Proposal, "Answer: {user_question}".to_string());
    assert_eq!(t.get(CompetitivePromptType::Proposal), "Answer: {user_question}");
    assert_eq!(t.get(CompetitivePromptType::Voting), voting);
}

#[test]
fn competitive_labels() {
    assert_eq!(CompetitivePromptType::Voting.name(), "Voting");
    assert_eq!(
        CompetitivePromptType::Voting.variables(),
        "{user_question}, {all_proposals}, {your_proposal}"
    );
    assert_eq!(
        CompetitivePromptType::Proposal.description(),
        "Prompt sent to models to generate their proposals"
    );
    assert_eq!(CompetitivePhase::Tallying.name(), "Tallying Results");
    assert_eq!(CompetitivePhase::Voting.badge_color(), "bg-purple-500");
    assert_eq!(CompetitivePhase::Complete.number(), 4);
}
