use gtllm::streaming::{take_step, StreamStep};
use gtllm::collaborative::CollaborativePromptTemplates;
use gtllm::history::{ModelProposal, ModelResponse, PromptTemplates};
use gtllm::prompts::{consensus_request, review_requests, round_can_start, round_outcome, voting_requests};

fn s(v: &[&str]) -> Vec<String> {
    v.iter().map(|x| x.to_string()).collect()
}

fn resp(id: &str, content: &str, err: Option<&str>) -> ModelResponse {
    ModelResponse { model_id: id.into(), content: content.into(), error_message: err.map(|e| e.into()) }
}

fn prop(id: &str, content: &str, err: Option<&str>) -> ModelProposal {
    ModelProposal { model_id: id.into(), content: content.into(), error_message: err.map(|e| e.into()) }
}

fn collab() -> CollaborativePromptTemplates {
    CollaborativePromptTemplates {
        initial_response: "I {user_question}".into(),
        cross_review: "R {user_question}|{other_responses}".into(),
        consensus: "C {user_question}|{initial_responses}|{reviews}".into(),
    }
}

#[test]
fn rounds_start_only_with_a_question_and_enough_models() {
    assert!(round_can_start("hi", false, &s(&["a"]), 1));
    assert!(!round_can_start("   ", false, &s(&["a"]), 1));
    assert!(!round_can_start("hi", true, &s(&["a"]), 1));
    assert!(!round_can_start("hi", false, &s(&["a"]), 2));
    assert!(round_can_start("hi", false, &s(&["a", "b"]), 2));
}

#[test]
fn each_model_reviews_the_others() {
    let models = s(&["a", "b", "c"]);
    let phase1 = vec![resp("a", "A", None), resp("b", "B", None), resp("c", "", Some("down"))];
    let r = review_requests(&collab(), "q", &models, &phase1);
    assert_eq!(
        r,
        vec![
            ("a".to_string(), "R q|b: B".to_string()),
            ("b".to_string(), "R q|a: A".to_string()),
            ("c".to_string(), "R q|a: A\n\nb: B".to_string()),
        ]
    );
    let one = vec![resp("a", "A", None), resp("b", "", Some("x"))];
    assert!(review_requests(&collab(), "q", &models, &one).is_empty());
}

#[test]
fn the_first_model_writes_the_consensus() {
    let models = s(&["a", "b"]);
    let phase1 = vec![resp("a", "A", None), resp("b", "B", None)];
    let reviews = vec![resp("a", "ok", None), resp("b", "", Some("x"))];
    assert_eq!(
        consensus_request(&collab(), "q", &models, &phase1, &reviews),
        Some(("a".to_string(), "C q|a: A\n\nb: B|a: ok".to_string()))
    );
    assert_eq!(consensus_request(&collab(), "q", &[], &phase1, &reviews), None);
    assert_eq!(consensus_request(&collab(), "q", &models, &phase1[..1], &reviews), None);
}

#[test]
fn successful_proposers_are_asked_to_vote() {
    let t = PromptTemplates { proposal: "P".into(), voting: "{your_proposal}".into() };
    let ps = vec![prop("a", "A", None), prop("b", "", Some("x")), prop("c", "C", None)];
    assert_eq!(
        voting_requests(&t, "q", &ps),
        vec![("a".to_string(), "A".to_string()), ("c".to_string(), "C".to_string())]
    );
    assert!(voting_requests(&t, "q", &ps[..2]).is_empty());
}

#[test]
fn a_round_ends_in_votes_tallies_and_winners() {
    let ps = vec![prop("x/a", "A", None), prop("x/b", "B", None), prop("x/c", "", Some("e"))];
    let answers = vec![
        ("x/a".to_string(), Ok("I pick x/b".to_string())),
        ("x/c".to_string(), Ok("x/a".to_string())),
        ("x/b".to_string(), Ok("x/b is best".to_string())),
        ("x/a".to_string(), Ok("x/a".to_string())),
        ("x/b".to_string(), Err("timeout".to_string())),
    ];
    let (votes, tallies, winners) = round_outcome(&ps, &answers);
    assert_eq!(votes.len(), 2);
    assert_eq!(votes[0].voted_for, Some("x/b".to_string()));
    assert_eq!(votes[1].voter_id, "x/b");
    assert_eq!(votes[1].voted_for, None);
    assert_eq!(tallies[0].model_id, "x/b");
    assert_eq!(tallies[0].vote_count, 1);
    assert_eq!(winners, s(&["x/b"]));
    let (v, t, w) = round_outcome(&ps[..1], &answers);
    assert!(v.is_empty() && t.is_empty() && w.is_empty());
}

#[test]
fn a_failed_vote_keeps_its_error() {
    let ps = vec![prop("a", "A", None), prop("b", "B", None)];
    let answers = vec![("a".to_string(), Err("down".to_string()))];
    let (votes, _, winners) = round_outcome(&ps, &answers);
    assert_eq!(votes[0].error_message, Some("down".to_string()));
    assert_eq!(votes[0].raw_response, "");
    assert!(winners.is_empty());
}

#[test]
fn a_round_keeps_each_models_last_answer_in_model_order() {
    let models = s(&["a", "b", "c"]);
    let results = vec![
        resp("b", "B1", None),
        resp("x", "X", None),
        resp("a", "", Some("boom")),
        resp("b", "B2", None),
    ];
    let kept = gtllm::prompts::collected_responses(&models, &results);
    assert_eq!(kept, vec![resp("a", "", Some("boom")), resp("b", "B2", None)]);

    let props = vec![prop("c", "C", None), prop("a", "A", None)];
    let kept = gtllm::prompts::collected_proposals(&models, &props);
    assert_eq!(kept, vec![prop("a", "A", None), prop("c", "C", None)]);
}

#[test]
fn a_failed_request_marks_every_model() {
    let r = gtllm::prompts::failed_responses(&s(&["a", "b"]), "offline");
    assert_eq!(r, vec![resp("a", "", Some("offline")), resp("b", "", Some("offline"))]);
}

#[test]
fn streamed_pieces_build_each_models_answer() {
    let mut partial: Vec<(String, String)> = Vec::new();
    let mut results: Vec<ModelResponse> = Vec::new();
    take_step(&mut partial, &mut results, "a", StreamStep::Content("Hel".to_string()));
    take_step(&mut partial, &mut results, "b", StreamStep::Content("X".to_string()));
    take_step(&mut partial, &mut results, "a", StreamStep::Content("lo".to_string()));
    assert_eq!(partial, vec![("a".to_string(), "Hello".to_string()), ("b".to_string(), "X".to_string())]);
    assert!(results.is_empty());
    take_step(&mut partial, &mut results, "a", StreamStep::Done);
    take_step(&mut partial, &mut results, "b", StreamStep::Error("timeout".to_string()));
    take_step(&mut partial, &mut results, "c", StreamStep::Done);
    assert_eq!(results, vec![resp("a", "Hello", None), resp("b", "", Some("timeout")), resp("c", "", None)]);
    let kept = gtllm::prompts::collected_responses(&s(&["b", "a"]), &results);
    assert_eq!(kept, vec![resp("b", "", Some("timeout")), resp("a", "Hello", None)]);
}
