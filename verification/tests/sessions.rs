use gtllm::history::{
    empty_history_for_mode, ChatHistory, CompetitiveHistory, CompetitiveRound, LLMChoiceHistory,
    PromptTemplates, StandardHistory,
};
use gtllm::sessions::collect_sessions;
use gtllm::types::{ChatMode, ChatSession};

fn session(id: &str, title: &str, ts: &str) -> ChatSession {
    ChatSession {
        id: id.to_string(),
        title: title.to_string(),
        mode: ChatMode::Standard,
        timestamp: ts.to_string(),
    }
}

#[test]
fn sessions_are_listed_newest_first() {
    let entries = vec![
        ("standard_100_a.json".to_string(), Some(session("old-id", "A", "100"))),
        ("pvp_300_b.json".to_string(), None),
        ("standard_200_c.json".to_string(), Some(session("x", "C", "200"))),
        ("garbage.json".to_string(), None),
    ];
    let list = collect_sessions(entries);
    let ids: Vec<&str> = list.iter().map(|s| s.id.as_str()).collect();
    assert_eq!(ids, vec!["pvp_300_b", "standard_200_c", "standard_100_a"]);
    // A file that could not be read is listed from its name.
    assert_eq!(list[0].title, "b");
    assert_eq!(list[0].mode, ChatMode::PvP);
    assert_eq!(list[0].timestamp, "300");
    // A file that was read keeps its title, under the file's ID.
    assert_eq!(list[2].title, "A");
}

#[test]
fn sessions_with_equal_timestamps_keep_their_order() {
    let entries = vec![
        ("one.json".to_string(), Some(session("1", "first", "later"))),
        ("two.json".to_string(), Some(session("2", "second", "0"))),
        ("three.json".to_string(), Some(session("3", "third", "5"))),
    ];
    let list = collect_sessions(entries);
    let titles: Vec<&str> = list.iter().map(|s| s.title.as_str()).collect();
    assert_eq!(titles, vec!["third", "first", "second"]);
}

#[test]
fn a_session_id_is_listed_once() {
    let entries = vec![
        ("standard_1_a.json".to_string(), Some(session("", "first", "1"))),
        ("standard_1_a".to_string(), Some(session("", "second", "9"))),
    ];
    let list = collect_sessions(entries);
    assert_eq!(list.len(), 1);
    assert_eq!(list[0].title, "first");
}

#[test]
fn summary_is_the_first_message() {
    let mut h = empty_history_for_mode(ChatMode::Standard);
    assert_eq!(ChatHistory::generate_chat_summary(&h), "New Chat");
    if let ChatHistory::Standard(StandardHistory { user_messages, .. }) = &mut h {
        user_messages.push("   How do magnets work?  ".to_string());
    }
    assert_eq!(ChatHistory::generate_chat_summary(&h), "How do magnets work?");
}

#[test]
fn long_summaries_are_cut_at_a_word() {
    let msg = "The quick brown fox jumps over the lazy dog and keeps running far away";
    let h = ChatHistory::LLMChoice(LLMChoiceHistory {
        rounds: vec![gtllm::history::LLMChoiceRound {
            user_message: msg.to_string(),
            decision: "compete".to_string(),
            content: None,
        }],
        selected_models: vec![],
    });
    assert_eq!(
        ChatHistory::generate_chat_summary(&h),
        "The quick brown fox jumps over the lazy dog and keeps..."
    );
    let h = ChatHistory::Competitive(CompetitiveHistory {
        rounds: vec![CompetitiveRound {
            user_question: "x".repeat(70),
            phase1_proposals: vec![],
            phase2_votes: vec![],
            vote_tallies: vec![],
            winners: vec![],
            current_phase: "complete".to_string(),
        }],
        selected_models: vec![],
        prompt_templates: PromptTemplates::default(),
    });
    assert_eq!(ChatHistory::generate_chat_summary(&h), format!("{}...", "x".repeat(60)));
}

#[test]
fn empty_histories_match_their_mode() {
    for mode in [
        ChatMode::Standard,
        ChatMode::PvP,
        ChatMode::Collaborative,
        ChatMode::Competitive,
        ChatMode::LLMChoice,
    ] {
        let h = empty_history_for_mode(mode);
        let matches_mode = match (&h, mode) {
            (ChatHistory::Standard(_), ChatMode::Standard) => true,
            (ChatHistory::PvP(_), ChatMode::PvP) => true,
            (ChatHistory::Collaborative(_), ChatMode::Collaborative) => true,
            (ChatHistory::Competitive(_), ChatMode::Competitive) => true,
            (ChatHistory::LLMChoice(_), ChatMode::LLMChoice) => true,
            _ => false,
        };
        assert!(matches_mode);
        assert_eq!(ChatHistory::generate_chat_summary(&h), "New Chat");
    }
}

#[test]
fn a_title_is_possible_unless_byte_sixty_splits_a_character() {
    let h = |msg: &str| {
        ChatHistory::Standard(StandardHistory {
            user_messages: vec![msg.to_string()],
            model_responses: vec![],
            selected_models: vec![],
            system_prompt: String::new(),
            conversation_history: gtllm::history::ConversationHistory {
                single_model: vec![],
                multi_model: Vec::new(),
            },
        })
    };
    assert!(ChatHistory::can_summarize(&h("short")));
    assert!(ChatHistory::can_summarize(&h(&"y".repeat(200))));
    let split = format!("{}é tail", "x".repeat(59));
    assert!(!ChatHistory::can_summarize(&h(&split)));
    let whole = format!("{}é tail", "x".repeat(58));
    assert!(ChatHistory::can_summarize(&h(&whole)));
    assert_eq!(ChatHistory::generate_chat_summary(&h(&whole)), format!("{}é...", "x".repeat(58)));
    assert!(ChatHistory::can_summarize(&empty_history_for_mode(ChatMode::PvP)));
}
