use gtllm::history::ChatHistory;
use gtllm::types::ChatMode;

#[test]
fn sanitize_replaces_reserved_characters_and_spaces() {
    assert_eq!(ChatHistory::sanitize_filename("What is 2/3?"), "What_is_2_3");
    assert_eq!(ChatHistory::sanitize_filename("a:b*c\"d<e>f|g\\h"), "a_b_c_d_e_f_g_h");
    assert_eq!(ChatHistory::sanitize_filename("tab\there"), "tab_here");
}

#[test]
fn sanitize_falls_back_to_new_chat() {
    assert_eq!(ChatHistory::sanitize_filename(""), "New_Chat");
    assert_eq!(ChatHistory::sanitize_filename("   "), "New_Chat");
    assert_eq!(ChatHistory::sanitize_filename("???"), "New_Chat");
}

#[test]
fn sanitize_stops_at_one_hundred_characters() {
    let long = "x".repeat(150);
    assert_eq!(ChatHistory::sanitize_filename(&long), "x".repeat(100));
    // Characters are counted, not bytes.
    let wide = "é".repeat(80);
    assert_eq!(ChatHistory::sanitize_filename(&wide), "é".repeat(80));
    let wider = "é".repeat(150);
    assert_eq!(ChatHistory::sanitize_filename(&wider), "é".repeat(100));
    let cjk = "語".repeat(40);
    assert_eq!(ChatHistory::sanitize_filename(&cjk), "語".repeat(40));
}

#[test]
fn sanitize_drops_trailing_underscores_after_the_cut() {
    let title = format!("{} tail", "y".repeat(99));
    assert_eq!(ChatHistory::sanitize_filename(&title), "y".repeat(99));
}

#[test]
fn file_names_have_mode_timestamp_and_title() {
    assert_eq!(
        ChatHistory::generate_filename(ChatMode::Standard, "1700000000", "Hello world"),
        "standard_1700000000_Hello_world.json"
    );
    assert_eq!(
        ChatHistory::generate_filename(ChatMode::LLMChoice, "42", "x"),
        "llm_choice_42_x.json"
    );
    assert_eq!(
        ChatHistory::generate_session_id(ChatMode::Competitive, "1700000000", "Best: answer"),
        "competitive_1700000000_Best__answer"
    );
}

#[test]
fn file_names_read_back() {
    for mode in [
        ChatMode::Standard,
        ChatMode::PvP,
        ChatMode::Collaborative,
        ChatMode::Competitive,
        ChatMode::LLMChoice,
    ] {
        let name = ChatHistory::generate_filename(mode, "1712345678", "a_b c");
        assert_eq!(
            ChatHistory::parse_filename(&name),
            Some((mode, "1712345678".to_string(), "a_b_c".to_string()))
        );
        let id = ChatHistory::generate_session_id(mode, "1712345678", "a_b c");
        assert_eq!(ChatHistory::session_timestamp_from_id(&id), Some("1712345678".to_string()));
    }
}

#[test]
fn parse_filename_rejects_other_shapes() {
    assert_eq!(ChatHistory::parse_filename("standard_123.json"), None);
    assert_eq!(ChatHistory::parse_filename("chat_123_title.json"), None);
    assert_eq!(ChatHistory::parse_filename("standard_12x_title.json"), None);
    assert_eq!(ChatHistory::parse_filename("notes.txt"), None);
    assert_eq!(ChatHistory::session_timestamp_from_id("pvp_abc_title"), None);
}

#[test]
fn parse_filename_edge_cases() {
    // Without the extension the whole name is read.
    assert_eq!(
        ChatHistory::parse_filename("pvp_7_duel"),
        Some((ChatMode::PvP, "7".to_string(), "duel".to_string()))
    );
    // `u64` accepts a leading plus sign.
    assert_eq!(
        ChatHistory::parse_filename("standard_+5_t.json"),
        Some((ChatMode::Standard, "+5".to_string(), "t".to_string()))
    );
    // The LLM choice mode needs no title part.
    assert_eq!(
        ChatHistory::parse_filename("llm_choice_9.json"),
        Some((ChatMode::LLMChoice, "9".to_string(), String::new()))
    );
}
