use gtllm::selection::{model_matches, toggle_model};
use gtllm::sessions::{forget_session, record_saved_session};
use gtllm::standard::{chat_messages, final_responses, record_single_exchange};
use gtllm::history::ModelResponse;
use gtllm::types::{ChatMode, ChatSession};

#[test]
fn toggling_adds_and_removes() {
    let mut sel = vec!["a".to_string(), "b".to_string()];
    toggle_model(&mut sel, "c".to_string());
    assert_eq!(sel, vec!["a", "b", "c"]);
    toggle_model(&mut sel, "a".to_string());
    assert_eq!(sel, vec!["b", "c"]);
    toggle_model(&mut sel, "c".to_string());
    assert_eq!(sel, vec!["b"]);
}

#[test]
fn search_looks_at_name_and_id_in_any_case() {
    assert!(model_matches("GPT-4o", "openai/gpt-4o", ""));
    assert!(model_matches("GPT-4o", "openai/gpt-4o", "gpt"));
    assert!(model_matches("Mixtral", "mistralai/mixtral-8x7b", "MISTRAL"));
    assert!(!model_matches("Mixtral", "mistralai/mixtral-8x7b", "llama"));
}

fn session(id: &str, title: &str) -> ChatSession {
    ChatSession { id: id.into(), title: title.into(), mode: ChatMode::Standard, timestamp: "1".into() }
}

#[test]
fn a_saved_session_replaces_its_entry_or_is_added() {
    let mut list = vec![session("a", "A"), session("b", "B")];
    record_saved_session(&mut list, session("b", "B2"));
    assert_eq!(list.len(), 2);
    assert_eq!(list[1].title, "B2");
    record_saved_session(&mut list, session("c", "C"));
    assert_eq!(list.len(), 3);
    assert_eq!(list[2].id, "c");
    forget_session(&mut list, "a");
    let ids: Vec<&str> = list.iter().map(|s| s.id.as_str()).collect();
    assert_eq!(ids, vec!["b", "c"]);
}

#[test]
fn turns_carry_the_conversation_so_far() {
    let history = vec![("hi".to_string(), "hello".to_string())];
    let m = chat_messages("be brief", &history, "how are you");
    let pairs: Vec<(&str, &str)> = m.iter().map(|(a, b)| (a.as_str(), b.as_str())).collect();
    assert_eq!(
        pairs,
        vec![("system", "be brief"), ("user", "hi"), ("assistant", "hello"), ("user", "how are you")]
    );
}

#[test]
fn each_model_gets_an_answer_or_an_error() {
    let models = vec!["a".to_string(), "b".to_string(), "c".to_string()];
    let results = vec![
        ("a".to_string(), Ok("one".to_string())),
        ("b".to_string(), Err("bad".to_string())),
        ("a".to_string(), Ok("two".to_string())),
    ];
    let r = final_responses(&models, &results);
    assert_eq!(r[0].content, "two");
    assert_eq!(r[1].error_message, Some("bad".to_string()));
    assert_eq!(r[2].error_message, Some("No response received".to_string()));
    let mut h: Vec<(String, String)> = vec![];
    record_single_exchange(&mut h, "q", &r);
    assert_eq!(h, vec![("q".to_string(), "two".to_string())]);
    let failed = vec![ModelResponse { model_id: "a".into(), content: String::new(), error_message: Some("x".into()) }];
    record_single_exchange(&mut h, "q2", &failed);
    assert_eq!(h.len(), 1);
}

#[test]
fn choosing_models_starts_one_empty_conversation_each() {
    let c = gtllm::standard::fresh_conversations(&["a".to_string(), "b".to_string(), "a".to_string()]);
    let ids: Vec<&str> = c.iter().map(|e| e.0.as_str()).collect();
    assert_eq!(ids, vec!["a", "b"]);
    assert!(c.iter().all(|e| e.1.is_empty()));
}

#[test]
fn each_model_keeps_its_own_conversation() {
    let mut c = gtllm::standard::fresh_conversations(&["a".to_string(), "b".to_string()]);
    let answers = vec![
        ModelResponse { model_id: "a".to_string(), content: "A1".to_string(), error_message: None },
        ModelResponse { model_id: "b".to_string(), content: String::new(), error_message: Some("down".to_string()) },
        ModelResponse { model_id: "z".to_string(), content: "Z1".to_string(), error_message: None },
    ];
    gtllm::standard::record_multi_exchange(&mut c, "q1", &answers);
    assert_eq!(c.len(), 2);
    assert_eq!(c[0].1, vec![("q1".to_string(), "A1".to_string())]);
    assert!(c[1].1.is_empty());

    let m = gtllm::standard::model_turn_messages("sys", &c, "a", "q2");
    let pairs: Vec<(&str, &str)> = m.iter().map(|(r, t)| (r.as_str(), t.as_str())).collect();
    assert_eq!(pairs, vec![("system", "sys"), ("user", "q1"), ("assistant", "A1"), ("user", "q2")]);
    let m = gtllm::standard::model_turn_messages("sys", &c, "new", "q2");
    assert_eq!(m.len(), 2);
}

#[test]
fn a_turn_goes_to_the_shared_or_the_own_conversations() {
    let mut h = gtllm::history::ConversationHistory {
        single_model: vec![],
        multi_model: gtllm::standard::fresh_conversations(&["a".to_string(), "b".to_string()]),
    };
    let ok = vec![ModelResponse { model_id: "a".to_string(), content: "A1".to_string(), error_message: None }];
    gtllm::standard::record_turn(&mut h, "q1", true, &ok);
    assert_eq!(h.single_model, vec![("q1".to_string(), "A1".to_string())]);
    assert!(h.multi_model[0].1.is_empty());
    gtllm::standard::record_turn(&mut h, "q2", false, &ok);
    assert_eq!(h.single_model.len(), 1);
    assert_eq!(h.multi_model[0].1, vec![("q2".to_string(), "A1".to_string())]);
}

#[test]
fn the_search_lists_matching_models_in_order() {
    let models = vec![
        ("GPT Four".to_string(), "openai/gpt-4".to_string()),
        ("Llama".to_string(), "meta/llama".to_string()),
        ("Mixtral".to_string(), "mistral/GPT-like".to_string()),
    ];
    assert_eq!(gtllm::selection::listed_models(&models, "gpt"), vec![0, 2]);
    assert_eq!(gtllm::selection::listed_models(&models, ""), vec![0, 1, 2]);
    assert_eq!(gtllm::selection::listed_models(&models, "META"), vec![1]);
    assert!(gtllm::selection::listed_models(&models, "zzz").is_empty());
}

#[test]
fn a_chat_starts_only_with_models_selected() {
    assert_eq!(gtllm::selection::models_to_start(&[]), None);
    let sel = vec!["a".to_string(), "b".to_string()];
    assert_eq!(gtllm::selection::models_to_start(&sel), Some(sel.clone()));
}
