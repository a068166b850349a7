use gtllm::navigation::{
    close_requested, confirm_navigation, finish_deletion, plan_navigation, request_navigation,
    session_has_active_runs, shutdown_may_close, take_active_runs, take_session_runs, view_after_settings,
    find_session, CloseAction, NavigationPlan, RunPhase, RunRecord,
};
use gtllm::sessions::{add_draft_session, draft_session};
use gtllm::types::{AppView, ChatMode, ChatSession};
use gtllm::Theme;
use gtllm::ThemeMode;

fn run(id: &str, session: Option<&str>, phase: RunPhase) -> RunRecord {
    RunRecord { run_id: id.to_string(), session_id: session.map(|s| s.to_string()), phase }
}

fn session(id: &str, mode: ChatMode) -> ChatSession {
    ChatSession { id: id.to_string(), title: "T".to_string(), mode, timestamp: "1".to_string() }
}

#[test]
fn only_active_runs_of_the_current_session_count() {
    let runs = vec![
        run("r1", Some("a"), RunPhase::Stopped),
        run("r2", Some("b"), RunPhase::Running),
        run("r3", None, RunPhase::Cancelling),
    ];
    assert!(!session_has_active_runs(&runs, &Some("a".to_string())));
    assert!(session_has_active_runs(&runs, &Some("b".to_string())));
    assert!(session_has_active_runs(&runs, &None));
    assert!(!session_has_active_runs(&[], &None));
}

#[test]
fn leaving_a_busy_chat_asks_first() {
    let runs = vec![run("r1", Some("a"), RunPhase::Running)];
    let mut pending = None;
    let mut open = false;
    let go = request_navigation(&runs, &Some("a".to_string()), "b".to_string(), &mut pending, &mut open);
    assert_eq!(go, None);
    assert_eq!(pending, Some("b".to_string()));
    assert!(open);
    let go = confirm_navigation(&mut pending, &mut open);
    assert_eq!(go, Some("b".to_string()));
    assert_eq!(pending, None);
    assert!(!open);
}

#[test]
fn leaving_an_idle_chat_goes_at_once() {
    let runs = vec![run("r1", Some("a"), RunPhase::Stopped)];
    let mut pending = None;
    let mut open = false;
    let go = request_navigation(&runs, &Some("a".to_string()), "new_chat".to_string(), &mut pending, &mut open);
    assert_eq!(go, Some("new_chat".to_string()));
    assert_eq!(pending, None);
    assert!(!open);
}

#[test]
fn leaving_stops_the_active_runs_of_the_session() {
    let mut runs = vec![
        run("r1", Some("a"), RunPhase::Running),
        run("r2", Some("a"), RunPhase::Stopped),
        run("r3", Some("b"), RunPhase::Running),
        run("r4", Some("a"), RunPhase::Cancelling),
    ];
    let ids = take_active_runs(&mut runs, &Some("a".to_string()));
    assert_eq!(ids, vec!["r1".to_string(), "r4".to_string()]);
    let left: Vec<&str> = runs.iter().map(|r| r.run_id.as_str()).collect();
    assert_eq!(left, vec!["r2", "r3"]);
    assert!(!session_has_active_runs(&runs, &Some("a".to_string())));
}

#[test]
fn deleting_stops_every_run_of_the_session() {
    let mut runs = vec![
        run("r1", Some("a"), RunPhase::Running),
        run("r2", Some("a"), RunPhase::Stopped),
        run("r3", Some("b"), RunPhase::Running),
    ];
    let ids = take_session_runs(&mut runs, "a");
    assert_eq!(ids, vec!["r1".to_string(), "r2".to_string()]);
    assert_eq!(runs.len(), 1);
    assert_eq!(runs[0].run_id, "r3");
}

#[test]
fn closing_the_window() {
    let mut shutting = false;
    let mut idle = vec![run("r1", Some("a"), RunPhase::Stopped)];
    assert_eq!(close_requested(&mut shutting, &mut idle), CloseAction::CloseNow);
    assert!(!shutting);

    let mut busy = vec![run("r1", Some("a"), RunPhase::Running), run("r2", None, RunPhase::Stopped)];
    assert_eq!(close_requested(&mut shutting, &mut busy), CloseAction::Shutdown);
    assert!(shutting);
    assert_eq!(busy[0].phase, RunPhase::Cancelling);
    assert_eq!(busy[1].phase, RunPhase::Stopped);
    assert!(!shutdown_may_close(&busy, false));
    assert!(shutdown_may_close(&busy, true));
    assert_eq!(close_requested(&mut shutting, &mut busy), CloseAction::Ignore);
    busy[0].phase = RunPhase::Stopped;
    assert!(shutdown_may_close(&busy, false));
}

#[test]
fn settings_return_to_the_current_chat() {
    let list = vec![session("x", ChatMode::PvP), session("y", ChatMode::Competitive), session("y", ChatMode::Standard)];
    assert_eq!(view_after_settings(&Some("y".to_string()), &list), AppView::ChatMode(ChatMode::Competitive));
    assert_eq!(view_after_settings(&Some("z".to_string()), &list), AppView::NewChat);
    assert_eq!(view_after_settings(&None, &list), AppView::NewChat);
    assert_eq!(find_session(&list, "y"), Some(1));
    assert_eq!(find_session(&list, "q"), None);
}

#[test]
fn navigation_targets_are_planned() {
    let list = vec![session("x", ChatMode::PvP), session("y", ChatMode::Competitive)];
    assert_eq!(plan_navigation("new_chat", &list), NavigationPlan::NewChat);
    assert_eq!(plan_navigation("y", &list), NavigationPlan::Open(1));
    assert_eq!(plan_navigation("gone", &list), NavigationPlan::Stay);
}

#[test]
fn a_deleted_current_session_leads_back_to_a_new_chat() {
    let mut list = vec![session("x", ChatMode::PvP), session("y", ChatMode::Competitive)];
    let mut current = Some("y".to_string());
    let mut view = AppView::ChatMode(ChatMode::Competitive);
    finish_deletion(&mut list, &mut current, &mut view, "y", true);
    assert_eq!(list.len(), 1);
    assert_eq!(current, None);
    assert_eq!(view, AppView::NewChat);

    let mut current = Some("x".to_string());
    let mut view = AppView::ChatMode(ChatMode::PvP);
    finish_deletion(&mut list, &mut current, &mut view, "q", false);
    assert_eq!(list.len(), 1);
    assert_eq!(current, Some("x".to_string()));
    assert_eq!(view, AppView::ChatMode(ChatMode::PvP));
}

#[test]
fn a_new_chat_starts_as_a_saved_draft() {
    let d = draft_session(ChatMode::Collaborative, "1700000000");
    assert_eq!(d.session.title, "New Collaborative Chat");
    assert_eq!(d.session.id, "collaborative_1700000000_New_Collaborative_Chat");
    assert_eq!(d.session.mode, ChatMode::Collaborative);
    assert_eq!(d.session.timestamp, "1700000000");
    assert_eq!(d.created_at, "1700000000");
    assert_eq!(d.updated_at, "1700000000");
    assert!(is_empty_collaborative(&d.history));

    let mut list = vec![session("x", ChatMode::PvP)];
    add_draft_session(&mut list, d.session.clone());
    assert_eq!(list.len(), 2);
    add_draft_session(&mut list, d.session.clone());
    assert_eq!(list.len(), 2);
}

fn is_empty_collaborative(h: &gtllm::history::ChatHistory) -> bool {
    match h {
        gtllm::history::ChatHistory::Collaborative(c) => c.rounds.is_empty() && c.selected_models.is_empty(),
        _ => false,
    }
}

#[test]
fn the_switch_flips_between_light_and_dark() {
    assert_eq!(Theme::Dracula.toggled(), Theme::Winter);
    assert_eq!(Theme::Night.toggled(), Theme::Winter);
    assert_eq!(Theme::Nord.toggled(), Theme::Dracula);
    assert_eq!(Theme::Winter.toggled().toggled(), Theme::Winter);
    assert_eq!(Theme::Dim.theme_mode(), ThemeMode::Dark);
    assert_eq!(Theme::Black.theme_mode(), ThemeMode::Light);
}
