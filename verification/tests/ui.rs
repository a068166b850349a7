use gtllm::ui::{table_cell_alignment_class, ToastMessage, ToastType};
use gtllm::TableAlignment;

#[test]
fn toast_styles() {
    let t = ToastMessage { id: 1, message: "Saved".to_string(), toast_type: ToastType::Success };
    assert_eq!(t.bg_class(), "bg-green-600/90");
    assert_eq!(t.icon(), "✓");
    let e = ToastMessage { id: 2, message: "Oops".to_string(), toast_type: ToastType::Error };
    assert_eq!(e.bg_class(), "bg-red-600/90");
    assert_eq!(e.icon(), "✕");
    let i = ToastMessage { id: 3, message: "Note".to_string(), toast_type: ToastType::Info };
    assert_eq!(i.icon(), "ℹ");
}

#[test]
fn table_cells_align() {
    assert_eq!(table_cell_alignment_class(&TableAlignment::Left), "text-left");
    assert_eq!(table_cell_alignment_class(&TableAlignment::Center), "text-center");
    assert_eq!(table_cell_alignment_class(&TableAlignment::Right), "text-right");
    assert_eq!(table_cell_alignment_class(&TableAlignment::Unaligned), "text-left");
}

#[test]
fn ctrl_enter_sends_when_the_settings_ask_for_it() {
    let ctrl_mode = gtllm::InputSettings { ctrl_enter_submit: true };
    let mut text = "hello".to_string();
    assert_eq!(gtllm::ui::submit_on_key(ctrl_mode, true, false, false, &mut text), None);
    assert_eq!(text, "hello");
    assert_eq!(gtllm::ui::submit_on_key(ctrl_mode, true, true, true, &mut text), None);
    assert_eq!(gtllm::ui::submit_on_key(ctrl_mode, true, true, false, &mut text), Some("hello".to_string()));
    assert_eq!(text, "");
}

#[test]
fn plain_enter_sends_otherwise() {
    let enter_mode = gtllm::InputSettings { ctrl_enter_submit: false };
    let mut text = "hi".to_string();
    assert_eq!(gtllm::ui::submit_on_key(enter_mode, true, true, false, &mut text), None);
    assert_eq!(gtllm::ui::submit_on_key(enter_mode, false, false, false, &mut text), None);
    assert_eq!(gtllm::ui::submit_on_key(enter_mode, true, false, false, &mut text), Some("hi".to_string()));
    let mut blank = "  \n ".to_string();
    assert_eq!(gtllm::ui::submit_on_key(enter_mode, true, false, false, &mut blank), None);
    assert_eq!(blank, "  \n ");
}

#[test]
fn the_button_sends_non_blank_text_when_idle() {
    assert!(gtllm::ui::can_send(" x ", false));
    assert!(!gtllm::ui::can_send(" x ", true));
    assert!(!gtllm::ui::can_send("   ", false));
    let mut text = "q".to_string();
    assert_eq!(gtllm::ui::submit_on_click(true, &mut text), None);
    assert_eq!(gtllm::ui::submit_on_click(false, &mut text), Some("q".to_string()));
    assert_eq!(text, "");
}
