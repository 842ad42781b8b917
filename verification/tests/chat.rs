use rust_rag::chat::{interpret_chat_line, ChatInput};

#[test]
fn exit_and_quit_in_any_case() {
    assert_eq!(interpret_chat_line("exit\n"), ChatInput::Quit);
    assert_eq!(interpret_chat_line("  EXIT \r\n"), ChatInput::Quit);
    assert_eq!(interpret_chat_line("Quit"), ChatInput::Quit);
    assert_eq!(interpret_chat_line("qUiT\n"), ChatInput::Quit);
}

#[test]
fn blank_lines_are_skipped() {
    assert_eq!(interpret_chat_line("\n"), ChatInput::Skip);
    assert_eq!(interpret_chat_line(""), ChatInput::Skip);
    assert_eq!(interpret_chat_line(" \t \r\n"), ChatInput::Skip);
}

#[test]
fn questions_are_trimmed() {
    assert_eq!(
        interpret_chat_line("  What is Rust's ownership system?\n"),
        ChatInput::Ask("What is Rust's ownership system?".to_string())
    );
    assert_eq!(interpret_chat_line("exit now\n"), ChatInput::Ask("exit now".to_string()));
    assert_eq!(interpret_chat_line("quitting"), ChatInput::Ask("quitting".to_string()));
}
