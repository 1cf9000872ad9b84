use chatgpt_cli::convo::{
    conversation_display_name, conversation_file_path, conversations_dir, get_data_dir,
    is_saved_conversation, main_conversation_file,
};

#[test]
fn data_dir_joins_home_and_app() {
    assert_eq!(get_data_dir("/home/u", "someapp"), "/home/u/.config/someapp");
}

#[test]
fn conversations_dir_is_under_config() {
    assert_eq!(conversations_dir("/home/u"), "/home/u/.config/chatgpt_cli");
}

#[test]
fn main_conversation_file_name() {
    assert_eq!(
        main_conversation_file("/home/u"),
        "/home/u/.config/chatgpt_cli/conversation.json"
    );
}

#[test]
fn saved_conversation_path_carries_name() {
    assert_eq!(
        conversation_file_path("/home/u", "work"),
        "/home/u/.config/chatgpt_cli/conversation_work.json"
    );
}

#[test]
fn recognises_saved_conversations() {
    assert!(is_saved_conversation("conversation_work.json"));
    assert!(is_saved_conversation("conversation_2024 notes.json"));
    assert!(!is_saved_conversation("conversation.json"));
    assert!(!is_saved_conversation("notes.txt"));
    assert!(!is_saved_conversation("conversation_draft.txt"));
    assert!(!is_saved_conversation(""));
}

#[test]
fn display_name_strips_prefix_and_suffix() {
    assert_eq!(conversation_display_name("conversation_work.json"), "work");
    assert_eq!(conversation_display_name("conversation_a.json"), "a");
}

#[test]
fn name_round_trips_through_file_name() {
    let path = conversation_file_path("/h", "trip");
    let file_name = path.rsplit('/').next().unwrap();
    assert!(is_saved_conversation(file_name));
    assert_eq!(conversation_display_name(file_name), "trip");
}
