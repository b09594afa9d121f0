use anna::message::{
    build_user_turn, extract_image_urls, is_image_content_type, ChatMessageThing, ContentPart,
    MessageContent, Role,
};
use anna::store::{CompletionMessage, MessageMap};

fn text_of(t: &ChatMessageThing) -> &str {
    t.get_as_irc_format().unwrap()
}

#[test]
fn insert_then_read_returns_that_turn() {
    let mut store = MessageMap::default();
    store.insert_usermsg("#room", "alice", "hello there", &Vec::new(), 100);
    let got = store.get_chat_messages("#room", false, 100);
    assert_eq!(got.len(), 1);
    assert_eq!(text_of(&got[0]), "<alice> hello there");
    assert!(matches!(got[0].role, Role::User));
}

#[test]
fn old_turns_are_evicted_after_48_hours() {
    let mut store = MessageMap::default();
    store.insert_usermsg("#room", "alice", "early", &Vec::new(), 0);
    // 48 hours later the first turn is exactly at the cutoff and survives
    store.insert_usermsg("#room", "alice", "later", &Vec::new(), 172_800);
    assert_eq!(store.get_chat_messages("#room", true, 172_800).len(), 2);
    // one second past 48 hours, the oldest turn is dropped on insert
    store.insert_usermsg("#room", "alice", "latest", &Vec::new(), 172_801);
    let got = store.get_chat_messages("#room", true, 172_801);
    assert_eq!(got.len(), 2);
    assert_eq!(text_of(&got[0]), "<alice> later");
    assert_eq!(text_of(&got[1]), "<alice> latest");
}

#[test]
fn include_all_context_toggles_scope() {
    let mut store = MessageMap::default();
    store.insert_usermsg("#room", "a", "one", &Vec::new(), 10);
    store.insert_usermsg("#room", "b", "two", &Vec::new(), 20);
    assert_eq!(store.get_chat_messages("#room", true, 20).len(), 2);
    let last_only = store.get_chat_messages("#room", false, 20);
    assert_eq!(last_only.len(), 1);
    assert_eq!(text_of(&last_only[0]), "<b> two");
}

#[test]
fn channels_do_not_interfere() {
    let mut store = MessageMap::default();
    store.insert_usermsg("#one", "a", "first room", &Vec::new(), 5);
    store.insert_usermsg("#two", "b", "second room", &Vec::new(), 6);
    store.clear_chat_message("#one");
    assert_eq!(store.get_chat_messages("#one", true, 6).len(), 0);
    let other = store.get_chat_messages("#two", true, 6);
    assert_eq!(other.len(), 1);
    assert_eq!(text_of(&other[0]), "<b> second room");
}

#[test]
fn clear_is_a_noop_for_unknown_channels() {
    let mut store = MessageMap::default();
    store.insert_usermsg("#one", "a", "kept", &Vec::new(), 5);
    store.clear_chat_message("#nowhere");
    assert_eq!(store.get_chat_messages("#one", true, 5).len(), 1);
    assert_eq!(store.get_chat_messages("#nowhere", true, 5).len(), 0);
}

#[test]
fn image_parts_decay_after_an_hour() {
    let mut store = MessageMap::default();
    let urls = vec!["https://pics.example/cat.jpeg".to_string()];
    store.insert_usermsg("#room", "a", "look https://pics.example/cat.jpeg", &urls, 0);

    // read within the hour: both parts are still there
    let fresh = store.get_chat_messages("#room", false, 3600);
    match &fresh[0].content {
        Some(MessageContent::Parts(parts)) => {
            assert_eq!(parts.len(), 2);
            assert!(matches!(parts[0], ContentPart::Text(_)));
            assert!(matches!(parts[1], ContentPart::Image(_)));
        },
        _ => panic!("expected a multi-part turn"),
    }

    // read past the hour: only the text part remains in the copy
    let aged = store.get_chat_messages("#room", false, 3601);
    match &aged[0].content {
        Some(MessageContent::Parts(parts)) => {
            assert_eq!(parts.len(), 1);
            match &parts[0] {
                ContentPart::Text(t) => {
                    assert_eq!(t, "<a> look https://pics.example/cat.jpeg")
                },
                _ => panic!("expected the text part"),
            }
        },
        _ => panic!("expected a multi-part turn"),
    }

    // the stored turn itself is unchanged: a fresh read shows both parts
    let again = store.get_chat_messages("#room", false, 60);
    match &again[0].content {
        Some(MessageContent::Parts(parts)) => assert_eq!(parts.len(), 2),
        _ => panic!("expected a multi-part turn"),
    }
}

#[test]
fn plain_messages_store_plain_text() {
    let turn = build_user_turn("ann", "no links here", &Vec::new(), 7);
    assert!(matches!(turn.content, Some(MessageContent::Text(_))));
    assert_eq!(turn.date, 7);

    // a URL candidate that probed as no image still forces the parts form
    let turn = build_user_turn("ann", "see https://example.org/page", &Vec::new(), 7);
    match &turn.content {
        Some(MessageContent::Parts(parts)) => assert_eq!(parts.len(), 1),
        _ => panic!("expected a multi-part turn"),
    }
}

#[test]
fn url_candidates_are_https_tokens() {
    let urls = extract_image_urls("a https://x.example/a http://plain.example b https://y.example/b");
    assert_eq!(urls, vec!["https://x.example/a".to_string(), "https://y.example/b".to_string()]);
    assert!(extract_image_urls("nothing to see").is_empty());
}

#[test]
fn image_content_types() {
    assert!(is_image_content_type("image/png"));
    assert!(is_image_content_type("image/jpeg; charset=binary"));
    assert!(!is_image_content_type("text/html"));
    assert!(!is_image_content_type(""));
}

#[test]
fn agent_turns_are_appended_in_order() {
    let mut store = MessageMap::default();
    store.insert_usermsg("#room", "a", "question", &Vec::new(), 10);
    let resp = vec![
        CompletionMessage { role: Role::Agent, text: Some("answer".to_string()) },
        CompletionMessage { role: Role::Agent, text: None },
    ];
    store.insert_selfmsg("#room", &resp, 11);
    let got = store.get_chat_messages("#room", true, 11);
    assert_eq!(got.len(), 3);
    assert_eq!(text_of(&got[1]), "answer");
    assert!(got[2].get_as_irc_format().is_none());
}

#[test]
fn channel_log_snapshots_everything() {
    let mut store = MessageMap::default();
    store.insert_usermsg("#room", "a", "one", &Vec::new(), 1);
    store.insert_usermsg("#room", "b", "two", &Vec::new(), 2);
    let snap = store.channel_log("#room");
    assert_eq!(snap.len(), 2);
    assert_eq!(text_of(&snap[0]), "<a> one");
    assert!(store.channel_log("#other").is_empty());
}

#[test]
fn accepts_now_guards_the_clock() {
    let mut store = MessageMap::default();
    assert!(store.accepts_now("#room", 0));
    store.insert_usermsg("#room", "a", "x", &Vec::new(), 100);
    assert!(store.accepts_now("#room", 100));
    assert!(store.accepts_now("#room", 101));
    assert!(!store.accepts_now("#room", 99));
    assert!(store.accepts_now("#other", 0));
}
