use anna::dispatch::{
    classify_line, handle_completion, prepare_chat_request, DispatchAction, ReplyRoute,
};
use anna::instruction::ChatInstruction;
use anna::message::Role;
use anna::store::{CompletionMessage, MessageMap};

#[test]
fn ignored_bots_are_ignored() {
    let r = classify_line("GizmoBot", "#room", "!chat hello", true, 1000);
    assert!(matches!(r, DispatchAction::Ignore));
}

#[test]
fn owner_commands_steer_the_process() {
    assert!(matches!(classify_line("achin", "#room", "please go quit now", true, 1000), DispatchAction::Quit));
    assert!(matches!(classify_line("achin", "#room", "!quit", true, 1000), DispatchAction::Quit));
    // only the operator may do that
    assert!(matches!(classify_line("mallory", "#room", "!quit", true, 1000), DispatchAction::Ignore));
    match classify_line("achin", "#room", "!join #next ", true, 1000) {
        DispatchAction::Join(ch) => assert_eq!(ch, "#next"),
        _ => panic!("expected a join"),
    }
    match classify_line("achin", "#room", "!part #old", true, 1000) {
        DispatchAction::Part(ch) => assert_eq!(ch, "#old"),
        _ => panic!("expected a part"),
    }
}

#[test]
fn administrative_commands_short_circuit() {
    match classify_line("bob", "#room", "!echo  hi there ", true, 1000) {
        DispatchAction::Echo(t) => assert_eq!(t, "hi there"),
        _ => panic!("expected an echo"),
    }
    match classify_line("bob", "#room", "!set_temp 0.5", true, 1000) {
        DispatchAction::SetTemp(t) => assert_eq!(t, 500),
        _ => panic!("expected a temperature change"),
    }
    match classify_line("bob", "#room", "!set_temp 9", true, 1000) {
        DispatchAction::SetTemp(t) => assert_eq!(t, 2000),
        _ => panic!("expected a clamped temperature change"),
    }
    assert!(matches!(classify_line("bob", "#room", "!set_temp abc", true, 1000), DispatchAction::SetTempInvalid));
    assert!(matches!(classify_line("bob", "#room", "!set_temp nan", true, 1000), DispatchAction::SetTempInvalid));
    match classify_line("bob", "#room", "!set_temp 1e-1", true, 1000) {
        DispatchAction::SetTemp(t) => assert_eq!(t, 100),
        _ => panic!("expected a temperature change"),
    }
    assert!(matches!(classify_line("bob", "#room", "!get_temp", true, 1000), DispatchAction::GetTemp));
    match classify_line("bob", "#room", "!tts say this", true, 1000) {
        DispatchAction::Tts(t) => assert_eq!(t, "say this"),
        _ => panic!("expected an audio request"),
    }
    assert!(matches!(classify_line("bob", "#room", "!clearctx", true, 1000), DispatchAction::ClearContext));
}

#[test]
fn media_commands_need_a_secure_url() {
    match classify_line("bob", "#room", "!translate https://a.example/x.ogg to english", true, 1000)
    {
        DispatchAction::Translate { url, prompt } => {
            assert_eq!(url, "https://a.example/x.ogg");
            assert_eq!(prompt.as_deref(), Some("to english"));
        },
        _ => panic!("expected a translation"),
    }
    match classify_line("bob", "#room", "!transcribe https://a.example/x.ogg", true, 1000) {
        DispatchAction::Transcribe { url, prompt } => {
            assert_eq!(url, "https://a.example/x.ogg");
            assert!(prompt.is_none());
        },
        _ => panic!("expected a transcription"),
    }
    assert!(matches!(
        classify_line("bob", "#room", "!translate ftp://a.example/x.ogg", true, 1000),
        DispatchAction::Ignore
    ));
}

#[test]
fn directives_win_over_image_requests() {
    match classify_line("bob", "#room", "!chat --tts hello", true, 1000) {
        DispatchAction::Chat(inst) => {
            assert!(inst.tts);
            assert_eq!(inst.msg, "hello");
        },
        _ => panic!("expected a chat directive"),
    }
    match classify_line("bob", "#room", "!img a painting", true, 1000) {
        DispatchAction::Image(p) => assert_eq!(p, "a painting"),
        _ => panic!("expected an image request"),
    }
}

#[test]
fn passive_capture_needs_opt_in_and_a_broadcast_channel() {
    assert!(matches!(classify_line("agrif", "#room", "just chatting", true, 1000), DispatchAction::Capture));
    assert!(matches!(classify_line("agrif", "query", "just chatting", true, 1000), DispatchAction::Ignore));
    assert!(matches!(classify_line("someone", "#room", "just chatting", true, 1000), DispatchAction::Ignore));
    // without anywhere to reply, only capture can apply
    assert!(matches!(classify_line("agrif", "#room", "!chat hello", false, 1000), DispatchAction::Capture));
    assert!(matches!(classify_line("someone", "#room", "!chat hello", false, 1000), DispatchAction::Ignore));
}

#[test]
fn persisted_directives_store_before_sending() {
    let mut store = MessageMap::default();
    let inst = ChatInstruction::default("hello", 1000);
    let for_chat = prepare_chat_request(&mut store, "#room", "ann", &inst, &Vec::new(), 50);
    assert_eq!(for_chat.len(), 1);
    assert_eq!(for_chat[0].get_as_irc_format().unwrap(), "<ann> hello");
    // it went into the store too
    assert_eq!(store.get_chat_messages("#room", true, 50).len(), 1);
}

#[test]
fn unpersisted_directives_append_a_synthetic_turn() {
    let mut store = MessageMap::default();
    store.insert_usermsg("#room", "old", "context line", &Vec::new(), 10);
    let mut inst = ChatInstruction::default("fresh question", 1000);
    inst.update("save=no");
    let for_chat = prepare_chat_request(&mut store, "#room", "ann", &inst, &Vec::new(), 50);
    assert_eq!(for_chat.len(), 2);
    assert_eq!(for_chat[1].get_as_irc_format().unwrap(), "<ann> fresh question");
    // nothing new was stored
    assert_eq!(store.get_chat_messages("#room", true, 50).len(), 1);
}

#[test]
fn context_flag_narrows_the_request() {
    let mut store = MessageMap::default();
    store.insert_usermsg("#room", "old", "earlier", &Vec::new(), 10);
    let mut inst = ChatInstruction::default("now", 1000);
    inst.update("context=no");
    let for_chat = prepare_chat_request(&mut store, "#room", "ann", &inst, &Vec::new(), 50);
    // only the newest stored turn, which is the just-inserted one
    assert_eq!(for_chat.len(), 1);
    assert_eq!(for_chat[0].get_as_irc_format().unwrap(), "<ann> now");
}

#[test]
fn completions_are_recorded_and_routed() {
    let mut store = MessageMap::default();
    let inst = ChatInstruction::default("q", 1000);
    let resp = vec![CompletionMessage { role: Role::Agent, text: Some("the answer".to_string()) }];
    let route = handle_completion(&mut store, "#room", &inst, &resp, 60);
    match route {
        ReplyRoute::Lines(t) => assert_eq!(t, "the answer"),
        _ => panic!("expected chat lines"),
    }
    assert_eq!(store.get_chat_messages("#room", true, 60).len(), 1);

    let mut inst = ChatInstruction::default("q", 1000);
    inst.update("pastebin");
    inst.update("save=no");
    let route = handle_completion(&mut store, "#room", &inst, &resp, 61);
    assert!(matches!(route, ReplyRoute::Upload(_)));
    // save=no left the store alone
    assert_eq!(store.get_chat_messages("#room", true, 61).len(), 1);

    let mut inst = ChatInstruction::default("q", 1000);
    inst.update("tts");
    let route = handle_completion(&mut store, "#room", &inst, &resp, 62);
    assert!(matches!(route, ReplyRoute::Audio(_)));

    let route = handle_completion(
        &mut store,
        "#room",
        &ChatInstruction::default("q", 1000),
        &Vec::new(),
        63,
    );
    assert!(matches!(route, ReplyRoute::Nothing));
}
