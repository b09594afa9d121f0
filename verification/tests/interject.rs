use anna::interject::{
    bracketed_prompt, collect_irc_lines, image_prompt_reply, interjection_reply, replace_marker,
};
use anna::message::Role;
use anna::store::MessageMap;

#[test]
fn transcripts_join_displayable_turns() {
    let mut store = MessageMap::default();
    store.insert_usermsg("#room", "a", "one", &Vec::new(), 1);
    store.insert_usermsg("#room", "b", "two", &Vec::new(), 2);
    let log = store.channel_log("#room");
    assert_eq!(collect_irc_lines(&log), "<a> one\n<b> two\n");
    assert_eq!(collect_irc_lines(&Vec::new()), "");
}

#[test]
fn markers_are_replaced_everywhere() {
    assert_eq!(replace_marker("the {AB} text {AB}.", "below"), "the below text below.");
    assert_eq!(replace_marker("no marker", "below"), "no marker");
    assert_eq!(replace_marker("{AB}", "above"), "above");
    assert_eq!(replace_marker("{A B}", "above"), "{A B}");
}

#[test]
fn bracketed_prompts_carry_three_turns() {
    let msgs = bracketed_prompt("material is {AB}", "line one\n".to_string());
    assert_eq!(msgs.len(), 3);
    assert!(matches!(msgs[0].role, Role::User));
    assert_eq!(msgs[0].text.as_deref(), Some("material is below"));
    assert_eq!(msgs[1].text.as_deref(), Some("line one\n"));
    assert_eq!(msgs[2].text.as_deref(), Some("material is above"));
}

#[test]
fn interjection_answers_are_read() {
    assert_eq!(interjection_reply("something witty"), Some("something witty".to_string()));
    assert_eq!(interjection_reply("no comment"), None);
    assert_eq!(interjection_reply("well, no comment from me"), None);
}

#[test]
fn image_prompts_are_unquoted() {
    assert_eq!(image_prompt_reply("\"a red fox\""), Some("a red fox".to_string()));
    assert_eq!(image_prompt_reply("plain prompt"), Some("plain prompt".to_string()));
    assert_eq!(image_prompt_reply("no image"), None);
    assert_eq!(image_prompt_reply("\"\""), Some("".to_string()));
}
