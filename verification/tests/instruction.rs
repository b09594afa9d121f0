use anna::instruction::{boolify, get_chat_instruction, ChatInstruction};
use anna::temp::{clamp_temp, parse_temp, AtomicF32};

#[test]
fn test_chat_instruction() {
    let inst = get_chat_instruction("hello world", 1000);
    assert!(inst.is_none());

    let inst = get_chat_instruction("!chat hello world", 1000).unwrap();
    assert_eq!(inst.msg, "hello world");

    let inst = get_chat_instruction("Charbot9000: hello world", 1000).unwrap();
    assert_eq!(inst.msg, "hello world");
    let inst = get_chat_instruction("Charbot9000, hello world", 1000).unwrap();
    assert_eq!(inst.msg, "hello world");

    let inst = get_chat_instruction("!chat:temp=1", 1000).unwrap();
    assert_eq!(inst.temp, 1000);
    assert!(inst.context);
    assert!(inst.save);
    assert!(!inst.pastebin);
    assert!(inst.msg.is_empty());

    let inst = get_chat_instruction("!chat:temp=0.5,context=no hello world", 1000).unwrap();
    assert_eq!(inst.temp, 500);
    assert!(!inst.context);
    assert!(inst.save);
    assert!(!inst.pastebin);
    assert_eq!(inst.msg, "hello world");

    let inst = get_chat_instruction("!chat/temp=55/save hello world", 1000).unwrap();
    assert_eq!(inst.temp, 2000);
    assert!(inst.context);
    assert!(inst.save);
    assert!(!inst.pastebin);
    assert_eq!(inst.msg, "hello world");

    let inst = get_chat_instruction("!chat --pastebin --save=no --temp=3 hello    world", 1000)
        .unwrap();
    assert_eq!(inst.temp, 2000);
    assert!(inst.context);
    assert!(!inst.save);
    assert!(inst.pastebin);
    assert!(!inst.tts);
    assert_eq!(inst.msg, "hello    world");

    let inst = get_chat_instruction("!chat --tts hello", 1000).unwrap();
    assert!(inst.tts);

    let inst = get_chat_instruction("!chat --tts=yes hello", 1000).unwrap();
    assert!(inst.tts);

    let inst = get_chat_instruction("!chat --tts=false hello", 1000).unwrap();
    assert!(!inst.tts);
}

#[test]
fn no_directive_for_plain_lines() {
    assert!(get_chat_instruction("hello world", 1000).is_none());
    assert!(get_chat_instruction("", 1000).is_none());
    assert!(get_chat_instruction("!echo hi", 1000).is_none());
    assert!(get_chat_instruction("say !chat things", 1000).is_none());
    assert!(get_chat_instruction(" Charbot9000: hi", 1000).is_none());
}

#[test]
fn bare_command_word_is_empty_directive() {
    let inst = get_chat_instruction("!chat", 1000).unwrap();
    assert!(inst.msg.is_empty());
    assert_eq!(inst.temp, 1000);
    assert!(inst.context);
    assert!(inst.save);
    assert!(!inst.pastebin);
    assert!(!inst.tts);

    // surrounding whitespace is trimmed before the command word is matched
    let inst = get_chat_instruction("   !chat   ", 1000).unwrap();
    assert!(inst.msg.is_empty());
}

#[test]
fn all_option_tokens_leave_an_empty_message() {
    let inst = get_chat_instruction("!chat --tts", 1000).unwrap();
    assert!(inst.tts);
    assert!(inst.msg.is_empty());
}

#[test]
fn command_word_matches_without_a_separator() {
    // the command word may be followed directly by text
    let inst = get_chat_instruction("!chatfoo", 1000).unwrap();
    assert_eq!(inst.msg, "foo");
}

#[test]
fn default_temperature_is_clamped() {
    let inst = get_chat_instruction("!chat hi", 9999).unwrap();
    assert_eq!(inst.temp, 2000);
}

#[test]
fn unknown_boolish_leaves_option_unchanged() {
    let inst = get_chat_instruction("!chat:context=maybe hi", 1000).unwrap();
    assert!(inst.context);
    let inst = get_chat_instruction("!chat --save=dunno hi", 1000).unwrap();
    assert!(inst.save);
}

#[test]
fn unknown_keys_are_ignored() {
    let inst = get_chat_instruction("!chat:wibble=3,context=no hi", 1000).unwrap();
    assert!(!inst.context);
    assert_eq!(inst.msg, "hi");
}

#[test]
fn repeated_option_last_one_wins() {
    let inst = get_chat_instruction("!chat:temp=0.5,temp=1.5 hi", 1000).unwrap();
    assert_eq!(inst.temp, 1500);
    let inst = get_chat_instruction("!chat --context=no --context=yes hi", 1000).unwrap();
    assert!(inst.context);
}

#[test]
fn invalid_temperature_is_ignored() {
    let inst = get_chat_instruction("!chat:temp=abc hi", 1000).unwrap();
    assert_eq!(inst.temp, 1000);
    let inst = get_chat_instruction("!chat --temp= hi", 1000).unwrap();
    assert_eq!(inst.temp, 1000);
}

#[test]
fn update_folds_one_token() {
    let mut inst = ChatInstruction::default("x", 1000);
    inst.update("paste");
    assert!(inst.pastebin);
    inst.update("paste=off");
    assert!(!inst.pastebin);
    inst.update("temp=0.25");
    assert_eq!(inst.temp, 250);
}

#[test]
fn boolify_reads_loose_tokens() {
    assert_eq!(boolify(Some("y")), Some(true));
    assert_eq!(boolify(Some("yes")), Some(true));
    assert_eq!(boolify(Some("true")), Some(true));
    assert_eq!(boolify(Some("on")), Some(true));
    assert_eq!(boolify(Some("n")), Some(false));
    assert_eq!(boolify(Some("no")), Some(false));
    assert_eq!(boolify(Some("false")), Some(false));
    assert_eq!(boolify(Some("off")), Some(false));
    assert_eq!(boolify(Some("YES")), None);
    assert_eq!(boolify(Some("")), None);
    assert_eq!(boolify(None), None);
}

#[test]
fn parse_temp_exact_values() {
    assert_eq!(parse_temp("1"), Some(1000));
    assert_eq!(parse_temp("0.5"), Some(500));
    assert_eq!(parse_temp("0.4"), Some(400));
    assert_eq!(parse_temp("2"), Some(2000));
    assert_eq!(parse_temp("3"), Some(2000));
    assert_eq!(parse_temp("55"), Some(2000));
    assert_eq!(parse_temp("2.0005"), Some(2000));
    assert_eq!(parse_temp("1.2345"), Some(1234));
    assert_eq!(parse_temp(".5"), Some(500));
    assert_eq!(parse_temp("5."), Some(2000));
    assert_eq!(parse_temp("+0.75"), Some(750));
    assert_eq!(parse_temp("-1"), Some(0));
    assert_eq!(parse_temp("999999999999999999999"), Some(2000));
    assert_eq!(parse_temp("0000.5000"), Some(500));
    assert_eq!(parse_temp(""), None);
    assert_eq!(parse_temp("."), None);
    assert_eq!(parse_temp("-"), None);
    assert_eq!(parse_temp("abc"), None);
    assert_eq!(parse_temp("1.2.3"), None);
}

#[test]
fn parse_temp_exponent_forms() {
    assert_eq!(parse_temp("1e3"), Some(2000));
    assert_eq!(parse_temp("1e0"), Some(1000));
    assert_eq!(parse_temp("5e-1"), Some(500));
    assert_eq!(parse_temp("1.5e0"), Some(1500));
    assert_eq!(parse_temp("1E-3"), Some(1));
    assert_eq!(parse_temp("1e-4"), Some(0));
    assert_eq!(parse_temp("2500e-3"), Some(2000));
    assert_eq!(parse_temp("125e-2"), Some(1250));
    assert_eq!(parse_temp(".5e1"), Some(2000));
    assert_eq!(parse_temp("0.00015e4"), Some(1500));
    assert_eq!(parse_temp("-1e-2"), Some(0));
    assert_eq!(parse_temp("1e+2"), Some(2000));
    assert_eq!(parse_temp("1e999999999999999999999999999999999"), Some(2000));
    assert_eq!(parse_temp("1e-999999999999999999999999999999999"), Some(0));
    assert_eq!(parse_temp("0e999999999999999999999999999999999"), Some(0));
    assert_eq!(parse_temp("0.0e-999999999999999999999999999999999"), Some(0));
    assert_eq!(parse_temp("e3"), None);
    assert_eq!(parse_temp("1e"), None);
    assert_eq!(parse_temp("1e+"), None);
    assert_eq!(parse_temp("1e3.5"), None);
    assert_eq!(parse_temp("1e3e4"), None);
}

#[test]
fn exponent_temperatures_reach_directives() {
    let inst = get_chat_instruction("!chat:temp=1e3 hi", 1000).unwrap();
    assert_eq!(inst.temp, 2000);
    let inst = get_chat_instruction("!chat --temp=5e-1 hi", 1000).unwrap();
    assert_eq!(inst.temp, 500);
}

#[test]
fn parse_temp_words() {
    assert_eq!(parse_temp("inf"), Some(2000));
    assert_eq!(parse_temp("Infinity"), Some(2000));
    assert_eq!(parse_temp("+INF"), Some(2000));
    assert_eq!(parse_temp("-inf"), Some(0));
    assert_eq!(parse_temp("nan"), None);
    assert_eq!(parse_temp("NaN"), None);
    assert_eq!(parse_temp("infi"), None);
}

#[test]
fn clamp_temp_bounds() {
    assert_eq!(clamp_temp(0), 0);
    assert_eq!(clamp_temp(2000), 2000);
    assert_eq!(clamp_temp(2001), 2000);
}

#[test]
fn test_atomic_f32() {
    let x = AtomicF32::new(0.2f32.to_bits());
    assert_eq!(x.load(), 0.2f32.to_bits());

    x.store(1.5f32.to_bits());
    assert_eq!(x.load(), 1.5f32.to_bits());
}
