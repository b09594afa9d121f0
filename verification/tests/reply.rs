use anna::reply::{plan_long_message, split_long_message_for_irc, trim_botname};

#[test]
fn test_line_split() {
    let long_line = "Charbot9000: Interesting idea, @agrif! Here's a story about how Nut runs for president with Coco as his running mate:\n\nAfter his heroic deeds in the village battle, Nut became a beloved figure among the people. His unwavering sense of justice and courage inspired many, and soon, he found himself being encouraged to run for president. At first, Nut was hesitant. He had never considered a life in politics before, and he wasn't sure if he was cut out for it. But with the support of his friends and loved ones, Nut eventually decided to throw his hat into the ring. To help him on his campaign, Nut turned to his old friend Coco. Although Coco was still just a coconut, Nut knew that his intelligence and charm would be a valuable asset on the campaign trail. So, Nut named Coco as his running mate and the two began their journey to the White House. Together, Nut and Coco traveled across the country, meeting with voters and spreading their message of hope and unity. Nut's bold vision for a better world, combined with Coco's quick wit and infectious personality, made them a popular duo among the people. Despite facing tough opposition from other candidates, Nut and Coco never lost sight of their values. They ran a clean, honest campaign and focused on the issues that mattered most to the people. And in the end, their hard work paid off - Nut and Coco won the election in a landslide. As Nut was sworn in as the new president of the United States, he knew that he had a lot of work to do. But with Coco by his side, he was confident that they could make a real difference in the world. And as they looked out at the sea of cheering supporters before them, Nut and Coco knew that anything was possible with a little courage and a lot of heart.";
    for line in split_long_message_for_irc(long_line) {
        println!("==> {line}");
    }
}

#[test]
fn long_lines_are_wrapped_at_the_column_width() {
    // one word per chunk so the wrap has somewhere to break
    let word = "word ";
    let mut msg = String::new();
    for _ in 0..120 {
        msg.push_str(word);
    }
    // 600 characters of words cannot fit one 400-column line
    let lines = split_long_message_for_irc(&msg);
    assert!(lines.len() >= 2);
    for line in &lines {
        assert!(line.len() <= 400);
    }
}

#[test]
fn blank_lines_are_dropped_and_controls_stripped() {
    let lines = split_long_message_for_irc("first\n\n   \nsec\u{0007}ond\r\nthird");
    assert_eq!(lines, vec!["first".to_string(), "second".to_string(), "third".to_string()]);
}

#[test]
fn short_replies_go_inline() {
    // three short lines weigh two each: six, within the budget of eight
    let lines = vec!["one".to_string(), "two".to_string(), "three".to_string()];
    let (inline, overflow) = plan_long_message(&lines);
    assert!(!overflow);
    assert_eq!(inline, vec!["one".to_string(), "two".to_string(), "three".to_string()]);
}

#[test]
fn heavy_replies_overflow_to_an_upload() {
    // nine short lines weigh two each, eighteen in all: past the budget
    let lines: Vec<String> = (0..9).map(|i| format!("line {i}")).collect();
    let (inline, overflow) = plan_long_message(&lines);
    assert!(overflow);
    // the running count passes the budget at the fifth line
    assert_eq!(inline.len(), 4);
}

#[test]
fn replies_at_the_budget_go_inline_whole() {
    // four lines of exactly 150 bytes weigh two each: eight, not more
    let line = "y".repeat(150);
    let lines = vec![line.clone(), line.clone(), line.clone(), line.clone()];
    let (inline, overflow) = plan_long_message(&lines);
    assert!(!overflow);
    assert_eq!(inline.len(), 4);
}

#[test]
fn one_byte_lines_weigh_two() {
    // five one-byte lines weigh ten: the fallback is owed
    let lines: Vec<String> = (0..5).map(|_| "z".to_string()).collect();
    let (inline, overflow) = plan_long_message(&lines);
    assert!(overflow);
    assert_eq!(inline.len(), 4);
}

#[test]
fn line_weight_counts_every_started_150_bytes() {
    // a 300-byte line weighs three: one line fills the budget fast
    let heavy = "x".repeat(300);
    let lines = vec![heavy.clone(), heavy.clone(), heavy.clone()];
    let (inline, overflow) = plan_long_message(&lines);
    assert!(overflow);
    assert_eq!(inline.len(), 2);
}

#[test]
fn inline_lines_are_trimmed() {
    let lines = vec!["  spaced  ".to_string()];
    let (inline, overflow) = plan_long_message(&lines);
    assert!(!overflow);
    assert_eq!(inline, vec!["spaced".to_string()]);
}

#[test]
fn trim_botname_strips_the_agent_prefix() {
    assert_eq!(trim_botname("Charbot9000: hello"), "hello");
    assert_eq!(trim_botname("<Charbot9000> hello"), "hello");
    assert_eq!(trim_botname("  Charbot9000:   spaced   "), "spaced");
    assert_eq!(trim_botname("plain text"), "plain text");
    assert_eq!(trim_botname("Charbot9001: other"), "Charbot9001: other");
}
