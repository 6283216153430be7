use ondevice_ai::assistant::{
    can_truncate, chat, chat_prompt, enabled_sources, plan, truncate, Message, GOAL_LIMIT,
    PIECE_DELAY_MS,
};

fn message(role: &str, content: &str) -> Message {
    Message { role: role.to_string(), content: content.to_string() }
}

fn sources(list: &[(&str, bool)]) -> Vec<(String, bool)> {
    list.iter().map(|(n, on)| (n.to_string(), *on)).collect()
}

fn steps_of(goal: &str, list: &[(&str, bool)]) -> Vec<(String, String)> {
    plan(goal, &sources(list)).steps.into_iter().map(|s| (s.step, s.action)).collect()
}

fn pair(step: &str, action: &str) -> (String, String) {
    (step.to_string(), action.to_string())
}

#[test]
fn truncate_keeps_a_text_that_fits() {
    assert_eq!(truncate("hello", 5), "hello");
    assert_eq!(truncate("hello", 120), "hello");
    assert_eq!(truncate("", 0), "");
}

#[test]
fn truncate_cuts_and_marks_a_longer_text() {
    assert_eq!(truncate("hello world", 5), "hello\u{e2}\u{20ac}\u{a6}");
    assert_eq!(truncate("hello", 0), "\u{e2}\u{20ac}\u{a6}");
}

#[test]
fn truncate_counts_bytes() {
    // é takes two bytes, so four bytes are "aé" and one more
    assert_eq!(truncate("aébc", 4), "aéb\u{e2}\u{20ac}\u{a6}");
    assert_eq!(truncate("aébc", 3), "aé\u{e2}\u{20ac}\u{a6}");
    assert_eq!(truncate("aébc", 5), "aébc");
}

#[test]
fn can_truncate_tells_where_a_cut_falls_into_a_character() {
    assert!(can_truncate("aébc", 1));
    assert!(!can_truncate("aébc", 2));
    assert!(can_truncate("aébc", 3));
    assert!(can_truncate("aébc", 5));
    assert!(can_truncate("aébc", 50));
    assert!(!can_truncate("😀😀", 3));
    assert!(can_truncate("😀😀", 4));
    assert!(can_truncate("", 0));
}

#[test]
fn chat_prompt_is_the_last_user_message() {
    let messages = vec![
        message("user", "first"),
        message("assistant", "reply"),
        message("user", "second"),
        message("assistant", "again"),
    ];
    assert_eq!(chat_prompt(&messages), "second");
}

#[test]
fn chat_prompt_greets_where_the_user_said_nothing() {
    assert_eq!(chat_prompt(&Vec::new()), "Hello! Ask me anything.");
    assert_eq!(chat_prompt(&vec![message("assistant", "hi")]), "Hello! Ask me anything.");
    assert_eq!(chat_prompt(&vec![message("User", "hi")]), "Hello! Ask me anything.");
}

#[test]
fn chat_prompt_greets_where_the_last_user_message_is_empty() {
    let messages = vec![message("user", "earlier"), message("user", "")];
    assert_eq!(chat_prompt(&messages), "Hello! Ask me anything.");
}

#[test]
fn chat_hands_the_reply_out_in_pieces() {
    let tokens = chat(&vec![message("user", "Hi there")]);
    let reply = "You said: Hi there. Here's a thoughtful, friendly response.\n\n- Clean UI\n- Smooth streaming\n- Markdown support\n\nAsk another question!";
    assert_eq!(tokens.concat(), reply);
    assert_eq!(&tokens[..8], &["You", " ", "said:", " ", "Hi", " ", "there.", " "]);
    assert_eq!(tokens.last().unwrap(), "question!");
    assert_eq!(tokens.len(), 43);
    assert_eq!(PIECE_DELAY_MS, 25);
}

#[test]
fn chat_without_messages_replies_to_the_greeting() {
    let tokens = chat(&Vec::new());
    assert!(tokens.concat().starts_with("You said: Hello! Ask me anything.. Here's"));
}

#[test]
fn enabled_sources_are_those_switched_on() {
    let on = enabled_sources(&sources(&[("email", true), ("calendar", false), ("x", true)]));
    assert_eq!(on, vec!["email", "x"]);
    assert!(enabled_sources(&Vec::new()).is_empty());
}

#[test]
fn plan_without_goal_or_sources_idles() {
    let made = plan("", &Vec::new());
    assert_eq!(made.mode, "on-device");
    assert_eq!(made.outputs, vec!["drafts", "events", "reminders"]);
    assert!(made.sources.is_empty());
    assert_eq!(made.steps.len(), 1);
    assert_eq!(made.steps[0].step, "Idle");
    assert_eq!(made.steps[0].action, "Await user goal");
}

#[test]
fn plan_with_everything_lists_the_steps_in_order() {
    let list = [("browser", true), ("messages", true), ("calendar", true), ("email", true)];
    assert_eq!(
        steps_of("Plan a weekly team sync", &list),
        vec![
            pair("Understand goal", "Parse: Plan a weekly team sync"),
            pair("Email", "Summarize inbox and draft replies"),
            pair("Calendar", "Check availability and propose slots"),
            pair("Messages", "Extract intents from latest threads"),
            pair("Browser", "Fetch relevant pages from history"),
        ]
    );
    let made = plan("Plan a weekly team sync", &sources(&list));
    assert_eq!(made.sources, vec!["browser", "messages", "calendar", "email"]);
}

#[test]
fn plan_leaves_out_sources_that_are_off_or_unknown() {
    let list = [("email", false), ("calendar", true), ("notes", true)];
    assert_eq!(
        steps_of("", &list),
        vec![pair("Calendar", "Check availability and propose slots")]
    );
    assert_eq!(plan("", &sources(&list)).sources, vec!["calendar", "notes"]);
}

#[test]
fn plan_with_only_unknown_sources_idles() {
    assert_eq!(steps_of("", &[("notes", true)]), vec![pair("Idle", "Await user goal")]);
}

#[test]
fn plan_with_a_goal_alone_has_one_step() {
    assert_eq!(steps_of("go", &[]), vec![pair("Understand goal", "Parse: go")]);
}

#[test]
fn plan_cuts_a_long_goal() {
    assert_eq!(GOAL_LIMIT, 120);
    let goal = "g".repeat(121);
    let steps = steps_of(&goal, &[]);
    assert_eq!(steps[0].1, format!("Parse: {}\u{e2}\u{20ac}\u{a6}", "g".repeat(120)));
    let goal = "g".repeat(120);
    assert_eq!(steps_of(&goal, &[])[0].1, format!("Parse: {}", goal));
}
