//! The assistant: the reply to a chat and the plan for a goal.
//!
//! A chat is answered with one fixed reply round the last thing the user
//! said, handed out piece by piece. A plan lists one step for the goal and
//! one for each known source that is switched on.

use crate::text::{pieces, same_text, split_preserve_whitespace, texts};
use vstd::prelude::*;
use vstd::string::StringExecFns;
use vstd::string::StringSliceAdditionalSpecFns;
use vstd::utf8::{
    decode_utf8, decode_utf8_encode_utf8, decode_utf8_split, encode_utf8, encode_utf8_decode_utf8,
    encode_utf8_valid_utf8, is_char_boundary, valid_utf8_split,
};

verus! {

/// One message of a chat.
#[derive(Debug)]
pub struct Message {
    pub role: String,
    pub content: String,
}

/// One step of a plan.
#[derive(Debug)]
pub struct PlanStep {
    pub step: String,
    pub action: String,
}

/// A plan.
#[derive(Debug)]
pub struct Plan {
    pub mode: String,
    pub outputs: Vec<String>,
    pub sources: Vec<String>,
    pub steps: Vec<PlanStep>,
}

/// What a step is to the contracts: its name and its action.
pub struct StepModel {
    pub step: Seq<char>,
    pub action: Seq<char>,
}

/// The time between two pieces of a reply, in milliseconds.
pub const PIECE_DELAY_MS: u64 = 25;

/// The number of bytes of a goal that a plan shows.
pub const GOAL_LIMIT: usize = 120;

/// What stands behind a text that was cut.
pub open spec fn cut_mark() -> Seq<char> {
    "\u{e2}\u{20ac}\u{a6}"@
}

/// Whether the UTF-8 form of `s` has no more than `max` bytes.
pub open spec fn fits(s: Seq<char>, max: nat) -> bool {
    encode_utf8(s).len() <= max
}

/// Whether `s` can be cut after `max` bytes of its UTF-8 form: whether a
/// character ends there.
pub open spec fn can_cut(s: Seq<char>, max: nat) -> bool {
    is_char_boundary(encode_utf8(s), max as int)
}

/// The characters that the first `max` bytes of the UTF-8 form of `s` stand
/// for.
pub open spec fn head(s: Seq<char>, max: nat) -> Seq<char> {
    decode_utf8(encode_utf8(s).take(max as int))
}

/// `s` where it fits into `max` bytes, and else its head of `max` bytes
/// with the cut mark behind it.
pub open spec fn truncated(s: Seq<char>, max: nat) -> Seq<char> {
    if fits(s, max) {
        s
    } else {
        head(s, max) + cut_mark()
    }
}

/// The content of the last message of `messages` that the user wrote, and
/// the empty text where there is none.
pub open spec fn last_user(messages: Seq<Message>) -> Seq<char>
    decreases messages.len(),
{
    if messages.len() == 0 {
        Seq::empty()
    } else if messages.last().role@ == "user"@ {
        messages.last().content@
    } else {
        last_user(messages.drop_last())
    }
}

/// What a chat is taken to ask: the last thing the user said, and a
/// greeting where the user said nothing.
pub open spec fn prompt(messages: Seq<Message>) -> Seq<char> {
    if last_user(messages).len() == 0 {
        "Hello! Ask me anything."@
    } else {
        last_user(messages)
    }
}

/// The reply to `prompt`.
pub open spec fn reply_to(prompt: Seq<char>) -> Seq<char> {
    "You said: "@ + prompt
        + ". Here's a thoughtful, friendly response.\n\n- Clean UI\n- Smooth streaming\n- Markdown support\n\nAsk another question!"@
}

/// The names of `sources` that are switched on, in their order.
pub open spec fn enabled(sources: Seq<(String, bool)>) -> Seq<Seq<char>>
    decreases sources.len(),
{
    if sources.len() == 0 {
        Seq::empty()
    } else if sources.last().1 {
        enabled(sources.drop_last()).push(sources.last().0@)
    } else {
        enabled(sources.drop_last())
    }
}

/// The step for the source `name` where it is among `on`, and no step
/// where it is not.
pub open spec fn source_step(
    on: Seq<Seq<char>>,
    name: Seq<char>,
    step: Seq<char>,
    action: Seq<char>,
) -> Seq<StepModel> {
    if on.contains(name) {
        seq![StepModel { step, action }]
    } else {
        Seq::empty()
    }
}

/// The steps for a goal and the sources that are on, before the idle step
/// is thought of: the goal first, where there is one, then mail, calendar,
/// messages and browser.
pub open spec fn work_steps(goal: Seq<char>, on: Seq<Seq<char>>) -> Seq<StepModel> {
    (if goal.len() > 0 {
        seq![
            StepModel {
                step: "Understand goal"@,
                action: "Parse: "@ + truncated(goal, GOAL_LIMIT as nat),
            },
        ]
    } else {
        Seq::empty()
    }) + source_step(on, "email"@, "Email"@, "Summarize inbox and draft replies"@) + source_step(
        on,
        "calendar"@,
        "Calendar"@,
        "Check availability and propose slots"@,
    ) + source_step(on, "messages"@, "Messages"@, "Extract intents from latest threads"@)
        + source_step(on, "browser"@, "Browser"@, "Fetch relevant pages from history"@)
}

/// The steps of the plan: the work steps, and the idle step alone where
/// there is no work.
pub open spec fn plan_steps(goal: Seq<char>, on: Seq<Seq<char>>) -> Seq<StepModel> {
    if work_steps(goal, on).len() == 0 {
        seq![StepModel { step: "Idle"@, action: "Await user goal"@ }]
    } else {
        work_steps(goal, on)
    }
}

/// What each step of `steps` holds.
pub open spec fn step_models(steps: Seq<PlanStep>) -> Seq<StepModel> {
    Seq::new(steps.len(), |i: int| StepModel { step: steps[i].step@, action: steps[i].action@ })
}

/// Where a text that can be cut does not fit, its head is the start of the
/// text, and the UTF-8 form of the head has exactly `max` bytes.
pub proof fn lemma_head_starts(s: Seq<char>, max: nat)
    requires
        !fits(s, max),
        can_cut(s, max),
    ensures
        head(s, max).is_prefix_of(s),
        encode_utf8(head(s, max)).len() == max,
{
    let bytes = encode_utf8(s);
    encode_utf8_valid_utf8(s);
    encode_utf8_decode_utf8(s);
    decode_utf8_split(bytes, max as int);
    valid_utf8_split(bytes, max as int);
    assert(bytes.subrange(0, max as int) == bytes.take(max as int));
    decode_utf8_encode_utf8(bytes.take(max as int));
    let rest = decode_utf8(bytes.subrange(max as int, bytes.len() as int));
    assert(s == head(s, max) + rest);
    assert((head(s, max) + rest).subrange(0, head(s, max).len() as int) =~= head(s, max));
}

/// Cuts `s` to `max` bytes: returns `s` where its UTF-8 form has no more
/// than `max` bytes, and else the characters of its first `max` bytes with
/// the cut mark behind them. A text that does not fit must have a character
/// that ends after `max` bytes.
pub fn truncate(s: &str, max: usize) -> (r: String)
    requires
        fits(s@, max as nat) || can_cut(s@, max as nat),
    ensures
        r@ == truncated(s@, max as nat),
{
    if s.as_bytes().len() <= max {
        String::from_str(s)
    } else {
        let (front, _) = s.split_at(max);
        proof {
            encode_utf8_decode_utf8(front@);
            assert(front.spec_bytes() == s.spec_bytes().take(max as int));
        }
        let mut r = String::from_str(front);
        r.append("\u{e2}\u{20ac}\u{a6}");
        r
    }
}

/// Tells whether `s` can be handed to `truncate` with `max`: whether it
/// fits, or a character of it ends after `max` bytes.
pub fn can_truncate(s: &str, max: usize) -> (ok: bool)
    ensures
        ok == (fits(s@, max as nat) || can_cut(s@, max as nat)),
{
    s.as_bytes().len() <= max || s.is_char_boundary(max)
}

/// The text that a chat is taken to ask.
pub fn chat_prompt(messages: &Vec<Message>) -> (text: String)
    ensures
        text@ == prompt(messages@),
{
    let mut i: usize = messages.len();
    assert(messages@.take(messages@.len() as int) =~= messages@);
    while i > 0
        invariant
            i <= messages@.len(),
            last_user(messages@) == last_user(messages@.take(i as int)),
        decreases i,
    {
        proof {
            assert(messages@.take(i as int).drop_last() =~= messages@.take(i - 1));
            assert(messages@.take(i as int).last() == messages@[i - 1]);
        }
        i -= 1;
        if same_text(messages[i].role.as_str(), "user") {
            if messages[i].content.as_str().is_empty() {
                return String::from_str("Hello! Ask me anything.");
            }
            return messages[i].content.clone();
        }
    }
    proof {
        assert(messages@.take(0) =~= Seq::<Message>::empty());
    }
    String::from_str("Hello! Ask me anything.")
}

/// Answers a chat: returns the reply to the last thing the user said, in
/// the pieces in which it is handed out, each white space character and
/// each word by itself.
pub fn chat(messages: &Vec<Message>) -> (tokens: Vec<String>)
    ensures
        texts(tokens@) == pieces(reply_to(prompt(messages@))),
{
    let asked = chat_prompt(messages);
    let mut reply = String::from_str("You said: ");
    reply.append(asked.as_str());
    reply.append(
        ". Here's a thoughtful, friendly response.\n\n- Clean UI\n- Smooth streaming\n- Markdown support\n\nAsk another question!",
    );
    split_preserve_whitespace(reply.as_str())
}

/// The names of `sources` that are switched on, in their order.
pub fn enabled_sources(sources: &Vec<(String, bool)>) -> (on: Vec<String>)
    ensures
        texts(on@) == enabled(sources@),
{
    let mut on: Vec<String> = Vec::new();
    let mut i: usize = 0;
    assert(sources@.take(0) =~= Seq::<(String, bool)>::empty());
    while i < sources.len()
        invariant
            i <= sources@.len(),
            texts(on@) == enabled(sources@.take(i as int)),
        decreases sources@.len() - i,
    {
        proof {
            assert(sources@.take(i + 1).drop_last() =~= sources@.take(i as int));
            assert(sources@.take(i + 1).last() == sources@[i as int]);
        }
        if sources[i].1 {
            let ghost held = texts(on@);
            on.push(sources[i].0.clone());
            assert(texts(on@) =~= held.push(sources@[i as int].0@));
        }
        i += 1;
    }
    assert(sources@.take(sources@.len() as int) =~= sources@);
    on
}

/// Tells whether `name` is among `on`.
fn is_on(on: &Vec<String>, name: &str) -> (found: bool)
    ensures
        found == texts(on@).contains(name@),
{
    let mut i: usize = 0;
    while i < on.len()
        invariant
            i <= on@.len(),
            forall|j: int| 0 <= j < i ==> texts(on@)[j] != name@,
        decreases on@.len() - i,
    {
        if same_text(on[i].as_str(), name) {
            assert(texts(on@)[i as int] == name@);
            return true;
        }
        i += 1;
    }
    false
}

/// Adds the step for the source `name` where it is among `on`.
fn add_source_step(
    steps: &mut Vec<PlanStep>,
    on: &Vec<String>,
    name: &str,
    step: &str,
    action: &str,
)
    ensures
        step_models(final(steps)@) == step_models(old(steps)@) + source_step(
            texts(on@),
            name@,
            step@,
            action@,
        ),
{
    let ghost held = step_models(steps@);
    if is_on(on, name) {
        steps.push(PlanStep { step: String::from_str(step), action: String::from_str(action) });
        assert(step_models(steps@) =~= held + seq![StepModel { step: step@, action: action@ }]);
    } else {
        assert(step_models(steps@) =~= held + Seq::<StepModel>::empty());
    }
}

/// Makes the plan for `goal` with the sources `sources`, each a name and
/// whether it is switched on. The plan works on the device and gives
/// drafts, events and reminders; it names the sources that are on, in
/// their order, and holds the steps of `plan_steps`. The goal is shown cut
/// to `GOAL_LIMIT` bytes, so a longer goal must have a character that ends
/// there.
pub fn plan(goal: &str, sources: &Vec<(String, bool)>) -> (plan: Plan)
    requires
        fits(goal@, GOAL_LIMIT as nat) || can_cut(goal@, GOAL_LIMIT as nat),
    ensures
        plan.mode@ == "on-device"@,
        texts(plan.outputs@) == seq!["drafts"@, "events"@, "reminders"@],
        texts(plan.sources@) == enabled(sources@),
        step_models(plan.steps@) == plan_steps(goal@, enabled(sources@)),
{
    let on = enabled_sources(sources);
    let mut steps: Vec<PlanStep> = Vec::new();
    assert(step_models(steps@) =~= Seq::<StepModel>::empty());
    if !goal.is_empty() {
        let mut action = String::from_str("Parse: ");
        let shown = truncate(goal, GOAL_LIMIT);
        action.append(shown.as_str());
        steps.push(PlanStep { step: String::from_str("Understand goal"), action });
        assert(step_models(steps@) =~= seq![
            StepModel {
                step: "Understand goal"@,
                action: "Parse: "@ + truncated(goal@, GOAL_LIMIT as nat),
            },
        ]);
    }
    add_source_step(&mut steps, &on, "email", "Email", "Summarize inbox and draft replies");
    add_source_step(
        &mut steps,
        &on,
        "calendar",
        "Calendar",
        "Check availability and propose slots",
    );
    add_source_step(&mut steps, &on, "messages", "Messages", "Extract intents from latest threads");
    add_source_step(&mut steps, &on, "browser", "Browser", "Fetch relevant pages from history");
    assert(step_models(steps@) == work_steps(goal@, enabled(sources@)));
    if steps.len() == 0 {
        steps.push(
            PlanStep {
                step: String::from_str("Idle"),
                action: String::from_str("Await user goal"),
            },
        );
        assert(step_models(steps@) =~= seq![
            StepModel { step: "Idle"@, action: "Await user goal"@ },
        ]);
    }
    let mut outputs: Vec<String> = Vec::new();
    outputs.push(String::from_str("drafts"));
    outputs.push(String::from_str("events"));
    outputs.push(String::from_str("reminders"));
    assert(texts(outputs@) =~= seq!["drafts"@, "events"@, "reminders"@]);
    Plan { mode: String::from_str("on-device"), outputs, sources: on, steps }
}

} // verus!
