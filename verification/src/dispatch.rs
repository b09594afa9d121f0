//! The dispatch coordinator's decisions: what one incoming chat line means
//! (administrative command, chat directive, passive capture, or nothing),
//! which turns go to the completion service, and how a finished completion
//! is recorded and routed.  The caller performs the I/O each decision names.

use vstd::prelude::*;
use vstd::string::{StrSliceExecFns, StringExecFns};
use crate::chars::{
    contains_str, eq_str, first_char, has_prefix, has_substring, lemma_first_char, str_has_prefix,
    trim_seq, trim_str,
};
use crate::instruction::{
    get_chat_instruction, is_trigger, parse_view, ChatInstruction, InstructionView,
};
use crate::message::{build_user_turn, strings_view, user_turn_view, ChatMessageThing, MsgView};
use crate::store::{
    completion_turns, completion_views, evict_old, msgs_view, or_empty, read_view,
    CompletionMessage, MessageMap,
};
use crate::temp::{parse_temp, parse_temp_spec};

verus! {

/// What the dispatch loop should do with one incoming line.
pub enum DispatchAction {
    /// nothing: an ignored sender, an unmatched line, or a malformed
    /// service command
    Ignore,
    /// stop consuming events after a farewell
    Quit,
    Join(String),
    Part(String),
    Echo(String),
    /// store this as the new process-wide temperature (thousandths)
    SetTemp(u32),
    /// the temperature could not be read; report the failure
    SetTempInvalid,
    GetTemp,
    Tts(String),
    Translate { url: String, prompt: Option<String> },
    Transcribe { url: String, prompt: Option<String> },
    /// a chat directive: run the completion flow
    Chat(ChatInstruction),
    Image(String),
    ClearContext,
    /// store the line as passive context for an opted-in sender
    Capture,
}

pub enum ActionView {
    Ignore,
    Quit,
    Join(Seq<char>),
    Part(Seq<char>),
    Echo(Seq<char>),
    SetTemp(u32),
    SetTempInvalid,
    GetTemp,
    Tts(Seq<char>),
    Translate { url: Seq<char>, prompt: Option<Seq<char>> },
    Transcribe { url: Seq<char>, prompt: Option<Seq<char>> },
    Chat(InstructionView),
    Image(Seq<char>),
    ClearContext,
    Capture,
}

pub open spec fn opt_view(v: Option<String>) -> Option<Seq<char>> {
    match v {
        Option::None => Option::None,
        Option::Some(s) => Option::Some(s@),
    }
}

impl View for DispatchAction {
    type V = ActionView;

    open spec fn view(&self) -> ActionView {
        match self {
            DispatchAction::Ignore => ActionView::Ignore,
            DispatchAction::Quit => ActionView::Quit,
            DispatchAction::Join(s) => ActionView::Join(s@),
            DispatchAction::Part(s) => ActionView::Part(s@),
            DispatchAction::Echo(s) => ActionView::Echo(s@),
            DispatchAction::SetTemp(t) => ActionView::SetTemp(*t),
            DispatchAction::SetTempInvalid => ActionView::SetTempInvalid,
            DispatchAction::GetTemp => ActionView::GetTemp,
            DispatchAction::Tts(s) => ActionView::Tts(s@),
            DispatchAction::Translate { url, prompt } => ActionView::Translate {
                url: url@,
                prompt: opt_view(*prompt),
            },
            DispatchAction::Transcribe { url, prompt } => ActionView::Transcribe {
                url: url@,
                prompt: opt_view(*prompt),
            },
            DispatchAction::Chat(i) => ActionView::Chat(i@),
            DispatchAction::Image(s) => ActionView::Image(s@),
            DispatchAction::ClearContext => ActionView::ClearContext,
            DispatchAction::Capture => ActionView::Capture,
        }
    }
}

/// Senders never listened to, to keep robots from talking to each other.
pub open spec fn is_ignored_bot(nick: Seq<char>) -> bool {
    nick == "EmceeOverviewer"@ || nick == "box-bot"@ || nick == "GizmoBot"@
}

/// The operator, who alone may steer the process.
pub open spec fn is_owner(nick: Seq<char>) -> bool {
    nick == "achin"@
}

/// Senders who opted in to passive context capture of all their messages.
pub open spec fn is_opt_in(nick: Seq<char>) -> bool {
    nick == "achin"@ || nick == "aheadley"@ || nick == "Tunabrain"@ || nick == "agrif"@ || nick
        == "CounterPillow"@ || nick == "GizmoBot"@
}

/// A line that is no command: captured only on a broadcast channel from an
/// opted-in sender.
pub open spec fn capture_spec(nick: Seq<char>, target: Seq<char>) -> ActionView {
    if target.len() > 0 && target[0] == '#' && is_opt_in(nick) {
        ActionView::Capture
    } else {
        ActionView::Ignore
    }
}

/// A media command's argument: the first token must be a secure-scheme URL,
/// the rest is an optional prompt; anything else does nothing.
pub open spec fn media_args(rest: Seq<char>) -> Option<(Seq<char>, Option<Seq<char>>)> {
    let sp = first_char(rest, ' ');
    let url = rest.take(sp);
    let prompt = if sp < rest.len() {
        Option::Some(rest.skip(sp + 1))
    } else {
        Option::None
    };
    if has_prefix(url, "https://"@) {
        Option::Some((url, prompt))
    } else {
        Option::None
    }
}

/// The decision for one line, in the fixed precedence order: ignored
/// senders first, then the operator's process commands, the administrative
/// commands (which short-circuit and never touch the context store), the
/// chat-directive forms, and last the passive-capture rule.
pub open spec fn classify_spec(
    nick: Seq<char>,
    target: Seq<char>,
    msg: Seq<char>,
    has_reply_target: bool,
    dt: u32,
) -> ActionView {
    if is_ignored_bot(nick) {
        ActionView::Ignore
    } else if !has_reply_target {
        capture_spec(nick, target)
    } else if is_owner(nick) && (has_substring(msg, "go quit"@) || has_prefix(msg, "!quit"@)) {
        ActionView::Quit
    } else if is_owner(nick) && has_prefix(msg, "!join "@) {
        ActionView::Join(trim_seq(msg.skip("!join "@.len() as int)))
    } else if is_owner(nick) && has_prefix(msg, "!part "@) {
        ActionView::Part(trim_seq(msg.skip("!part "@.len() as int)))
    } else if has_prefix(msg, "!echo "@) {
        ActionView::Echo(trim_seq(msg.skip("!echo "@.len() as int)))
    } else if has_prefix(msg, "!set_temp "@) {
        match parse_temp_spec(msg.skip("!set_temp "@.len() as int)) {
            Option::Some(t) => ActionView::SetTemp(t),
            Option::None => ActionView::SetTempInvalid,
        }
    } else if has_prefix(msg, "!get_temp"@) {
        ActionView::GetTemp
    } else if has_prefix(msg, "!tts "@) {
        ActionView::Tts(msg.skip("!tts "@.len() as int))
    } else if has_prefix(msg, "!translate "@) {
        match media_args(msg.skip("!translate "@.len() as int)) {
            Option::Some((url, prompt)) => ActionView::Translate { url, prompt },
            Option::None => ActionView::Ignore,
        }
    } else if has_prefix(msg, "!transcribe "@) {
        match media_args(msg.skip("!transcribe "@.len() as int)) {
            Option::Some((url, prompt)) => ActionView::Transcribe { url, prompt },
            Option::None => ActionView::Ignore,
        }
    } else if is_trigger(msg) {
        ActionView::Chat(parse_view(msg, dt).unwrap())
    } else if has_prefix(msg, "!img "@) {
        ActionView::Image(msg.skip("!img "@.len() as int))
    } else if has_prefix(msg, "!clearctx"@) {
        ActionView::ClearContext
    } else {
        capture_spec(nick, target)
    }
}

/// Splits a media command's argument into its URL and optional prompt.
fn media_args_exec(rest: &str) -> (r: Option<(String, Option<String>)>)
    ensures
        match r {
            Option::Some((url, prompt)) => media_args(rest@) == Option::Some(
                (url@, opt_view(prompt)),
            ),
            Option::None => media_args(rest@) is None,
        },
{
    let n = rest.unicode_len();
    let mut sp: usize = 0;
    while sp < n && rest.get_char(sp) != ' '
        invariant
            0 <= sp <= n,
            n == rest@.len(),
            forall|k: int| 0 <= k < sp ==> rest@[k] != ' ',
        decreases n - sp,
    {
        sp += 1;
    }
    proof {
        lemma_first_char(rest@, ' ', sp as int);
    }
    let url = rest.substring_char(0, sp);
    proof {
        assert(url@ =~= rest@.take(sp as int));
    }
    if str_has_prefix(url, "https://") {
        let prompt: Option<String> = if sp < n {
            let p = rest.substring_char(sp + 1, n);
            proof {
                assert(p@ =~= rest@.skip(sp + 1));
            }
            Option::Some(p.to_owned())
        } else {
            Option::None
        };
        Option::Some((url.to_owned(), prompt))
    } else {
        Option::None
    }
}

/// Decides what one incoming line means.  `has_reply_target` says whether
/// the transport offers anywhere to answer; without one only passive
/// capture can apply.  `default_temp` is the current process-wide
/// temperature in thousandths.
pub fn classify_line(
    source_nick: &str,
    target: &str,
    msg: &str,
    has_reply_target: bool,
    default_temp: u32,
) -> (r: DispatchAction)
    ensures
        r@ == classify_spec(source_nick@, target@, msg@, has_reply_target, default_temp),
{
    let n = msg.unicode_len();
    if eq_str(source_nick, "EmceeOverviewer") || eq_str(source_nick, "box-bot") || eq_str(
        source_nick,
        "GizmoBot",
    ) {
        return DispatchAction::Ignore;
    }
    if !has_reply_target {
        return capture_exec(source_nick, target);
    }
    let owner = eq_str(source_nick, "achin");
    if owner && (contains_str(msg, "go quit") || str_has_prefix(msg, "!quit")) {
        return DispatchAction::Quit;
    }
    if owner && str_has_prefix(msg, "!join ") {
        let rest = msg.substring_char("!join ".unicode_len(), n);
        proof {
            assert(rest@ =~= msg@.skip("!join "@.len() as int));
        }
        return DispatchAction::Join(trim_str(rest).to_owned());
    }
    if owner && str_has_prefix(msg, "!part ") {
        let rest = msg.substring_char("!part ".unicode_len(), n);
        proof {
            assert(rest@ =~= msg@.skip("!part "@.len() as int));
        }
        return DispatchAction::Part(trim_str(rest).to_owned());
    }
    if str_has_prefix(msg, "!echo ") {
        let rest = msg.substring_char("!echo ".unicode_len(), n);
        proof {
            assert(rest@ =~= msg@.skip("!echo "@.len() as int));
        }
        return DispatchAction::Echo(trim_str(rest).to_owned());
    }
    if str_has_prefix(msg, "!set_temp ") {
        let rest = msg.substring_char("!set_temp ".unicode_len(), n);
        proof {
            assert(rest@ =~= msg@.skip("!set_temp "@.len() as int));
        }
        return match parse_temp(rest) {
            Option::Some(t) => DispatchAction::SetTemp(t),
            Option::None => DispatchAction::SetTempInvalid,
        };
    }
    if str_has_prefix(msg, "!get_temp") {
        return DispatchAction::GetTemp;
    }
    if str_has_prefix(msg, "!tts ") {
        let rest = msg.substring_char("!tts ".unicode_len(), n);
        proof {
            assert(rest@ =~= msg@.skip("!tts "@.len() as int));
        }
        return DispatchAction::Tts(rest.to_owned());
    }
    if str_has_prefix(msg, "!translate ") {
        let rest = msg.substring_char("!translate ".unicode_len(), n);
        proof {
            assert(rest@ =~= msg@.skip("!translate "@.len() as int));
        }
        return match media_args_exec(rest) {
            Option::Some((url, prompt)) => DispatchAction::Translate { url, prompt },
            Option::None => DispatchAction::Ignore,
        };
    }
    if str_has_prefix(msg, "!transcribe ") {
        let rest = msg.substring_char("!transcribe ".unicode_len(), n);
        proof {
            assert(rest@ =~= msg@.skip("!transcribe "@.len() as int));
        }
        return match media_args_exec(rest) {
            Option::Some((url, prompt)) => DispatchAction::Transcribe { url, prompt },
            Option::None => DispatchAction::Ignore,
        };
    }
    match get_chat_instruction(msg, default_temp) {
        Option::Some(inst) => {
            return DispatchAction::Chat(inst);
        },
        Option::None => {},
    }
    if str_has_prefix(msg, "!img ") {
        let rest = msg.substring_char("!img ".unicode_len(), n);
        proof {
            assert(rest@ =~= msg@.skip("!img "@.len() as int));
        }
        return DispatchAction::Image(rest.to_owned());
    }
    if str_has_prefix(msg, "!clearctx") {
        return DispatchAction::ClearContext;
    }
    capture_exec(source_nick, target)
}

fn capture_exec(source_nick: &str, target: &str) -> (r: DispatchAction)
    ensures
        r@ == capture_spec(source_nick@, target@),
{
    let broadcast_channel = target.unicode_len() > 0 && target.get_char(0) == '#';
    if broadcast_channel && (eq_str(source_nick, "achin") || eq_str(source_nick, "aheadley")
        || eq_str(source_nick, "Tunabrain") || eq_str(source_nick, "agrif") || eq_str(
        source_nick,
        "CounterPillow",
    ) || eq_str(source_nick, "GizmoBot")) {
        DispatchAction::Capture
    } else {
        DispatchAction::Ignore
    }
}

/// The turns to send for one chat directive.  A persisted directive with a
/// non-empty message is stored first (as its trimmed text); the context flag
/// picks the whole decayed log or only the newest turn; a directive that is
/// not persisted has its own message appended as an extra synthetic turn so
/// it is not lost.
pub fn prepare_chat_request(
    store: &mut MessageMap,
    channel: &str,
    sender: &str,
    inst: &ChatInstruction,
    image_urls: &Vec<String>,
    now: i64,
) -> (r: Vec<ChatMessageThing>)
    requires
        old(store).wf(),
        now >= 0,
        old(store).accepts_at(channel@, now as int),
    ensures
        final(store).wf(),
        ({
            let inserted = inst@.save && trim_seq(inst@.msg).len() != 0;
            let newlog = if inserted {
                Option::Some(
                    evict_old(
                        or_empty(old(store).spec_log(channel@)).push(
                            user_turn_view(
                                sender@,
                                trim_seq(inst@.msg),
                                strings_view(image_urls@),
                                now as int,
                            ),
                        ),
                        now as int,
                    ),
                )
            } else {
                old(store).spec_log(channel@)
            };
            final(store).spec_log(channel@) == newlog && (forall|c: Seq<char>|
                c != channel@ ==> final(store).spec_log(c) == old(store).spec_log(c))
                && msgs_view(r@) == read_view(newlog, inst@.context, now as int) + (if inst@.save {
                Seq::<MsgView>::empty()
            } else {
                seq![
                    user_turn_view(sender@, inst@.msg, strings_view(image_urls@), now as int),
                ]
            })
        }),
{
    if inst.save {
        let tm = trim_str(inst.msg.as_str());
        if tm.unicode_len() != 0 {
            store.insert_usermsg(channel, sender, tm, image_urls, now);
        }
    }
    let mut for_chat = store.get_chat_messages(channel, inst.context, now);
    if !inst.save {
        let ghost pre = for_chat@;
        let t = build_user_turn(sender, inst.msg.as_str(), image_urls, now);
        for_chat.push(t);
        proof {
            crate::store::lemma_msgs_view_push(pre, for_chat@.last());
            assert(for_chat@.drop_last() =~= pre);
            assert(msgs_view(pre).push(for_chat@.last()@) =~= msgs_view(pre) + seq![
                user_turn_view(sender@, inst@.msg, strings_view(image_urls@), now as int),
            ]);
        }
    } else {
        proof {
            assert(msgs_view(for_chat@) + Seq::<MsgView>::empty() =~= msgs_view(for_chat@));
        }
    }
    for_chat
}


/// Where one finished reply goes.
pub enum ReplyRoute {
    /// upload the text and answer with the link
    Upload(String),
    /// synthesise the text and answer with the audio link
    Audio(String),
    /// send the text as chat lines, within the reply budget
    Lines(String),
    /// the response carried no text: say nothing
    Nothing,
}

pub enum RouteView {
    Upload(Seq<char>),
    Audio(Seq<char>),
    Lines(Seq<char>),
    Nothing,
}

impl View for ReplyRoute {
    type V = RouteView;

    open spec fn view(&self) -> RouteView {
        match self {
            ReplyRoute::Upload(s) => RouteView::Upload(s@),
            ReplyRoute::Audio(s) => RouteView::Audio(s@),
            ReplyRoute::Lines(s) => RouteView::Lines(s@),
            ReplyRoute::Nothing => RouteView::Nothing,
        }
    }
}

/// The last reply step's text, if any.
pub open spec fn last_text(ms: Seq<crate::store::CompletionView>) -> Option<Seq<char>> {
    if ms.len() == 0 {
        Option::None
    } else {
        ms.last().text
    }
}

/// How a reply is routed: an uploaded link when `pasteOnly` is set, audio
/// when the audio flag is set, chat lines otherwise.
pub open spec fn route_spec(i: InstructionView, t: Option<Seq<char>>) -> RouteView {
    match t {
        Option::None => RouteView::Nothing,
        Option::Some(text) => {
            if i.pastebin {
                RouteView::Upload(text)
            } else if i.tts {
                RouteView::Audio(text)
            } else {
                RouteView::Lines(text)
            }
        },
    }
}

/// Records a finished completion (when the directive persists context) and
/// says where its final text goes.
pub fn handle_completion(
    store: &mut MessageMap,
    channel: &str,
    inst: &ChatInstruction,
    resp: &Vec<CompletionMessage>,
    now: i64,
) -> (r: ReplyRoute)
    requires
        old(store).wf(),
        now >= 0,
        old(store).accepts_at(channel@, now as int),
    ensures
        final(store).wf(),
        inst@.save ==> final(store).spec_log(channel@) == Option::Some(
            evict_old(
                or_empty(old(store).spec_log(channel@)) + completion_turns(
                    completion_views(resp@),
                    now as int,
                ),
                now as int,
            ),
        ),
        !inst@.save ==> *final(store) == *old(store),
        forall|c: Seq<char>| c != channel@ ==> final(store).spec_log(c) == old(store).spec_log(c),
        r@ == route_spec(inst@, last_text(completion_views(resp@))),
{
    if inst.save {
        store.insert_selfmsg(channel, resp, now);
    }
    if resp.len() == 0 {
        proof {
            assert(completion_views(resp@).len() == 0);
        }
        return ReplyRoute::Nothing;
    }
    let last = resp.len() - 1;
    proof {
        assert(completion_views(resp@).last() == resp@[last as int]@);
    }
    match &resp[last].text {
        Option::None => ReplyRoute::Nothing,
        Option::Some(t) => {
            if inst.pastebin {
                ReplyRoute::Upload(t.clone())
            } else if inst.tts {
                ReplyRoute::Audio(t.clone())
            } else {
                ReplyRoute::Lines(t.clone())
            }
        },
    }
}

} // verus!
