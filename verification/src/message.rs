//! One stored conversation turn: its role, sender, timestamp and content,
//! the read-time image decay, and the extraction of secure-scheme URL
//! candidates from a message.

use vstd::prelude::*;
use vstd::string::{StrSliceExecFns, StringExecFns};
use crate::chars::{
    first_ascii_ws, has_prefix, is_ascii_space, is_ascii_space_char, lemma_first_ascii_ws,
    lemma_first_ascii_ws_bounds, str_has_prefix,
};

verus! {

/// Who produced a turn.
#[derive(Clone, Copy)]
pub enum Role {
    /// a room member
    User,
    /// this agent
    Agent,
    /// an operator-provided framing message
    System,
}

/// One element of a multi-part turn.
pub enum ContentPart {
    Text(String),
    /// an image reference by URL
    Image(String),
}

pub enum PartView {
    Text(Seq<char>),
    Image(Seq<char>),
}

impl View for ContentPart {
    type V = PartView;

    open spec fn view(&self) -> PartView {
        match self {
            ContentPart::Text(s) => PartView::Text(s@),
            ContentPart::Image(s) => PartView::Image(s@),
        }
    }
}

impl Clone for ContentPart {
    fn clone(&self) -> (res: Self)
        ensures
            res@ == self@,
    {
        match self {
            ContentPart::Text(s) => ContentPart::Text(s.clone()),
            ContentPart::Image(s) => ContentPart::Image(s.clone()),
        }
    }
}

/// A turn's content: plain text, or an ordered sequence of parts.
pub enum MessageContent {
    Text(String),
    Parts(Vec<ContentPart>),
}

pub enum ContentView {
    Text(Seq<char>),
    Parts(Seq<PartView>),
}

pub open spec fn parts_view(v: Seq<ContentPart>) -> Seq<PartView> {
    Seq::new(v.len(), |i: int| v[i]@)
}

impl View for MessageContent {
    type V = ContentView;

    open spec fn view(&self) -> ContentView {
        match self {
            MessageContent::Text(s) => ContentView::Text(s@),
            MessageContent::Parts(v) => ContentView::Parts(parts_view(v@)),
        }
    }
}

impl Clone for MessageContent {
    fn clone(&self) -> (res: Self)
        ensures
            res@ == self@,
    {
        match self {
            MessageContent::Text(s) => MessageContent::Text(s.clone()),
            MessageContent::Parts(v) => {
                let mut out: Vec<ContentPart> = Vec::new();
                let mut k: usize = 0;
                while k < v.len()
                    invariant
                        0 <= k <= v@.len(),
                        out@.len() == k,
                        forall|i: int| 0 <= i < k ==> out@[i]@ == v@[i]@,
                    decreases v@.len() - k,
                {
                    out.push(v[k].clone());
                    k += 1;
                }
                proof {
                    assert(parts_view(out@) =~= parts_view(v@));
                }
                MessageContent::Parts(out)
            },
        }
    }
}

/// One stored conversation turn.
pub struct ChatMessageThing {
    /// when this turn was created, in seconds of the store's clock
    pub date: i64,
    pub role: Role,
    /// the sender's name, for room-member turns
    pub name: Option<String>,
    /// `None` models an agent reply step that carried no text
    pub content: Option<MessageContent>,
}

pub struct MsgView {
    pub date: int,
    pub role: Role,
    pub name: Option<Seq<char>>,
    pub content: Option<ContentView>,
}

pub open spec fn opt_text_view(v: Option<String>) -> Option<Seq<char>> {
    match v {
        Option::None => Option::None,
        Option::Some(s) => Option::Some(s@),
    }
}

pub open spec fn opt_content_view(v: Option<MessageContent>) -> Option<ContentView> {
    match v {
        Option::None => Option::None,
        Option::Some(c) => Option::Some(c@),
    }
}

impl View for ChatMessageThing {
    type V = MsgView;

    open spec fn view(&self) -> MsgView {
        MsgView {
            date: self.date as int,
            role: self.role,
            name: opt_text_view(self.name),
            content: opt_content_view(self.content),
        }
    }
}

impl Clone for ChatMessageThing {
    fn clone(&self) -> (res: Self)
        ensures
            res@ == self@,
    {
        ChatMessageThing {
            date: self.date,
            role: self.role,
            name: match &self.name {
                Option::Some(s) => Option::Some(s.clone()),
                Option::None => Option::None,
            },
            content: match &self.content {
                Option::Some(c) => Option::Some(c.clone()),
                Option::None => Option::None,
            },
        }
    }
}

/// How long a turn may carry its image parts when read back: one hour.
pub open spec fn decay_secs() -> int {
    3600
}

/// The text parts of a part sequence, in order.
pub open spec fn text_parts(ps: Seq<PartView>) -> Seq<PartView>
    decreases ps.len(),
{
    if ps.len() == 0 {
        Seq::<PartView>::empty()
    } else {
        text_parts(ps.drop_last()) + (if ps.last() is Text {
            seq![ps.last()]
        } else {
            Seq::<PartView>::empty()
        })
    }
}

/// What a turn looks like when read at time `now`: older than an hour and
/// multi-part, its image parts are dropped; otherwise it is unchanged.
pub open spec fn for_api_view(m: MsgView, now: int) -> MsgView {
    if now - m.date <= decay_secs() {
        m
    } else {
        match m.content {
            Option::Some(ContentView::Parts(ps)) => MsgView {
                content: Option::Some(ContentView::Parts(text_parts(ps))),
                ..m
            },
            _ => m,
        }
    }
}

/// Image-part decay: a turn read within an hour of its creation is returned
/// unchanged, whatever its form; read later, a multi-part turn keeps exactly
/// its text parts, in order, and everything else about it is unchanged.
pub proof fn lemma_image_decay(m: MsgView, now: int)
    ensures
        now - m.date <= decay_secs() ==> for_api_view(m, now) == m,
        now - m.date > decay_secs() ==> (m.content matches Option::Some(ContentView::Parts(ps))
            ==> for_api_view(m, now) == (MsgView {
            content: Option::Some(ContentView::Parts(text_parts(ps))),
            ..m
        })),
        now - m.date > decay_secs() ==> (!(m.content matches Option::Some(ContentView::Parts(_)))
            ==> for_api_view(m, now) == m),
{
}

impl ChatMessageThing {
    /// A turn stamped with the given creation time.
    pub fn new_now(role: Role, name: Option<String>, content: Option<MessageContent>, now: i64) -> (r:
        ChatMessageThing)
        ensures
            r@ == (MsgView {
                date: now as int,
                role,
                name: opt_text_view(name),
                content: opt_content_view(content),
            }),
    {
        ChatMessageThing { date: now, role, name, content }
    }

    /// The turn as sent to the completion service at time `now`: image
    /// parts older than an hour are dropped from the copy, never from the
    /// stored turn.
    pub fn get_for_api(&self, now: i64) -> (r: ChatMessageThing)
        requires
            self@.date >= 0,
            now >= 0,
        ensures
            r@ == for_api_view(self@, now as int),
    {
        if now - self.date <= 3600 {
            return self.clone();
        }
        match &self.content {
            Option::Some(MessageContent::Parts(v)) => {
                let mut out: Vec<ContentPart> = Vec::new();
                let mut k: usize = 0;
                while k < v.len()
                    invariant
                        0 <= k <= v@.len(),
                        parts_view(out@) == text_parts(parts_view(v@).take(k as int)),
                    decreases v@.len() - k,
                {
                    let ghost pre = parts_view(v@).take(k as int);
                    let keep = match &v[k] {
                        ContentPart::Text(_) => true,
                        ContentPart::Image(_) => false,
                    };
                    if keep {
                        out.push(v[k].clone());
                    }
                    k += 1;
                    proof {
                        let cur = parts_view(v@).take(k as int);
                        assert(cur.drop_last() =~= pre);
                        assert(cur.last() == v@[k - 1]@);
                        if keep {
                            assert(parts_view(out@) =~= text_parts(pre) + seq![v@[k - 1]@]);
                        } else {
                            assert(parts_view(out@) =~= text_parts(pre));
                        }
                    }
                }
                proof {
                    assert(parts_view(v@).take(v@.len() as int) =~= parts_view(v@));
                }
                ChatMessageThing {
                    date: self.date,
                    role: self.role,
                    name: match &self.name {
                        Option::Some(s) => Option::Some(s.clone()),
                        Option::None => Option::None,
                    },
                    content: Option::Some(MessageContent::Parts(out)),
                }
            },
            _ => self.clone(),
        }
    }

    /// The first displayable text of this turn, if any: plain text itself,
    /// or the first text part of a multi-part turn.
    pub fn get_as_irc_format(&self) -> (r: Option<&str>)
        ensures
            opt_str_seq(r) == irc_format_view(self@),
    {
        match &self.content {
            Option::None => Option::None,
            Option::Some(MessageContent::Text(s)) => Option::Some(s.as_str()),
            Option::Some(MessageContent::Parts(v)) => {
                let mut k: usize = 0;
                proof {
                    assert(parts_view(v@).skip(0) =~= parts_view(v@));
                }
                while k < v.len()
                    invariant
                        0 <= k <= v@.len(),
                        self@.content == Option::Some(ContentView::Parts(parts_view(v@))),
                        first_text_part(parts_view(v@)) == first_text_part(
                            parts_view(v@).skip(k as int),
                        ),
                    decreases v@.len() - k,
                {
                    let ghost rest = parts_view(v@).skip(k as int);
                    match &v[k] {
                        ContentPart::Text(s) => {
                            proof {
                                assert(rest.len() > 0);
                                assert(rest[0] == v@[k as int]@);
                                assert(v@[k as int]@ == PartView::Text(s@));
                                assert(first_text_part(rest) == Option::Some(s@));
                                assert(irc_format_view(self@) == first_text_part(parts_view(v@)));
                            }
                            return Option::Some(s.as_str());
                        },
                        ContentPart::Image(_) => {
                            proof {
                                assert(rest[0] == v@[k as int]@);
                                assert(rest.drop_first() =~= parts_view(v@).skip(k + 1));
                            }
                        },
                    }
                    k += 1;
                }
                proof {
                    assert(parts_view(v@).skip(v@.len() as int).len() == 0);
                }
                Option::None
            },
        }
    }
}

pub open spec fn opt_str_seq(r: Option<&str>) -> Option<Seq<char>> {
    match r {
        Option::None => Option::None,
        Option::Some(s) => Option::Some(s@),
    }
}

/// The first text part of a part sequence.
pub open spec fn first_text_part(ps: Seq<PartView>) -> Option<Seq<char>>
    decreases ps.len(),
{
    if ps.len() == 0 {
        Option::None
    } else {
        match ps[0] {
            PartView::Text(s) => Option::Some(s),
            PartView::Image(_) => first_text_part(ps.drop_first()),
        }
    }
}

/// The displayable text of a turn: its plain text, or the first text part
/// of a multi-part turn, or nothing.
pub open spec fn irc_format_view(m: MsgView) -> Option<Seq<char>> {
    match m.content {
        Option::None => Option::None,
        Option::Some(ContentView::Text(s)) => Option::Some(s),
        Option::Some(ContentView::Parts(ps)) => first_text_part(ps),
    }
}

pub open spec fn strings_view(v: Seq<String>) -> Seq<Seq<char>> {
    Seq::new(v.len(), |i: int| v[i]@)
}

pub proof fn lemma_strings_view_push(v: Seq<String>, s: String)
    ensures
        strings_view(v.push(s)) == strings_view(v).push(s@),
{
    assert forall|q: int| 0 <= q < v.len() + 1 implies strings_view(v.push(s))[q] == strings_view(
        v,
    ).push(s@)[q] by {
        if q < v.len() {
            assert(v.push(s)[q] == v[q]);
            assert(strings_view(v)[q] == v[q]@);
        }
    }
    assert(strings_view(v.push(s)) =~= strings_view(v).push(s@));
}

/// The whitespace-delimited tokens of `s` that look like secure-scheme
/// URLs, in order.
pub open spec fn url_candidates(s: Seq<char>) -> Seq<Seq<char>>
    decreases s.len(),
    via url_candidates_dec
{
    if s.len() == 0 {
        Seq::<Seq<char>>::empty()
    } else if is_ascii_space(s[0]) {
        url_candidates(s.drop_first())
    } else {
        let e = first_ascii_ws(s);
        let tok = s.take(e);
        let rest = url_candidates(s.skip(e));
        if has_prefix(tok, "https://"@) {
            seq![tok] + rest
        } else {
            rest
        }
    }
}

#[via_fn]
proof fn url_candidates_dec(s: Seq<char>) {
    if s.len() > 0 && !is_ascii_space(s[0]) {
        lemma_first_ascii_ws_bounds(s);
    }
}

/// The whitespace-delimited tokens of the message that look like
/// secure-scheme URLs; a best-effort content-type probe (an outside
/// collaborator) decides which of them become image parts.
pub fn extract_image_urls(message: &str) -> (r: Vec<String>)
    ensures
        strings_view(r@) == url_candidates(message@),
{
    let n = message.unicode_len();
    let mut out: Vec<String> = Vec::new();
    let mut p: usize = 0;
    proof {
        assert(message@.skip(0) =~= message@);
        assert(strings_view(out@) + url_candidates(message@) =~= url_candidates(message@));
    }
    loop
        invariant_except_break
            0 <= p <= n,
            n == message@.len(),
            url_candidates(message@) == strings_view(out@) + url_candidates(message@.skip(p as int)),
        ensures
            strings_view(out@) == url_candidates(message@),
        decreases n - p,
    {
        if p == n {
            proof {
                assert(message@.skip(p as int).len() == 0);
                assert(strings_view(out@) + url_candidates(message@.skip(p as int)) =~= strings_view(
                    out@,
                ));
            }
            break;
        }
        let ghost rest = message@.skip(p as int);
        proof {
            assert(forall|k: int| 0 <= k < rest.len() ==> rest[k] == message@[p + k]);
        }
        let c = message.get_char(p);
        if is_ascii_space_char(c) {
            proof {
                assert(rest.drop_first() =~= message@.skip(p + 1));
            }
            p += 1;
        } else {
            let mut e: usize = p;
            while e < n && !is_ascii_space_char(message.get_char(e))
                invariant
                    p <= e <= n,
                    n == message@.len(),
                    forall|k: int| p <= k < e ==> !is_ascii_space(message@[k]),
                decreases n - e,
            {
                e += 1;
            }
            proof {
                lemma_first_ascii_ws(rest, e - p);
            }
            let tok = message.substring_char(p, e);
            proof {
                assert(tok@ =~= rest.take(e - p));
                assert(rest.skip(e - p) =~= message@.skip(e as int));
            }
            if str_has_prefix(tok, "https://") {
                let ghost pre = out@;
                out.push(tok.to_owned());
                proof {
                    assert(strings_view(out@) =~= strings_view(pre) + seq![tok@]);
                    assert(strings_view(pre) + (seq![tok@] + url_candidates(message@.skip(e as int)))
                        =~= (strings_view(pre) + seq![tok@]) + url_candidates(
                        message@.skip(e as int),
                    ));
                }
            }
            p = e;
        }
    }
    out
}

/// A content type that makes a probed URL an image reference.
pub fn is_image_content_type(ct: &str) -> (r: bool)
    ensures
        r == has_prefix(ct@, "image/"@),
{
    str_has_prefix(ct, "image/")
}

/// The text a room-member turn carries: the sender in angle brackets, then
/// the message.
pub open spec fn user_text(sender: Seq<char>, message: Seq<char>) -> Seq<char> {
    seq!['<'] + sender + seq!['>', ' '] + message
}

pub open spec fn image_parts(urls: Seq<Seq<char>>) -> Seq<PartView> {
    Seq::new(urls.len(), |i: int| PartView::Image(urls[i]))
}

/// The turn stored for a room-member message: plain text when the message
/// holds no URL candidates at all; otherwise the text plus one image part
/// for each URL the probe confirmed.
pub open spec fn user_turn_view(
    sender: Seq<char>,
    message: Seq<char>,
    images: Seq<Seq<char>>,
    now: int,
) -> MsgView {
    let text = user_text(sender, message);
    let content = if url_candidates(message).len() == 0 {
        ContentView::Text(text)
    } else {
        ContentView::Parts(seq![PartView::Text(text)] + image_parts(images))
    };
    MsgView { date: now, role: Role::User, name: Option::Some(sender), content: Option::Some(content) }
}

/// Builds the room-member turn for a message; `image_urls` are the URL
/// candidates that the caller's content-type probe reported as images.
pub fn build_user_turn(sender: &str, message: &str, image_urls: &Vec<String>, now: i64) -> (r:
    ChatMessageThing)
    ensures
        r@ == user_turn_view(sender@, message@, strings_view(image_urls@), now as int),
{
    let mut text = String::new();
    text.append("<");
    text.append(sender);
    text.append("> ");
    text.append(message);
    proof {
        reveal_strlit("<");
        reveal_strlit("> ");
        assert("<"@ =~= seq!['<']);
        assert("> "@ =~= seq!['>', ' ']);
        assert(text@ =~= user_text(sender@, message@));
    }
    let candidates = extract_image_urls(message);
    if candidates.len() == 0 {
        proof {
            assert(url_candidates(message@).len() == 0);
        }
        ChatMessageThing {
            date: now,
            role: Role::User,
            name: Option::Some(sender.to_owned()),
            content: Option::Some(MessageContent::Text(text)),
        }
    } else {
        let mut parts: Vec<ContentPart> = Vec::new();
        let ghost text_view = text@;
        parts.push(ContentPart::Text(text));
        let mut k: usize = 0;
        proof {
            assert(parts_view(parts@) =~= seq![PartView::Text(text_view)] + image_parts(
                strings_view(image_urls@).take(0),
            ));
        }
        while k < image_urls.len()
            invariant
                0 <= k <= image_urls@.len(),
                parts@.len() == k + 1,
                parts_view(parts@) == seq![PartView::Text(text_view)] + image_parts(
                    strings_view(image_urls@).take(k as int),
                ),
            decreases image_urls@.len() - k,
        {
            let ghost pre = parts@;
            parts.push(ContentPart::Image(image_urls[k].clone()));
            k += 1;
            proof {
                let svs = strings_view(image_urls@);
                let lhs = parts_view(parts@);
                let rhs = seq![PartView::Text(text_view)] + image_parts(svs.take(k as int));
                assert(lhs.len() == rhs.len());
                assert forall|i: int| 0 <= i < lhs.len() implies lhs[i] == rhs[i] by {
                    if i < k {
                        assert(parts@[i] == pre[i]);
                        assert(lhs[i] == parts_view(pre)[i]);
                        if i > 0 {
                            assert(parts_view(pre)[i] == image_parts(svs.take(k - 1))[i - 1]);
                            assert(image_parts(svs.take(k - 1))[i - 1] == PartView::Image(svs[i - 1]));
                            assert(rhs[i] == PartView::Image(svs[i - 1]));
                        }
                    } else {
                        assert(lhs[i] == parts@[i]@);
                        assert(rhs[i] == PartView::Image(svs[k - 1]));
                        assert(svs[k - 1] == image_urls@[k - 1]@);
                    }
                }
                assert(lhs =~= rhs);
            }
        }
        proof {
            assert(strings_view(image_urls@).take(image_urls@.len() as int) =~= strings_view(
                image_urls@,
            ));
            assert(url_candidates(message@).len() != 0);
        }
        ChatMessageThing {
            date: now,
            role: Role::User,
            name: Option::Some(sender.to_owned()),
            content: Option::Some(MessageContent::Parts(parts)),
        }
    }
}

} // verus!
