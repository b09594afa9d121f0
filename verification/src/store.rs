//! The per-channel conversation-context store: an ordered, time-decaying log
//! of turns for each channel, with age-based eviction from the front and an
//! explicit clear.  The store performs no I/O anywhere; the caller holds it
//! behind its own lock and persists snapshots outside any critical section.

use vstd::prelude::*;
use crate::chars::eq_str;
use crate::message::{for_api_view, ChatMessageThing, ContentView, MessageContent, MsgView, Role};

verus! {

/// Turns are evicted once older than this: 48 hours.
pub open spec fn evict_secs() -> int {
    172800
}

pub open spec fn msgs_view(v: Seq<ChatMessageThing>) -> Seq<MsgView> {
    Seq::new(v.len(), |i: int| v[i]@)
}

pub proof fn lemma_msgs_view_push(v: Seq<ChatMessageThing>, t: ChatMessageThing)
    ensures
        msgs_view(v.push(t)) == msgs_view(v).push(t@),
{
    assert forall|q: int| 0 <= q < v.len() + 1 implies msgs_view(v.push(t))[q] == msgs_view(v).push(
        t@,
    )[q] by {
        if q < v.len() {
            assert(v.push(t)[q] == v[q]);
            assert(msgs_view(v)[q] == v[q]@);
        }
    }
    assert(msgs_view(v.push(t)) =~= msgs_view(v).push(t@));
}

/// Creation times are nonnegative and never decrease along a log.
pub open spec fn dates_ok(ms: Seq<MsgView>) -> bool {
    (forall|i: int| 0 <= i < ms.len() ==> ms[i].date >= 0) && (forall|i: int, j: int|
        0 <= i <= j < ms.len() ==> ms[i].date <= ms[j].date)
}

/// What is left of a log at time `now`: turns are dropped from the front
/// while the oldest one is more than 48 hours old.
pub open spec fn evict_old(ms: Seq<MsgView>, now: int) -> Seq<MsgView>
    decreases ms.len(),
{
    if ms.len() > 0 && now - ms[0].date > evict_secs() {
        evict_old(ms.drop_first(), now)
    } else {
        ms
    }
}

pub open spec fn or_empty(l: Option<Seq<MsgView>>) -> Seq<MsgView> {
    match l {
        Option::None => Seq::<MsgView>::empty(),
        Option::Some(ms) => ms,
    }
}

/// Every turn of a log mapped through read-time decay.
pub open spec fn read_all(ms: Seq<MsgView>, now: int) -> Seq<MsgView> {
    Seq::new(ms.len(), |i: int| for_api_view(ms[i], now))
}

/// What a read returns: nothing for an unknown channel; the whole decayed
/// log with full context; otherwise just the most recent turn, decayed.
pub open spec fn read_view(l: Option<Seq<MsgView>>, all_context: bool, now: int) -> Seq<MsgView> {
    match l {
        Option::None => Seq::<MsgView>::empty(),
        Option::Some(ms) => {
            if all_context {
                read_all(ms, now)
            } else if ms.len() > 0 {
                seq![for_api_view(ms.last(), now)]
            } else {
                Seq::<MsgView>::empty()
            }
        },
    }
}

/// One reply step of the completion service: a role and optional text.
pub struct CompletionMessage {
    pub role: Role,
    pub text: Option<String>,
}

pub struct CompletionView {
    pub role: Role,
    pub text: Option<Seq<char>>,
}

impl View for CompletionMessage {
    type V = CompletionView;

    open spec fn view(&self) -> CompletionView {
        CompletionView {
            role: self.role,
            text: match self.text {
                Option::None => Option::None,
                Option::Some(s) => Option::Some(s@),
            },
        }
    }
}

pub open spec fn completion_views(ms: Seq<CompletionMessage>) -> Seq<CompletionView> {
    Seq::new(ms.len(), |i: int| ms[i]@)
}

/// The turn stored for one completion reply step.
pub open spec fn completion_turn(m: CompletionView, now: int) -> MsgView {
    MsgView {
        date: now,
        role: m.role,
        name: Option::None,
        content: match m.text {
            Option::None => Option::None,
            Option::Some(t) => Option::Some(ContentView::Text(t)),
        },
    }
}

pub open spec fn completion_turns(ms: Seq<CompletionView>, now: int) -> Seq<MsgView> {
    Seq::new(ms.len(), |i: int| completion_turn(ms[i], now))
}

/// One channel's ordered log of turns.
struct ChannelLog {
    channel: String,
    msgs: Vec<ChatMessageThing>,
}

/// First-match lookup of a channel's log.
spec fn log_of(logs: Seq<ChannelLog>, c: Seq<char>) -> Option<Seq<MsgView>>
    decreases logs.len(),
{
    if logs.len() == 0 {
        Option::None
    } else if logs[0].channel@ == c {
        Option::Some(msgs_view(logs[0].msgs@))
    } else {
        log_of(logs.drop_first(), c)
    }
}

/// The context store: every relevant turn for each channel, in insertion
/// order.
pub struct MessageMap {
    logs: Vec<ChannelLog>,
}

impl MessageMap {
    /// Channel names are unique and every log's dates are ordered.
    pub closed spec fn wf(self) -> bool {
        (forall|i: int, j: int|
            0 <= i < j < self.logs@.len() ==> self.logs@[i].channel@ != self.logs@[j].channel@)
            && (forall|i: int|
            0 <= i < self.logs@.len() ==> dates_ok(msgs_view(self.logs@[i].msgs@)))
    }

    /// The stored log of a channel, or nothing when the channel is unknown.
    pub closed spec fn spec_log(self, c: Seq<char>) -> Option<Seq<MsgView>> {
        log_of(self.logs@, c)
    }

    /// `now` does not precede any turn already stored for the channel.
    pub open spec fn accepts_at(self, c: Seq<char>, now: int) -> bool {
        match self.spec_log(c) {
            Option::None => true,
            Option::Some(ms) => forall|i: int| 0 <= i < ms.len() ==> ms[i].date <= now,
        }
    }
}

proof fn lemma_log_of_at(logs: Seq<ChannelLog>, i: int, c: Seq<char>)
    requires
        0 <= i < logs.len(),
        logs[i].channel@ == c,
        forall|k: int| 0 <= k < i ==> logs[k].channel@ != c,
    ensures
        log_of(logs, c) == Option::Some(msgs_view(logs[i].msgs@)),
    decreases i,
{
    if i > 0 {
        let t = logs.drop_first();
        assert(forall|k: int| 0 <= k < i - 1 ==> t[k].channel@ != c);
        lemma_log_of_at(t, i - 1, c);
    }
}

proof fn lemma_log_of_none(logs: Seq<ChannelLog>, c: Seq<char>)
    requires
        forall|k: int| 0 <= k < logs.len() ==> logs[k].channel@ != c,
    ensures
        log_of(logs, c) is None,
    decreases logs.len(),
{
    if logs.len() > 0 {
        let t = logs.drop_first();
        assert(forall|k: int| 0 <= k < t.len() ==> t[k].channel@ != c);
        lemma_log_of_none(t, c);
    }
}

proof fn lemma_log_of_update(logs: Seq<ChannelLog>, i: int, nl: ChannelLog)
    requires
        0 <= i < logs.len(),
        nl.channel@ == logs[i].channel@,
        forall|k: int| 0 <= k < i ==> logs[k].channel@ != nl.channel@,
    ensures
        log_of(logs.update(i, nl), nl.channel@) == Option::Some(msgs_view(nl.msgs@)),
        forall|c: Seq<char>|
            c != nl.channel@ ==> log_of(logs.update(i, nl), c) == log_of(logs, c),
    decreases logs.len(),
{
    let up = logs.update(i, nl);
    if i == 0 {
        assert(up[0] == nl);
        assert forall|c: Seq<char>| c != nl.channel@ implies log_of(up, c) == log_of(logs, c) by {
            assert(up.drop_first() =~= logs.drop_first());
            assert(log_of(up, c) == log_of(up.drop_first(), c));
            assert(log_of(logs, c) == log_of(logs.drop_first(), c));
        }
    } else {
        let t = logs.drop_first();
        assert(forall|k: int| 0 <= k < i - 1 ==> t[k].channel@ != nl.channel@);
        lemma_log_of_update(t, i - 1, nl);
        assert(up.drop_first() =~= t.update(i - 1, nl));
        assert(up[0] == logs[0]);
        assert(logs[0].channel@ != nl.channel@);
        assert(log_of(up, nl.channel@) == log_of(t.update(i - 1, nl), nl.channel@));
        assert forall|c: Seq<char>| c != nl.channel@ implies log_of(up, c) == log_of(logs, c) by {
            if c == logs[0].channel@ {
                assert(log_of(up, c) == Option::Some(msgs_view(up[0].msgs@)));
                assert(log_of(logs, c) == Option::Some(msgs_view(logs[0].msgs@)));
            } else {
                assert(log_of(up, c) == log_of(t.update(i - 1, nl), c));
                assert(log_of(logs, c) == log_of(t, c));
            }
        }
    }
}

proof fn lemma_log_of_push(logs: Seq<ChannelLog>, nl: ChannelLog)
    requires
        forall|k: int| 0 <= k < logs.len() ==> logs[k].channel@ != nl.channel@,
    ensures
        log_of(logs.push(nl), nl.channel@) == Option::Some(msgs_view(nl.msgs@)),
        forall|c: Seq<char>| c != nl.channel@ ==> log_of(logs.push(nl), c) == log_of(logs, c),
    decreases logs.len(),
{
    let up = logs.push(nl);
    if logs.len() == 0 {
        assert(up[0] == nl);
        assert forall|c: Seq<char>| c != nl.channel@ implies log_of(up, c) == log_of(logs, c) by {
            assert(up.len() == 1);
            assert(up[0].channel@ == nl.channel@);
            assert(up.drop_first().len() == 0);
            assert(log_of(up.drop_first(), c) is None);
            assert(log_of(up, c) == log_of(up.drop_first(), c));
            assert(log_of(logs, c) is None);
        }
    } else {
        let t = logs.drop_first();
        assert(forall|k: int| 0 <= k < t.len() ==> t[k].channel@ != nl.channel@);
        lemma_log_of_push(t, nl);
        assert(up.drop_first() =~= t.push(nl));
        assert(up[0] == logs[0]);
        assert(logs[0].channel@ != nl.channel@);
        assert(log_of(up, nl.channel@) == log_of(t.push(nl), nl.channel@));
        assert forall|c: Seq<char>| c != nl.channel@ implies log_of(up, c) == log_of(logs, c) by {
            if c == logs[0].channel@ {
                assert(log_of(up, c) == Option::Some(msgs_view(up[0].msgs@)));
                assert(log_of(logs, c) == Option::Some(msgs_view(logs[0].msgs@)));
            } else {
                assert(log_of(up, c) == log_of(t.push(nl), c));
                assert(log_of(logs, c) == log_of(t, c));
            }
        }
    }
}

/// Eviction only ever removes a prefix: what is left is a suffix of the log.
proof fn lemma_evict_suffix(ms: Seq<MsgView>, now: int)
    ensures
        exists|k: int| 0 <= k <= ms.len() && evict_old(ms, now) == ms.skip(k),
    decreases ms.len(),
{
    if ms.len() > 0 && now - ms[0].date > evict_secs() {
        lemma_evict_suffix(ms.drop_first(), now);
        let k = choose|k: int|
            0 <= k <= ms.drop_first().len() && evict_old(ms.drop_first(), now)
                == ms.drop_first().skip(k);
        assert(ms.drop_first().skip(k) =~= ms.skip(k + 1));
        assert(0 <= k + 1 <= ms.len() && evict_old(ms, now) == ms.skip(k + 1));
    } else {
        assert(ms.skip(0) =~= ms);
        assert(0 <= 0 <= ms.len() && evict_old(ms, now) == ms.skip(0));
    }
}

/// An ordered log stays ordered under eviction.
proof fn lemma_evict_dates_ok(ms: Seq<MsgView>, now: int)
    requires
        dates_ok(ms),
    ensures
        dates_ok(evict_old(ms, now)),
{
    lemma_evict_suffix(ms, now);
    let k = choose|k: int| 0 <= k <= ms.len() && evict_old(ms, now) == ms.skip(k);
    let r = ms.skip(k);
    assert(forall|i: int| 0 <= i < r.len() ==> r[i] == ms[k + i]);
}

/// The newest turn survives eviction whenever it is itself young enough.
proof fn lemma_evict_last(ms: Seq<MsgView>, now: int)
    requires
        ms.len() > 0,
        now - ms.last().date <= evict_secs(),
    ensures
        evict_old(ms, now).len() > 0,
        evict_old(ms, now).last() == ms.last(),
    decreases ms.len(),
{
    if now - ms[0].date > evict_secs() {
        let t = ms.drop_first();
        assert(t.len() > 0);
        assert(t.last() == ms.last());
        lemma_evict_last(t, now);
    }
}

/// Some stored log stands behind every `Some` that a lookup yields.
proof fn lemma_log_of_some_index(logs: Seq<ChannelLog>, c: Seq<char>)
    ensures
        log_of(logs, c) matches Option::Some(ms) ==> exists|i: int|
            0 <= i < logs.len() && ms == #[trigger] msgs_view(logs[i].msgs@),
    decreases logs.len(),
{
    if logs.len() > 0 {
        if logs[0].channel@ == c {
            assert(log_of(logs, c) == Option::Some(msgs_view(logs[0].msgs@)));
        } else {
            let tail = logs.drop_first();
            lemma_log_of_some_index(tail, c);
            if log_of(logs, c) is Some {
                let ms = log_of(logs, c)->Some_0;
                let i = choose|i: int|
                    0 <= i < tail.len() && ms == #[trigger] msgs_view(tail[i].msgs@);
                assert(tail[i] == logs[i + 1]);
                assert(ms == msgs_view(logs[i + 1].msgs@));
            }
        }
    }
}

/// The store invariant seen from outside: every channel's stored log keeps
/// nonnegative creation times in insertion order, as the data model asks.
pub proof fn lemma_wf_log_dates(m: MessageMap, c: Seq<char>)
    requires
        m.wf(),
    ensures
        dates_ok(or_empty(m.spec_log(c))),
{
    lemma_log_of_some_index(m.logs@, c);
    match m.spec_log(c) {
        Option::None => {
            assert(or_empty(m.spec_log(c)).len() == 0);
        },
        Option::Some(ms) => {
            let i = choose|i: int|
                0 <= i < m.logs@.len() && ms == #[trigger] msgs_view(m.logs@[i].msgs@);
            assert(dates_ok(msgs_view(m.logs@[i].msgs@)));
        },
    }
}

/// Inserting a turn and immediately reading with `includeAllContext` off
/// returns exactly that turn: eviction cannot drop it and decay at its own
/// creation time leaves it unchanged.
pub proof fn lemma_fresh_turn_is_read(l: Seq<MsgView>, t: MsgView, now: int)
    requires
        forall|i: int| 0 <= i < l.len() ==> l[i].date <= now,
        t.date == now,
    ensures
        read_view(Option::Some(evict_old(l.push(t), now)), false, now) == seq![t],
{
    let s = l.push(t);
    assert(s.last() == t);
    lemma_evict_last(s, now);
    assert(for_api_view(t, now) == t);
}

/// After eviction, nothing a read can return is older than 48 hours: the
/// log is ordered, so once the front is young enough the rest is too.
pub proof fn lemma_evict_age_bound(l: Seq<MsgView>, now: int)
    requires
        dates_ok(l),
    ensures
        forall|i: int|
            0 <= i < evict_old(l, now).len() ==> now - evict_old(l, now)[i].date <= evict_secs(),
    decreases l.len(),
{
    if l.len() > 0 && now - l[0].date > evict_secs() {
        let t = l.drop_first();
        assert(dates_ok(t));
        lemma_evict_age_bound(t, now);
    } else if l.len() > 0 {
        assert forall|i: int| 0 <= i < evict_old(l, now).len() implies now - evict_old(l, now)[i].date
            <= evict_secs() by {
            assert(evict_old(l, now) == l);
            assert(l[0].date <= l[i].date);
        }
    }
}

impl Default for MessageMap {
    /// An empty store: no channel is known.
    fn default() -> (r: MessageMap)
        ensures
            r.wf(),
            forall|c: Seq<char>| r.spec_log(c) is None,
    {
        MessageMap { logs: Vec::new() }
    }
}

impl MessageMap {
    /// Index of the channel's log, scanning in order.
    fn find_idx(&self, channel: &str) -> (r: Option<usize>)
        ensures
            match r {
                Option::Some(i) => i < self.logs@.len() && self.logs@[i as int].channel@ == channel@
                    && (forall|k: int| 0 <= k < i ==> self.logs@[k].channel@ != channel@),
                Option::None => forall|k: int|
                    0 <= k < self.logs@.len() ==> self.logs@[k].channel@ != channel@,
            },
    {
        let n = self.logs.len();
        let mut i: usize = 0;
        while i < n
            invariant
                0 <= i <= n,
                n == self.logs@.len(),
                forall|k: int| 0 <= k < i ==> self.logs@[k].channel@ != channel@,
            decreases n - i,
        {
            if eq_str(self.logs[i].channel.as_str(), channel) {
                return Option::Some(i);
            }
            i += 1;
        }
        Option::None
    }

    /// Eviction: drops turns from the front while the oldest is more than
    /// 48 hours old.  (A token-budget cap is out of scope.)
    fn trim_message_for_age_and_contextsize(v: &mut Vec<ChatMessageThing>, now: i64)
        requires
            now >= 0,
            forall|i: int| 0 <= i < old(v)@.len() ==> old(v)@[i]@.date >= 0,
        ensures
            msgs_view(final(v)@) == evict_old(msgs_view(old(v)@), now as int),
    {
        proof {
            assert(msgs_view(v@) =~= msgs_view(old(v)@));
        }
        while v.len() > 0 && now - v[0].date > 172800
            invariant
                now >= 0,
                forall|i: int| 0 <= i < v@.len() ==> v@[i]@.date >= 0,
                evict_old(msgs_view(old(v)@), now as int) == evict_old(msgs_view(v@), now as int),
            decreases v@.len(),
        {
            let ghost pre = msgs_view(v@);
            v.remove(0);
            proof {
                assert(msgs_view(v@) =~= pre.drop_first());
            }
        }
        proof {
            let ms = msgs_view(v@);
            if ms.len() > 0 {
                assert(ms[0].date == v@[0]@.date);
            }
            assert(evict_old(ms, now as int) == ms);
        }
    }

    /// Appends the given turns, all stamped `now`, to the channel's log
    /// (creating it on first insertion), then evicts stale turns.
    fn append_turns(&mut self, channel: &str, turns: Vec<ChatMessageThing>, now: i64)
        requires
            old(self).wf(),
            now >= 0,
            old(self).accepts_at(channel@, now as int),
            forall|i: int| 0 <= i < turns@.len() ==> turns@[i]@.date == now,
        ensures
            final(self).wf(),
            final(self).spec_log(channel@) == Option::Some(
                evict_old(
                    or_empty(old(self).spec_log(channel@)) + msgs_view(turns@),
                    now as int,
                ),
            ),
            forall|c: Seq<char>|
                c != channel@ ==> final(self).spec_log(c) == old(self).spec_log(c),
    {
        let ghost oldlogs = self.logs@;
        let ghost newviews = msgs_view(turns@);
        match self.find_idx(channel) {
            Option::Some(i) => {
                proof {
                    lemma_log_of_at(oldlogs, i as int, channel@);
                }
                let ghost oldmsgs = msgs_view(self.logs@[i as int].msgs@);
                let mut log = self.logs.remove(i);
                let mut incoming = turns;
                log.msgs.append(&mut incoming);
                proof {
                    assert(msgs_view(log.msgs@) =~= oldmsgs + newviews);
                    // the combined log is ordered: old turns do not pass now
                    assert forall|a: int, b: int|
                        0 <= a <= b < msgs_view(log.msgs@).len() implies msgs_view(log.msgs@)[a].date
                        <= msgs_view(log.msgs@)[b].date by {
                        let m = msgs_view(log.msgs@);
                        if b >= oldmsgs.len() {
                            assert(m[b].date == now);
                            if a < oldmsgs.len() {
                                assert(m[a] == oldmsgs[a]);
                            } else {
                                assert(m[a].date == now);
                            }
                        } else {
                            assert(m[a] == oldmsgs[a] && m[b] == oldmsgs[b]);
                        }
                    }
                    assert(dates_ok(oldmsgs));
                    assert forall|q: int| 0 <= q < msgs_view(log.msgs@).len() implies msgs_view(
                        log.msgs@,
                    )[q].date >= 0 by {
                        let m = msgs_view(log.msgs@);
                        if q < oldmsgs.len() {
                            assert(m[q] == oldmsgs[q]);
                        } else {
                            assert(m[q].date == now);
                        }
                    }
                    assert(dates_ok(msgs_view(log.msgs@)));
                    assert forall|q: int| 0 <= q < log.msgs@.len() implies log.msgs@[q]@.date
                        >= 0 by {
                        assert(log.msgs@[q]@ == msgs_view(log.msgs@)[q]);
                        assert(msgs_view(log.msgs@)[q].date >= 0);
                    }
                }
                Self::trim_message_for_age_and_contextsize(&mut log.msgs, now);
                proof {
                    lemma_evict_dates_ok(oldmsgs + newviews, now as int);
                }
                let ghost nl = log;
                self.logs.insert(i, log);
                proof {
                    assert(self.logs@ =~= oldlogs.update(i as int, nl));
                    lemma_log_of_update(oldlogs, i as int, nl);
                    assert forall|a: int, b: int|
                        0 <= a < b < self.logs@.len() implies self.logs@[a].channel@
                        != self.logs@[b].channel@ by {
                        assert(self.logs@[a].channel@ == oldlogs[a].channel@);
                        assert(self.logs@[b].channel@ == oldlogs[b].channel@);
                    }
                    assert forall|k: int| 0 <= k < self.logs@.len() implies dates_ok(
                        msgs_view(self.logs@[k].msgs@),
                    ) by {
                        if k != i {
                            assert(self.logs@[k] == oldlogs[k]);
                        }
                    }
                }
            },
            Option::None => {
                proof {
                    lemma_log_of_none(oldlogs, channel@);
                }
                let mut log = ChannelLog { channel: channel.to_owned(), msgs: turns };
                proof {
                    assert(msgs_view(log.msgs@) =~= Seq::<MsgView>::empty() + newviews);
                    assert forall|q: int| 0 <= q < msgs_view(log.msgs@).len() implies msgs_view(
                        log.msgs@,
                    )[q].date >= 0 by {
                        assert(msgs_view(log.msgs@)[q].date == now);
                    }
                    assert(dates_ok(msgs_view(log.msgs@)));
                    assert forall|q: int| 0 <= q < log.msgs@.len() implies log.msgs@[q]@.date
                        >= 0 by {
                        assert(log.msgs@[q]@ == msgs_view(log.msgs@)[q]);
                        assert(msgs_view(log.msgs@)[q].date >= 0);
                    }
                }
                Self::trim_message_for_age_and_contextsize(&mut log.msgs, now);
                proof {
                    lemma_evict_dates_ok(Seq::<MsgView>::empty() + newviews, now as int);
                }
                let ghost nl = log;
                self.logs.push(log);
                proof {
                    assert(self.logs@ =~= oldlogs.push(nl));
                    lemma_log_of_push(oldlogs, nl);
                    assert forall|a: int, b: int|
                        0 <= a < b < self.logs@.len() implies self.logs@[a].channel@
                        != self.logs@[b].channel@ by {
                        if b < oldlogs.len() {
                            assert(self.logs@[a] == oldlogs[a]);
                            assert(self.logs@[b] == oldlogs[b]);
                        } else {
                            assert(self.logs@[a] == oldlogs[a]);
                            assert(self.logs@[b] == nl);
                        }
                    }
                    assert forall|k: int| 0 <= k < self.logs@.len() implies dates_ok(
                        msgs_view(self.logs@[k].msgs@),
                    ) by {
                        if k < oldlogs.len() {
                            assert(self.logs@[k] == oldlogs[k]);
                        }
                    }
                }
            },
        }
    }

    /// Wraps a room-member message as a turn and appends it; `image_urls`
    /// are the URL candidates that the caller's content-type probe reported
    /// as images (probe failures simply leave a URL out).
    pub fn insert_usermsg(
        &mut self,
        channel: &str,
        sender: &str,
        message: &str,
        image_urls: &Vec<String>,
        now: i64,
    )
        requires
            old(self).wf(),
            now >= 0,
            old(self).accepts_at(channel@, now as int),
        ensures
            final(self).wf(),
            final(self).spec_log(channel@) == Option::Some(
                evict_old(
                    or_empty(old(self).spec_log(channel@)).push(
                        crate::message::user_turn_view(
                            sender@,
                            message@,
                            crate::message::strings_view(image_urls@),
                            now as int,
                        ),
                    ),
                    now as int,
                ),
            ),
            forall|c: Seq<char>|
                c != channel@ ==> final(self).spec_log(c) == old(self).spec_log(c),
    {
        let turn = crate::message::build_user_turn(sender, message, image_urls, now);
        let ghost tv = turn@;
        let mut turns: Vec<ChatMessageThing> = Vec::new();
        turns.push(turn);
        proof {
            assert(msgs_view(turns@) =~= seq![tv]);
            assert(or_empty(old(self).spec_log(channel@)) + seq![tv] =~= or_empty(
                old(self).spec_log(channel@),
            ).push(tv));
        }
        self.append_turns(channel, turns, now);
    }

    /// Appends the reply steps of one completion response as agent-side
    /// turns, all stamped `now`.
    pub fn insert_selfmsg(&mut self, channel: &str, messages: &Vec<CompletionMessage>, now: i64)
        requires
            old(self).wf(),
            now >= 0,
            old(self).accepts_at(channel@, now as int),
        ensures
            final(self).wf(),
            final(self).spec_log(channel@) == Option::Some(
                evict_old(
                    or_empty(old(self).spec_log(channel@)) + completion_turns(
                        completion_views(messages@),
                        now as int,
                    ),
                    now as int,
                ),
            ),
            forall|c: Seq<char>|
                c != channel@ ==> final(self).spec_log(c) == old(self).spec_log(c),
    {
        let mut turns: Vec<ChatMessageThing> = Vec::new();
        let mut k: usize = 0;
        while k < messages.len()
            invariant
                0 <= k <= messages@.len(),
                now >= 0,
                msgs_view(turns@) == completion_turns(completion_views(messages@).take(k as int), now as int),
                forall|i: int| 0 <= i < turns@.len() ==> turns@[i]@.date == now,
            decreases messages@.len() - k,
        {
            let m = &messages[k];
            let content: Option<MessageContent> = match &m.text {
                Option::Some(t) => Option::Some(MessageContent::Text(t.clone())),
                Option::None => Option::None,
            };
            let ghost pre = turns@;
            let ghost cv = crate::message::opt_content_view(content);
            proof {
                assert(cv == (match messages@[k as int]@.text {
                    Option::None => Option::<ContentView>::None,
                    Option::Some(tt) => Option::Some(ContentView::Text(tt)),
                }));
            }
            turns.push(ChatMessageThing::new_now(m.role, Option::None, content, now));
            k += 1;
            proof {
                let cvs = completion_views(messages@);
                lemma_msgs_view_push(pre, turns@.last());
                assert(turns@.drop_last() =~= pre);
                assert(turns@.last()@ == completion_turn(cvs[k - 1], now as int));
                assert forall|q: int| 0 <= q < k implies msgs_view(turns@)[q] == completion_turns(
                    cvs.take(k as int),
                    now as int,
                )[q] by {
                    if q < k - 1 {
                        assert(msgs_view(turns@)[q] == msgs_view(pre).push(turns@.last()@)[q]);
                        assert(msgs_view(pre)[q] == completion_turns(cvs.take(k - 1), now as int)[q]);
                        assert(completion_turns(cvs.take(k - 1), now as int)[q] == completion_turn(
                            cvs[q],
                            now as int,
                        ));
                    }
                }
                assert(msgs_view(turns@) =~= completion_turns(cvs.take(k as int), now as int));
            }
        }
        proof {
            let cvs = completion_views(messages@);
            assert(cvs.take(messages@.len() as int) =~= cvs);
        }
        self.append_turns(channel, turns, now);
    }

    /// Empties the channel's stored log; unknown channels are untouched.
    pub fn clear_chat_message(&mut self, channel: &str)
        requires
            old(self).wf(),
        ensures
            final(self).wf(),
            old(self).spec_log(channel@) is Some ==> final(self).spec_log(channel@)
                == Option::Some(Seq::<MsgView>::empty()),
            old(self).spec_log(channel@) is None ==> final(self).spec_log(channel@) is None,
            forall|c: Seq<char>|
                c != channel@ ==> final(self).spec_log(c) == old(self).spec_log(c),
    {
        let ghost oldlogs = self.logs@;
        match self.find_idx(channel) {
            Option::Some(i) => {
                proof {
                    lemma_log_of_at(oldlogs, i as int, channel@);
                }
                let mut log = self.logs.remove(i);
                log.msgs.clear();
                let ghost nl = log;
                self.logs.insert(i, log);
                proof {
                    assert(self.logs@ =~= oldlogs.update(i as int, nl));
                    lemma_log_of_update(oldlogs, i as int, nl);
                    assert(msgs_view(nl.msgs@) =~= Seq::<MsgView>::empty());
                    assert forall|a: int, b: int|
                        0 <= a < b < self.logs@.len() implies self.logs@[a].channel@
                        != self.logs@[b].channel@ by {
                        assert(self.logs@[a].channel@ == oldlogs[a].channel@);
                        assert(self.logs@[b].channel@ == oldlogs[b].channel@);
                    }
                    assert forall|k: int| 0 <= k < self.logs@.len() implies dates_ok(
                        msgs_view(self.logs@[k].msgs@),
                    ) by {
                        if k != i {
                            assert(self.logs@[k] == oldlogs[k]);
                        }
                    }
                }
            },
            Option::None => {
                proof {
                    lemma_log_of_none(oldlogs, channel@);
                }
            },
        }
    }

    /// The turns to hand to the completion service: the whole retained log,
    /// or only the most recent turn, each rewritten by read-time image
    /// decay; the stored log itself is never changed by a read.
    pub fn get_chat_messages(&self, channel: &str, all_context: bool, now: i64) -> (r: Vec<
        ChatMessageThing,
    >)
        requires
            self.wf(),
            now >= 0,
        ensures
            msgs_view(r@) == read_view(self.spec_log(channel@), all_context, now as int),
    {
        match self.find_idx(channel) {
            Option::None => {
                proof {
                    lemma_log_of_none(self.logs@, channel@);
                    assert(msgs_view(Seq::<ChatMessageThing>::empty()) =~= Seq::<MsgView>::empty());
                }
                let r: Vec<ChatMessageThing> = Vec::new();
                proof {
                    assert(msgs_view(r@) =~= Seq::<MsgView>::empty());
                }
                r
            },
            Option::Some(i) => {
                proof {
                    lemma_log_of_at(self.logs@, i as int, channel@);
                }
                let log = &self.logs[i];
                let ghost ms = msgs_view(log.msgs@);
                proof {
                    assert(dates_ok(ms));
                }
                let mut out: Vec<ChatMessageThing> = Vec::new();
                if all_context {
                    let mut k: usize = 0;
                    proof {
                        assert(msgs_view(out@) =~= read_all(ms.take(0), now as int));
                    }
                    while k < log.msgs.len()
                        invariant
                            0 <= k <= log.msgs@.len(),
                            ms == msgs_view(log.msgs@),
                            dates_ok(ms),
                            now >= 0,
                            msgs_view(out@) == read_all(ms.take(k as int), now as int),
                        decreases log.msgs@.len() - k,
                    {
                        proof {
                            assert(ms[k as int].date >= 0);
                        }
                        let ghost pre = out@;
                        let t = log.msgs[k].get_for_api(now);
                        proof {
                            assert(log.msgs@[k as int]@ == ms[k as int]);
                        }
                        out.push(t);
                        k += 1;
                        proof {
                            lemma_msgs_view_push(pre, out@.last());
                            assert(out@.drop_last() =~= pre);
                            assert(out@.last()@ == for_api_view(ms[k - 1], now as int));
                            assert forall|q: int| 0 <= q < k implies msgs_view(out@)[q] == read_all(
                                ms.take(k as int),
                                now as int,
                            )[q] by {
                                if q < k - 1 {
                                    assert(msgs_view(out@)[q] == msgs_view(pre).push(out@.last()@)[q]);
                                    assert(msgs_view(pre)[q] == read_all(ms.take(k - 1), now as int)[q]);
                                    assert(read_all(ms.take(k - 1), now as int)[q] == for_api_view(
                                        ms[q],
                                        now as int,
                                    ));
                                }
                            }
                            assert(msgs_view(out@) =~= read_all(ms.take(k as int), now as int));
                        }
                    }
                    proof {
                        assert(ms.take(ms.len() as int) =~= ms);
                    }
                } else {
                    if log.msgs.len() > 0 {
                        let last = log.msgs.len() - 1;
                        proof {
                            assert(ms[last as int].date >= 0);
                            assert(ms.last() == ms[last as int]);
                        }
                        let t = log.msgs[last].get_for_api(now);
                        out.push(t);
                        proof {
                            assert(msgs_view(out@) =~= seq![for_api_view(ms.last(), now as int)]);
                        }
                    } else {
                        proof {
                            assert(msgs_view(out@) =~= Seq::<MsgView>::empty());
                        }
                    }
                }
                out
            },
        }
    }

    /// A copy of the channel's full stored log, as the persistence sink
    /// receives it; empty for an unknown channel.
    pub fn channel_log(&self, channel: &str) -> (r: Vec<ChatMessageThing>)
        ensures
            msgs_view(r@) == or_empty(self.spec_log(channel@)),
    {
        match self.find_idx(channel) {
            Option::None => {
                proof {
                    lemma_log_of_none(self.logs@, channel@);
                }
                let r: Vec<ChatMessageThing> = Vec::new();
                proof {
                    assert(msgs_view(r@) =~= Seq::<MsgView>::empty());
                }
                r
            },
            Option::Some(i) => {
                proof {
                    lemma_log_of_at(self.logs@, i as int, channel@);
                }
                let log = &self.logs[i];
                let mut out: Vec<ChatMessageThing> = Vec::new();
                let mut k: usize = 0;
                proof {
                    assert(msgs_view(out@) =~= msgs_view(log.msgs@).take(0));
                }
                while k < log.msgs.len()
                    invariant
                        0 <= k <= log.msgs@.len(),
                        msgs_view(out@) == msgs_view(log.msgs@).take(k as int),
                    decreases log.msgs@.len() - k,
                {
                    let ghost pre = out@;
                    out.push(log.msgs[k].clone());
                    k += 1;
                    proof {
                        lemma_msgs_view_push(pre, out@.last());
                        assert(out@.drop_last() =~= pre);
                        assert(out@.last()@ == msgs_view(log.msgs@)[k - 1]);
                        assert(msgs_view(pre).push(out@.last()@) =~= msgs_view(log.msgs@).take(
                            k as int,
                        ));
                    }
                }
                proof {
                    assert(msgs_view(log.msgs@).take(log.msgs@.len() as int) =~= msgs_view(
                        log.msgs@,
                    ));
                }
                out
            },
        }
    }

    /// Whether an insertion at time `now` keeps the channel's log ordered;
    /// the unverified caller tests this before inserting.
    pub fn accepts_now(&self, channel: &str, now: i64) -> (r: bool)
        requires
            self.wf(),
        ensures
            r == self.accepts_at(channel@, now as int),
    {
        match self.find_idx(channel) {
            Option::None => {
                proof {
                    lemma_log_of_none(self.logs@, channel@);
                }
                true
            },
            Option::Some(i) => {
                proof {
                    lemma_log_of_at(self.logs@, i as int, channel@);
                }
                let log = &self.logs[i];
                if log.msgs.len() == 0 {
                    true
                } else {
                    let ghost ms = msgs_view(log.msgs@);
                    let last = log.msgs.len() - 1;
                    let ok = log.msgs[last].date <= now;
                    proof {
                        assert(dates_ok(ms));
                        if ok {
                            assert forall|j: int| 0 <= j < ms.len() implies ms[j].date
                                <= now as int by {
                                assert(ms[j].date <= ms[last as int].date);
                            }
                        } else {
                            assert(ms[last as int].date > now);
                        }
                    }
                    ok
                }
            },
        }
    }
}

} // verus!
