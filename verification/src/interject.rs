//! The unprompted-comment flow's pure logic: flattening a channel log into a
//! transcript, building the bracketed prompt around it, and reading the
//! completion's verdict.  The completion call itself is the caller's.

use vstd::prelude::*;
use vstd::string::{StrSliceExecFns, StringExecFns};
use crate::chars::{contains_str, has_prefix, has_substring};
use crate::message::{irc_format_view, ChatMessageThing, MsgView, Role};
use crate::reply::push_char;
use crate::store::{msgs_view, CompletionMessage, CompletionView};

verus! {

/// A channel log flattened to displayable text, one turn per line.
pub open spec fn transcript_view(ms: Seq<MsgView>) -> Seq<char>
    decreases ms.len(),
{
    if ms.len() == 0 {
        Seq::<char>::empty()
    } else {
        transcript_view(ms.drop_last()) + (match irc_format_view(ms.last()) {
            Option::Some(t) => t.push('\n'),
            Option::None => Seq::<char>::empty(),
        })
    }
}

/// Flattens a channel log into a transcript, one displayable turn per line.
pub fn collect_irc_lines(msgs: &Vec<ChatMessageThing>) -> (r: String)
    ensures
        r@ == transcript_view(msgs_view(msgs@)),
{
    let mut out = String::new();
    let mut k: usize = 0;
    proof {
        assert(msgs_view(msgs@).take(0).len() == 0);
    }
    while k < msgs.len()
        invariant
            0 <= k <= msgs@.len(),
            out@ == transcript_view(msgs_view(msgs@).take(k as int)),
        decreases msgs@.len() - k,
    {
        let ghost pre = out@;
        match msgs[k].get_as_irc_format() {
            Option::Some(t) => {
                out.append(t);
                push_char(&mut out, '\n');
            },
            Option::None => {},
        }
        k += 1;
        proof {
            let ms = msgs_view(msgs@);
            let cur = ms.take(k as int);
            assert(cur.drop_last() =~= ms.take(k - 1));
            assert(cur.last() == msgs@[k - 1]@);
            match irc_format_view(msgs@[k - 1]@) {
                Option::Some(t) => {
                    assert(out@ =~= pre + t.push('\n'));
                },
                Option::None => {
                    assert(out@ =~= pre);
                },
            }
        }
    }
    proof {
        assert(msgs_view(msgs@).take(msgs@.len() as int) =~= msgs_view(msgs@));
    }
    out
}

/// The marker an instruction text carries where `below` or `above` belongs.
pub open spec fn marker() -> Seq<char> {
    seq!['{', 'A', 'B', '}']
}

/// The instruction with every marker occurrence replaced.
pub open spec fn replaced(s: Seq<char>, r: Seq<char>) -> Seq<char>
    decreases s.len(),
{
    if s.len() == 0 {
        Seq::<char>::empty()
    } else if has_prefix(s, marker()) {
        r + replaced(s.skip(marker().len() as int), r)
    } else {
        seq![s[0]] + replaced(s.drop_first(), r)
    }
}

/// Replaces every `{AB}` in the instruction text.
pub fn replace_marker(s: &str, with: &str) -> (out: String)
    ensures
        out@ == replaced(s@, with@),
{
    let n = s.unicode_len();
    let mut out = String::new();
    let mut p: usize = 0;
    proof {
        assert(s@.skip(0) =~= s@);
    }
    loop
        invariant_except_break
            0 <= p <= n,
            n == s@.len(),
            replaced(s@, with@) == out@ + replaced(s@.skip(p as int), with@),
        ensures
            out@ == replaced(s@, with@),
        decreases n - p,
    {
        if p == n {
            proof {
                assert(replaced(s@.skip(p as int), with@).len() == 0);
                assert(out@ + replaced(s@.skip(p as int), with@) =~= out@);
            }
            break;
        }
        let ghost rest = s@.skip(p as int);
        proof {
            assert(forall|k: int| 0 <= k < rest.len() ==> rest[k] == s@[p + k]);
            assert(marker().len() == 4);
        }
        let at_marker = n - p >= 4 && s.get_char(p) == '{' && s.get_char(p + 1) == 'A'
            && s.get_char(p + 2) == 'B' && s.get_char(p + 3) == '}';
        proof {
            assert(marker()[0] == '{' && marker()[1] == 'A' && marker()[2] == 'B' && marker()[3]
                == '}');
            assert(at_marker == has_prefix(rest, marker()));
        }
        if at_marker {
            out.append(with);
            proof {
                assert(rest.skip(4) =~= s@.skip(p + 4));
                assert((out@ + replaced(s@.skip(p + 4), with@)) =~= (out@.subrange(
                    0,
                    out@.len() - with@.len(),
                ) + (with@ + replaced(s@.skip(p + 4), with@))));
            }
            p += 4;
        } else {
            let c = s.get_char(p);
            push_char(&mut out, c);
            proof {
                assert(rest.drop_first() =~= s@.skip(p + 1));
                assert(rest[0] == c);
                assert((out@ + replaced(s@.skip(p + 1), with@)) =~= (out@.subrange(
                    0,
                    out@.len() - 1,
                ) + (seq![c] + replaced(s@.skip(p + 1), with@))));
            }
            p += 1;
        }
    }
    out
}

/// The three prompt turns sent around a transcript: the instruction told
/// the material is below, the transcript itself, and the instruction told
/// the material is above.
pub open spec fn bracketed_views(instruction: Seq<char>, transcript: Seq<char>) -> Seq<
    CompletionView,
> {
    seq![
        CompletionView { role: Role::User, text: Option::Some(replaced(instruction, "below"@)) },
        CompletionView { role: Role::User, text: Option::Some(transcript) },
        CompletionView { role: Role::User, text: Option::Some(replaced(instruction, "above"@)) },
    ]
}

/// Builds the three prompt turns around a transcript.
pub fn bracketed_prompt(instruction: &str, transcript: String) -> (r: Vec<CompletionMessage>)
    ensures
        crate::store::completion_views(r@) == bracketed_views(instruction@, transcript@),
{
    let below = replace_marker(instruction, "below");
    let above = replace_marker(instruction, "above");
    let mut out: Vec<CompletionMessage> = Vec::new();
    out.push(CompletionMessage { role: Role::User, text: Option::Some(below) });
    out.push(CompletionMessage { role: Role::User, text: Option::Some(transcript) });
    out.push(CompletionMessage { role: Role::User, text: Option::Some(above) });
    proof {
        assert(crate::store::completion_views(out@) =~= bracketed_views(
            instruction@,
            transcript@,
        ));
    }
    out
}

/// What an interjection answer means: text that says `no comment` anywhere
/// means stay silent; anything else is said as it stands.
pub open spec fn interjection_view(t: Seq<char>) -> Option<Seq<char>> {
    if has_substring(t, "no comment"@) {
        Option::None
    } else {
        Option::Some(t)
    }
}

/// Reads an interjection answer.
pub fn interjection_reply(t: &str) -> (r: Option<String>)
    ensures
        crate::message::opt_text_view(r) == interjection_view(t@),
{
    if contains_str(t, "no comment") {
        Option::None
    } else {
        Option::Some(t.to_owned())
    }
}

/// The text with any quote characters stripped from both ends.
pub open spec fn trim_quotes_start(s: Seq<char>) -> Seq<char>
    decreases s.len(),
{
    if s.len() > 0 && s[0] == '"' {
        trim_quotes_start(s.drop_first())
    } else {
        s
    }
}

pub open spec fn trim_quotes_end(s: Seq<char>) -> Seq<char>
    decreases s.len(),
{
    if s.len() > 0 && s.last() == '"' {
        trim_quotes_end(s.drop_last())
    } else {
        s
    }
}

pub open spec fn trim_quotes(s: Seq<char>) -> Seq<char> {
    trim_quotes_end(trim_quotes_start(s))
}

proof fn lemma_trim_quotes_start(s: Seq<char>, i: int)
    requires
        0 <= i <= s.len(),
        forall|k: int| 0 <= k < i ==> s[k] == '"',
        i == s.len() || s[i] != '"',
    ensures
        trim_quotes_start(s) =~= s.subrange(i, s.len() as int),
    decreases i,
{
    if i == 0 {
        assert(s.subrange(0, s.len() as int) =~= s);
    } else {
        let t = s.drop_first();
        assert(forall|k: int| 0 <= k < i - 1 ==> t[k] == '"');
        lemma_trim_quotes_start(t, i - 1);
        assert(t.subrange(i - 1, t.len() as int) =~= s.subrange(i, s.len() as int));
    }
}

proof fn lemma_trim_quotes_end(s: Seq<char>, j: int)
    requires
        0 <= j <= s.len(),
        forall|k: int| j <= k < s.len() ==> s[k] == '"',
        j == 0 || s[j - 1] != '"',
    ensures
        trim_quotes_end(s) =~= s.subrange(0, j),
    decreases s.len() - j,
{
    if j == s.len() {
        assert(s.subrange(0, s.len() as int) =~= s);
    } else {
        let t = s.drop_last();
        assert(forall|k: int| j <= k < t.len() ==> t[k] == '"');
        lemma_trim_quotes_end(t, j);
        assert(t.subrange(0, j) =~= s.subrange(0, j));
    }
}

/// What an image-prompt answer means: text that says `no image` anywhere
/// means draw nothing; anything else is the prompt, with surrounding quote
/// characters stripped.
pub open spec fn image_prompt_view(t: Seq<char>) -> Option<Seq<char>> {
    if has_substring(t, "no image"@) {
        Option::None
    } else {
        Option::Some(trim_quotes(t))
    }
}

/// Reads an image-prompt answer.
pub fn image_prompt_reply(t: &str) -> (r: Option<String>)
    ensures
        crate::message::opt_text_view(r) == image_prompt_view(t@),
{
    if contains_str(t, "no image") {
        return Option::None;
    }
    let n = t.unicode_len();
    let mut i: usize = 0;
    while i < n && t.get_char(i) == '"'
        invariant
            0 <= i <= n,
            n == t@.len(),
            forall|k: int| 0 <= k < i ==> t@[k] == '"',
        decreases n - i,
    {
        i += 1;
    }
    let mut j: usize = n;
    while j > i && t.get_char(j - 1) == '"'
        invariant
            i <= j <= n,
            n == t@.len(),
            forall|k: int| j <= k < n ==> t@[k] == '"',
        decreases j,
    {
        j -= 1;
    }
    proof {
        lemma_trim_quotes_start(t@, i as int);
        let m = t@.subrange(i as int, n as int);
        if i == j {
            if i < n && i > 0 {
                assert(t@[i as int] != '"');
                assert(false);
            }
        }
        assert(forall|k: int| j - i <= k < m.len() ==> m[k] == '"');
        lemma_trim_quotes_end(m, j - i);
        assert(m.subrange(0, j - i) =~= t@.subrange(i as int, j as int));
    }
    Option::Some(t.substring_char(i, j).to_owned())
}

} // verus!
