//! Outbound chat-reply shaping: splitting a reply into wrapped lines with
//! control characters stripped, the weighted line-count budget that decides
//! between inline delivery and an uploaded-link fallback, and the removal of
//! the agent's own name from reply text.

use vstd::prelude::*;
use vstd::string::{StrSliceExecFns, StringExecFns, StringSliceAdditionalSpecFns};
use vstd::utf8::encode_utf8;
use crate::chars::{
    first_char, has_prefix, is_kept_in_reply, is_kept_in_reply_char, is_space, is_space_char,
    lemma_first_char, lemma_first_char_bounds, lemma_trim_start_is_suffix, str_has_prefix,
    trim_seq, trim_start_seq, trim_str,
};
use crate::message::{lemma_strings_view_push, strings_view};

verus! {

/// What `textwrap::wrap` makes of one line at the fixed column width of 400.
pub uninterp spec fn wrapped_lines(line: Seq<char>) -> Seq<Seq<char>>;

/// Relies on textwrap::wrap at width 400: the wrapping of a line depends on
/// the line text alone.
#[verifier::external_body]
fn wrap_line(line: &str) -> (r: Vec<String>)
    ensures
        strings_view(r@) == wrapped_lines(line@),
{
    textwrap::wrap(line, 400).into_iter().map(|c| c.into_owned()).collect()
}

/// Relies on String::push: appends exactly the one character.
#[verifier::external_body]
pub(crate) fn push_char(s: &mut String, c: char)
    ensures
        final(s)@ == old(s)@.push(c),
{
    s.push(c);
}

/// A reply line with its control characters removed; whitespace stays.
pub open spec fn strip_ctl(s: Seq<char>) -> Seq<char>
    decreases s.len(),
{
    if s.len() == 0 {
        Seq::<char>::empty()
    } else {
        strip_ctl(s.drop_last()) + (if is_kept_in_reply(s.last()) {
            seq![s.last()]
        } else {
            Seq::<char>::empty()
        })
    }
}

fn strip_ctl_str(s: &str) -> (r: String)
    ensures
        r@ == strip_ctl(s@),
{
    let n = s.unicode_len();
    let mut out = String::new();
    let mut k: usize = 0;
    proof {
        assert(s@.take(0).len() == 0);
    }
    while k < n
        invariant
            0 <= k <= n,
            n == s@.len(),
            out@ == strip_ctl(s@.take(k as int)),
        decreases n - k,
    {
        let c = s.get_char(k);
        if is_kept_in_reply_char(c) {
            push_char(&mut out, c);
        }
        k += 1;
        proof {
            let cur = s@.take(k as int);
            assert(cur.drop_last() =~= s@.take(k - 1));
            assert(cur.last() == s@[k - 1]);
            if is_kept_in_reply(s@[k - 1]) {
                assert(out@ =~= strip_ctl(s@.take(k - 1)) + seq![s@[k - 1]]);
            } else {
                assert(out@ =~= strip_ctl(s@.take(k - 1)));
            }
        }
    }
    proof {
        assert(s@.take(n as int) =~= s@);
    }
    out
}

pub open spec fn strip_all(ls: Seq<Seq<char>>) -> Seq<Seq<char>> {
    Seq::new(ls.len(), |i: int| strip_ctl(ls[i]))
}

/// The lines of a text, as `str::lines` cuts them: at every line feed, with
/// one carriage return before it removed, and no empty line after a final
/// line feed.
pub open spec fn split_lines(s: Seq<char>) -> Seq<Seq<char>>
    decreases s.len(),
    via split_lines_dec
{
    if s.len() == 0 {
        Seq::<Seq<char>>::empty()
    } else {
        let e = first_char(s, '\n');
        let head = s.take(e);
        let head2 = if head.len() > 0 && head.last() == '\r' {
            head.drop_last()
        } else {
            head
        };
        if e < s.len() {
            seq![head2] + split_lines(s.skip(e + 1))
        } else {
            seq![head2]
        }
    }
}

#[via_fn]
proof fn split_lines_dec(s: Seq<char>) {
    lemma_first_char_bounds(s, '\n');
}

/// The reply lines of a sequence of raw lines: blank lines are dropped, the
/// rest are wrapped at the fixed column width and stripped of control
/// characters.
pub open spec fn reply_lines_of(lines: Seq<Seq<char>>) -> Seq<Seq<char>>
    decreases lines.len(),
{
    if lines.len() == 0 {
        Seq::<Seq<char>>::empty()
    } else {
        (if trim_seq(lines[0]).len() == 0 {
            Seq::<Seq<char>>::empty()
        } else {
            strip_all(wrapped_lines(lines[0]))
        }) + reply_lines_of(lines.drop_first())
    }
}

/// What one reply text becomes on the wire: its non-blank lines, wrapped
/// and cleaned.
pub open spec fn split_spec(msg: Seq<char>) -> Seq<Seq<char>> {
    reply_lines_of(split_lines(msg))
}

/// Splits a reply into the lines actually sent to the chat transport.
pub fn split_long_message_for_irc(msg: &str) -> (r: Vec<String>)
    ensures
        strings_view(r@) == split_spec(msg@),
{
    let n = msg.unicode_len();
    let mut out: Vec<String> = Vec::new();
    let mut p: usize = 0;
    proof {
        assert(msg@.skip(0) =~= msg@);
        assert(strings_view(out@) + split_spec(msg@) =~= split_spec(msg@));
    }
    loop
        invariant_except_break
            0 <= p <= n,
            n == msg@.len(),
            split_spec(msg@) == strings_view(out@) + reply_lines_of(split_lines(msg@.skip(p as int))),
        ensures
            strings_view(out@) == split_spec(msg@),
        decreases n - p,
    {
        if p == n {
            proof {
                assert(msg@.skip(p as int).len() == 0);
                assert(strings_view(out@) + reply_lines_of(split_lines(msg@.skip(p as int)))
                    =~= strings_view(out@));
            }
            break;
        }
        let ghost rest = msg@.skip(p as int);
        proof {
            assert(forall|k: int| 0 <= k < rest.len() ==> rest[k] == msg@[p + k]);
        }
        // the current line runs to the next line feed
        let mut e: usize = p;
        while e < n && msg.get_char(e) != '\n'
            invariant
                p <= e <= n,
                n == msg@.len(),
                forall|k: int| p <= k < e ==> msg@[k] != '\n',
            decreases n - e,
        {
            e += 1;
        }
        proof {
            lemma_first_char(rest, '\n', e - p);
        }
        let mut end = e;
        if end > p && msg.get_char(end - 1) == '\r' {
            end -= 1;
        }
        let seg = msg.substring_char(p, end);
        proof {
            let head = rest.take(e - p);
            let head2 = if head.len() > 0 && head.last() == '\r' {
                head.drop_last()
            } else {
                head
            };
            assert(seg@ =~= head2);
        }
        let ghost pre_out = strings_view(out@);
        let tseg = trim_str(seg);
        if tseg.unicode_len() != 0 {
            let ws = wrap_line(seg);
            let mut j: usize = 0;
            proof {
                assert(strings_view(out@) =~= pre_out + strip_all(wrapped_lines(seg@)).take(0));
            }
            while j < ws.len()
                invariant
                    0 <= j <= ws@.len(),
                    strings_view(ws@) == wrapped_lines(seg@),
                    strings_view(out@) == pre_out + strip_all(wrapped_lines(seg@)).take(j as int),
                decreases ws@.len() - j,
            {
                let ghost pre = out@;
                let cleaned = strip_ctl_str(ws[j].as_str());
                let ghost cv = cleaned@;
                out.push(cleaned);
                j += 1;
                proof {
                    let w = wrapped_lines(seg@);
                    assert(strings_view(ws@)[j - 1] == ws@[j - 1]@);
                    assert(cv == strip_ctl(w[j - 1]));
                    lemma_strings_view_push(pre, out@.last());
                    assert(out@.drop_last() =~= pre);
                    assert(strings_view(out@) == strings_view(pre).push(cv));
                    assert(strip_all(w)[j - 1] == strip_ctl(w[j - 1]));
                    assert(strip_all(w).take(j - 1).push(strip_all(w)[j - 1]) =~= strip_all(
                        w,
                    ).take(j as int));
                    assert((pre_out + strip_all(w).take(j - 1)).push(strip_all(w)[j - 1])
                        =~= pre_out + strip_all(w).take(j - 1).push(strip_all(w)[j - 1]));
                }
            }
            proof {
                assert(strip_all(wrapped_lines(seg@)).take(wrapped_lines(seg@).len() as int)
                    =~= strip_all(wrapped_lines(seg@)));
            }
        }
        proof {
            // one unfolding of the remaining work
            let lines = split_lines(rest);
            if e < n {
                assert(rest.skip(e - p + 1) =~= msg@.skip(e + 1));
            }
            if trim_seq(seg@).len() == 0 {
                assert(strings_view(out@) =~= pre_out);
            }
            assert(lines.drop_first() =~= (if e < n {
                split_lines(msg@.skip(e + 1))
            } else {
                Seq::<Seq<char>>::empty()
            }));
            assert((pre_out + (if trim_seq(seg@).len() == 0 {
                Seq::<Seq<char>>::empty()
            } else {
                strip_all(wrapped_lines(seg@))
            })) + reply_lines_of(lines.drop_first()) =~= pre_out + reply_lines_of(lines));
        }
        if e < n {
            p = e + 1;
        } else {
            proof {
                assert(split_lines(msg@.skip(p as int)).drop_first().len() == 0);
                assert(strings_view(out@) + reply_lines_of(Seq::<Seq<char>>::empty())
                    =~= strings_view(out@));
            }
            break;
        }
    }
    out
}

/// The weighted cost of one reply line: one, plus one for every started
/// 150 bytes of its trimmed text (the ceiling of the byte length over 150).
pub open spec fn line_weight(l: Seq<char>) -> int {
    1 + ((encode_utf8(trim_seq(l)).len() as usize) + 149) / 150
}

/// The guarded form a machine computes equals the ceiling form.
proof fn lemma_ceil150(n: int)
    requires
        n >= 1,
    ensures
        (n + 149) / 150 == (n - 1) / 150 + 1,
{
    vstd::arithmetic::div_mod::lemma_fundamental_div_mod(n - 1, 150);
    let q = (n - 1) / 150;
    let r = (n - 1) % 150;
    vstd::arithmetic::div_mod::lemma_fundamental_div_mod_converse(n + 149, 150, q + 1, r);
}

pub open spec fn weight_sum(ls: Seq<Seq<char>>) -> int
    decreases ls.len(),
{
    if ls.len() == 0 {
        0
    } else {
        weight_sum(ls.drop_last()) + line_weight(ls.last())
    }
}

/// The line budget of one reply; weighing more than this overflows to an
/// upload.
pub open spec fn reply_budget() -> int {
    8
}

/// How many leading lines fit: the longest prefix whose running weighted
/// count, starting from `acc`, stays within the budget.
pub open spec fn inline_count(ls: Seq<Seq<char>>, acc: int) -> int
    decreases ls.len(),
{
    if ls.len() == 0 {
        0
    } else if acc + line_weight(ls[0]) <= reply_budget() {
        1 + inline_count(ls.drop_first(), acc + line_weight(ls[0]))
    } else {
        0
    }
}

pub open spec fn trimmed_all(ls: Seq<Seq<char>>) -> Seq<Seq<char>> {
    Seq::new(ls.len(), |i: int| trim_seq(ls[i]))
}

proof fn lemma_weight_sum_prefix(ls: Seq<Seq<char>>, j: int)
    requires
        0 <= j <= ls.len(),
    ensures
        weight_sum(ls) >= weight_sum(ls.take(j)),
    decreases ls.len(),
{
    if ls.len() == 0 {
    } else if j == ls.len() {
        assert(ls.take(j) =~= ls);
    } else {
        let t = ls.drop_last();
        lemma_weight_sum_prefix(t, j);
        assert(t.take(j) =~= ls.take(j));
        assert(line_weight(ls.last()) >= 1);
    }
}

/// Decides how a reply is delivered: the returned lines, trimmed, are sent
/// inline, and the flag says the reply weighed more than its line budget,
/// so an uploaded-content link must follow instead of the remaining text.
/// A reply producing more than the budget in weighted lines always
/// overflows; one within the budget always goes inline whole.
pub fn plan_long_message(lines: &Vec<String>) -> (r: (Vec<String>, bool))
    ensures
        strings_view(r.0@) == trimmed_all(
            strings_view(lines@).take(inline_count(strings_view(lines@), 0)),
        ),
        r.1 == (weight_sum(strings_view(lines@)) > reply_budget()),
{
    let ghost all = strings_view(lines@);
    let n = lines.len();
    let mut out: Vec<String> = Vec::new();
    let mut length: u64 = 0;
    let mut overflow = false;
    let mut k: usize = 0;
    proof {
        assert(all.skip(0) =~= all);
        assert(all.take(0).len() == 0);
        assert(strings_view(out@) =~= trimmed_all(all.take(0)));
    }
    loop
        invariant_except_break
            0 <= k <= n,
            n == lines@.len(),
            all == strings_view(lines@),
            !overflow,
            out@.len() == k,
            length <= reply_budget(),
            length == weight_sum(all.take(k as int)),
            inline_count(all, 0) == k + inline_count(all.skip(k as int), length as int),
            strings_view(out@) == trimmed_all(all.take(k as int)),
        ensures
            strings_view(out@) == trimmed_all(all.take(inline_count(all, 0))),
            overflow == (weight_sum(all) > reply_budget()),
        decreases n - k,
    {
        if k == n {
            proof {
                assert(all.take(k as int) =~= all);
                assert(all.skip(k as int).len() == 0);
            }
            break;
        }
        let tl = trim_str(lines[k].as_str());
        let len = tl.len();
        let blocks: usize = if len == 0 {
            0
        } else {
            (len - 1) / 150 + 1
        };
        let w: u64 = 1 + blocks as u64;
        proof {
            if len >= 1 {
                lemma_ceil150(len as int);
            }
            assert(tl@ == trim_seq(all[k as int]));
            assert(w == line_weight(all[k as int]));
            assert(all.take(k + 1).drop_last() =~= all.take(k as int));
            assert(all.take(k + 1).last() == all[k as int]);
            assert(all.skip(k as int)[0] == all[k as int]);
            assert(all.skip(k as int).drop_first() =~= all.skip(k + 1));
        }
        length += w;
        if length <= 8 {
            let ghost pre = out@;
            out.push(tl.to_owned());
            k += 1;
            proof {
                lemma_strings_view_push(pre, out@.last());
                assert(out@.drop_last() =~= pre);
                assert(out@.last()@ == trim_seq(all[k - 1]));
                assert forall|q: int| 0 <= q < out@.len() implies strings_view(out@)[q]
                    == trimmed_all(all.take(k as int))[q] by {
                    assert(trimmed_all(all.take(k as int))[q] == trim_seq(all[q]));
                    if q < out@.len() - 1 {
                        assert(strings_view(out@)[q] == strings_view(pre)[q]);
                        assert(strings_view(pre)[q] == trimmed_all(all.take(k - 1))[q]);
                        assert(trimmed_all(all.take(k - 1))[q] == trim_seq(all[q]));
                    } else {
                        assert(strings_view(out@)[q] == strings_view(pre).push(out@.last()@)[q]);
                    }
                }
                assert(strings_view(out@) =~= trimmed_all(all.take(k as int)));
            }
        } else {
            overflow = true;
            proof {
                assert(inline_count(all.skip(k as int), weight_sum(all.take(k as int))) == 0);
                lemma_weight_sum_prefix(all, k + 1);
                assert(weight_sum(all) > reply_budget());
                assert(all.take(inline_count(all, 0)) =~= all.take(k as int));
            }
            break;
        }
    }
    (out, overflow)
}

/// The reply text with the agent's own address prefix removed: after
/// leading whitespace, a `Charbot9000:` or `<Charbot9000>` prefix is
/// stripped, and the remainder is trimmed.
pub open spec fn trim_botname_view(msg: Seq<char>) -> Seq<char> {
    let t = trim_start_seq(msg);
    if has_prefix(t, "Charbot9000:"@) {
        trim_seq(t.skip("Charbot9000:"@.len() as int))
    } else if has_prefix(t, "<Charbot9000>"@) {
        trim_seq(t.skip("<Charbot9000>"@.len() as int))
    } else {
        trim_seq(t)
    }
}

/// Removes the agent's own name from the front of a reply line.
pub fn trim_botname(msg: &str) -> (r: &str)
    ensures
        r@ == trim_botname_view(msg@),
{
    let n = msg.unicode_len();
    let mut i: usize = 0;
    while i < n && is_space_char(msg.get_char(i))
        invariant
            0 <= i <= n,
            n == msg@.len(),
            forall|k: int| 0 <= k < i ==> is_space(msg@[k]),
        decreases n - i,
    {
        i += 1;
    }
    proof {
        lemma_trim_start_is_suffix(msg@, i as int);
    }
    let t = msg.substring_char(i, n);
    proof {
        assert(t@ =~= trim_start_seq(msg@));
    }
    let tn = t.unicode_len();
    if str_has_prefix(t, "Charbot9000:") {
        let rest = t.substring_char("Charbot9000:".unicode_len(), tn);
        proof {
            assert(rest@ =~= t@.skip("Charbot9000:"@.len() as int));
        }
        trim_str(rest)
    } else if str_has_prefix(t, "<Charbot9000>") {
        let rest = t.substring_char("<Charbot9000>".unicode_len(), tn);
        proof {
            assert(rest@ =~= t@.skip("<Charbot9000>"@.len() as int));
        }
        trim_str(rest)
    } else {
        trim_str(t)
    }
}

} // verus!
