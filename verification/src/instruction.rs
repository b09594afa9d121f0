//! The command-directive parser: recognises the trigger forms of a chat line
//! and extracts the message text and options.

use vstd::prelude::*;
use vstd::string::{StrSliceExecFns, StringExecFns};
use crate::chars::{
    first_ascii_ws, first_char, has_prefix, is_ascii_space, is_ascii_space_char, lemma_first_ascii_ws,
    lemma_first_char, str_has_prefix, trim_seq, trim_str, eq_str,
};
use crate::temp::{clamp_temp, clamp_temp_spec, parse_temp, parse_temp_spec};

verus! {

/// A parsed directive: the message text and its options.
pub struct InstructionView {
    pub msg: Seq<char>,
    /// thousandths, in [0, `TEMP_MAX`]
    pub temp: u32,
    pub context: bool,
    pub save: bool,
    pub pastebin: bool,
    pub tts: bool,
}

/// All options at their baseline; the temperature defaults to the
/// process-wide value, clamped into range.
pub open spec fn default_view(msg: Seq<char>, default_temp: u32) -> InstructionView {
    InstructionView {
        msg,
        temp: clamp_temp_spec(default_temp),
        context: true,
        save: true,
        pastebin: false,
        tts: false,
    }
}

/// The command word that opens the first trigger form.
pub open spec fn chat_cmd() -> Seq<char> {
    "!chat"@
}

/// The address-to-agent prefixes of the third trigger form.
pub open spec fn addr_colon() -> Seq<char> {
    "Charbot9000:"@
}

pub open spec fn addr_comma() -> Seq<char> {
    "Charbot9000,"@
}

/// A loose true/false token: `y`/`yes`/`true`/`on` or `n`/`no`/`false`/`off`;
/// anything else means nothing.
pub open spec fn boolish(v: Option<Seq<char>>) -> Option<bool> {
    match v {
        Option::None => Option::None,
        Option::Some(s) => {
            if s == "y"@ || s == "yes"@ || s == "true"@ || s == "on"@ {
                Option::Some(true)
            } else if s == "n"@ || s == "no"@ || s == "false"@ || s == "off"@ {
                Option::Some(false)
            } else {
                Option::None
            }
        },
    }
}

pub open spec fn opt_str_view(v: Option<&str>) -> Option<Seq<char>> {
    match v {
        Option::None => Option::None,
        Option::Some(s) => Option::Some(s@),
    }
}

/// Reads a loose true/false token.
pub fn boolify(v: Option<&str>) -> (r: Option<bool>)
    ensures
        r == boolish(opt_str_view(v)),
{
    match v {
        Option::None => Option::None,
        Option::Some(s) => {
            if eq_str(s, "y") || eq_str(s, "yes") || eq_str(s, "true") || eq_str(s, "on") {
                Option::Some(true)
            } else if eq_str(s, "n") || eq_str(s, "no") || eq_str(s, "false") || eq_str(s, "off") {
                Option::Some(false)
            } else {
                Option::None
            }
        },
    }
}

/// One option token, `key` or `key=value`, folded into a directive:
/// `context` and `save` take a boolish value, `paste`/`pastebin` and `tts`
/// default to true without one, `temp` takes a float literal clamped into
/// range, and an unrecognised key or unreadable value changes nothing.
pub open spec fn update_view(i: InstructionView, cmd: Seq<char>) -> InstructionView {
    let e = first_char(cmd, '=');
    let key = cmd.take(e);
    let val = if e < cmd.len() {
        Option::Some(cmd.skip(e + 1))
    } else {
        Option::None
    };
    if key == "context"@ {
        match boolish(val) {
            Option::Some(b) => InstructionView { context: b, ..i },
            Option::None => i,
        }
    } else if key == "save"@ {
        match boolish(val) {
            Option::Some(b) => InstructionView { save: b, ..i },
            Option::None => i,
        }
    } else if key == "paste"@ || key == "pastebin"@ {
        match boolish(val) {
            Option::Some(b) => InstructionView { pastebin: b, ..i },
            Option::None => InstructionView { pastebin: true, ..i },
        }
    } else if key == "temp"@ {
        match val {
            Option::Some(vs) => match parse_temp_spec(vs) {
                Option::Some(t) => InstructionView { temp: t, ..i },
                Option::None => i,
            },
            Option::None => i,
        }
    } else if key == "tts"@ {
        match boolish(val) {
            Option::Some(b) => InstructionView { tts: b, ..i },
            Option::None => InstructionView { tts: true, ..i },
        }
    } else {
        i
    }
}

/// An option-block separator inside the first trigger form.
pub open spec fn is_delim(c: char) -> bool {
    c == ':' || c == ',' || c == '/'
}

fn is_delim_char(c: char) -> (r: bool)
    ensures
        r == is_delim(c),
{
    c == ':' || c == ',' || c == '/'
}

/// Index of the first option-block separator, or the length when absent.
pub open spec fn first_delim(s: Seq<char>) -> int
    decreases s.len(),
{
    if s.len() == 0 {
        0
    } else if is_delim(s[0]) {
        0
    } else {
        1 + first_delim(s.drop_first())
    }
}

pub proof fn lemma_first_delim(s: Seq<char>, i: int)
    requires
        0 <= i <= s.len(),
        forall|k: int| 0 <= k < i ==> !is_delim(s[k]),
        i == s.len() || is_delim(s[i]),
    ensures
        first_delim(s) == i,
    decreases i,
{
    if i == 0 {
    } else {
        let t = s.drop_first();
        assert(forall|k: int| 0 <= k < i - 1 ==> !is_delim(t[k]));
        lemma_first_delim(t, i - 1);
    }
}

pub proof fn lemma_first_delim_bounds(s: Seq<char>)
    ensures
        0 <= first_delim(s) <= s.len(),
    decreases s.len(),
{
    if s.len() == 0 {
    } else if is_delim(s[0]) {
    } else {
        lemma_first_delim_bounds(s.drop_first());
    }
}

/// An option block folded left to right: one `update_view` per token, the
/// tokens cut at each separator (so consecutive separators give empty
/// tokens, which change nothing).
pub open spec fn apply_block(i: InstructionView, s: Seq<char>) -> InstructionView
    decreases s.len(),
    via apply_block_dec
{
    let e = first_delim(s);
    let i2 = update_view(i, s.take(e));
    if e < s.len() {
        apply_block(i2, s.skip(e + 1))
    } else {
        i2
    }
}

#[via_fn]
proof fn apply_block_dec(i: InstructionView, s: Seq<char>) {
    lemma_first_delim_bounds(s);
}

/// The `--key[=value]` form: leading whitespace-separated tokens that start
/// with `--` are options; the message text runs from the first other token
/// to the end of the line, trimmed.  When every token is an option the
/// message is empty.
pub open spec fn parse_dash(data: Seq<char>, i: InstructionView) -> InstructionView
    decreases data.len(),
    via parse_dash_dec
{
    if data.len() == 0 {
        InstructionView { msg: Seq::<char>::empty(), ..i }
    } else if is_ascii_space(data[0]) {
        parse_dash(data.drop_first(), i)
    } else {
        let e = first_ascii_ws(data);
        let tok = data.take(e);
        if tok.len() >= 2 && tok[0] == '-' && tok[1] == '-' {
            parse_dash(data.skip(e), update_view(i, tok.skip(2)))
        } else {
            InstructionView { msg: trim_seq(data), ..i }
        }
    }
}

#[via_fn]
proof fn parse_dash_dec(data: Seq<char>, i: InstructionView) {
    if data.len() > 0 && !is_ascii_space(data[0]) {
        crate::chars::lemma_first_ascii_ws_bounds(data);
    }
}

/// What follows the bare command word: nothing, an option block opened by
/// `/` or `:` and cut at the first space, or the `--` form.
pub open spec fn parse_after_cmd(data: Seq<char>, dt: u32) -> InstructionView {
    if data.len() == 0 {
        default_view(Seq::<char>::empty(), dt)
    } else if data[0] == '/' || data[0] == ':' {
        let body = data.drop_first();
        let sp = first_char(body, ' ');
        let cmds = body.take(sp);
        let i2 = apply_block(default_view(Seq::<char>::empty(), dt), cmds);
        let m = if sp < body.len() {
            trim_seq(body.skip(sp + 1))
        } else {
            Seq::<char>::empty()
        };
        InstructionView { msg: m, ..i2 }
    } else {
        parse_dash(data, default_view(Seq::<char>::empty(), dt))
    }
}

/// A line matches some trigger form: the command word after trimming, or an
/// address-to-agent prefix at the very front.
pub open spec fn is_trigger(line: Seq<char>) -> bool {
    has_prefix(trim_seq(line), chat_cmd()) || has_prefix(line, addr_colon()) || has_prefix(
        line,
        addr_comma(),
    )
}

/// The directive a line parses to, or nothing when no trigger form matches.
pub open spec fn parse_view(line: Seq<char>, default_temp: u32) -> Option<InstructionView> {
    let t = trim_seq(line);
    if has_prefix(t, chat_cmd()) {
        Option::Some(parse_after_cmd(t.skip(chat_cmd().len() as int), default_temp))
    } else if has_prefix(line, addr_colon()) {
        Option::Some(default_view(trim_seq(line.skip(addr_colon().len() as int)), default_temp))
    } else if has_prefix(line, addr_comma()) {
        Option::Some(default_view(trim_seq(line.skip(addr_comma().len() as int)), default_temp))
    } else {
        Option::None
    }
}

pub open spec fn opt_inst_view(r: Option<ChatInstruction>) -> Option<InstructionView> {
    match r {
        Option::None => Option::None,
        Option::Some(i) => Option::Some(i@),
    }
}

/// A parsed chat directive.
pub struct ChatInstruction {
    /// The message text.
    pub msg: String,
    /// Sampling temperature in thousandths, in [0, `TEMP_MAX`].
    pub temp: u32,
    /// Whether to send previous turns as context.
    pub context: bool,
    /// Whether to save this message and its reply as context.
    pub save: bool,
    /// Whether to reply with only an uploaded-content link.
    pub pastebin: bool,
    /// Whether to reply with synthesised audio.
    pub tts: bool,
}

impl View for ChatInstruction {
    type V = InstructionView;

    open spec fn view(&self) -> InstructionView {
        InstructionView {
            msg: self.msg@,
            temp: self.temp,
            context: self.context,
            save: self.save,
            pastebin: self.pastebin,
            tts: self.tts,
        }
    }
}

impl ChatInstruction {
    /// A directive with the given message and every option at its default.
    pub fn default(s: &str, default_temp: u32) -> (r: ChatInstruction)
        ensures
            r@ == default_view(s@, default_temp),
    {
        ChatInstruction {
            msg: s.to_owned(),
            temp: clamp_temp(default_temp),
            context: true,
            save: true,
            pastebin: false,
            tts: false,
        }
    }

    /// Folds one option token of the form `key` or `key=value` into this
    /// directive.
    pub fn update(&mut self, cmd: &str)
        ensures
            final(self)@ == update_view(old(self)@, cmd@),
    {
        let n = cmd.unicode_len();
        let mut e: usize = 0;
        while e < n && cmd.get_char(e) != '='
            invariant
                0 <= e <= n,
                n == cmd@.len(),
                forall|k: int| 0 <= k < e ==> cmd@[k] != '=',
            decreases n - e,
        {
            e += 1;
        }
        proof {
            lemma_first_char(cmd@, '=', e as int);
        }
        let key = cmd.substring_char(0, e);
        proof {
            assert(key@ =~= cmd@.take(e as int));
        }
        let val: Option<&str> = if e < n {
            let v = cmd.substring_char(e + 1, n);
            proof {
                assert(v@ =~= cmd@.skip(e + 1));
            }
            Option::Some(v)
        } else {
            Option::None
        };
        proof {
            assert(opt_str_view(val) == (if e < n {
                Option::Some(cmd@.skip(e + 1))
            } else {
                Option::<Seq<char>>::None
            }));
        }
        if eq_str(key, "context") {
            if let Option::Some(b) = boolify(val) {
                self.context = b;
            }
        } else if eq_str(key, "save") {
            if let Option::Some(b) = boolify(val) {
                self.save = b;
            }
        } else if eq_str(key, "paste") || eq_str(key, "pastebin") {
            match boolify(val) {
                Option::Some(b) => {
                    self.pastebin = b;
                },
                Option::None => {
                    self.pastebin = true;
                },
            }
        } else if eq_str(key, "temp") {
            match val {
                Option::Some(vs) => {
                    if let Option::Some(t) = parse_temp(vs) {
                        self.temp = t;
                    }
                },
                Option::None => {},
            }
        } else if eq_str(key, "tts") {
            match boolify(val) {
                Option::Some(b) => {
                    self.tts = b;
                },
                Option::None => {
                    self.tts = true;
                },
            }
        }
    }
}

/// A directive with an empty message and every option at its default.
fn empty_default(dt: u32) -> (r: ChatInstruction)
    ensures
        r@ == default_view(Seq::<char>::empty(), dt),
{
    ChatInstruction {
        msg: String::new(),
        temp: clamp_temp(dt),
        context: true,
        save: true,
        pastebin: false,
        tts: false,
    }
}

/// The option-block form: `data` starts with `/` or `:`.
fn parse_block_exec(data: &str, dt: u32) -> (r: ChatInstruction)
    requires
        data@.len() > 0,
        data@[0] == '/' || data@[0] == ':',
    ensures
        r@ == parse_after_cmd(data@, dt),
{
    let n = data.unicode_len();
    let ghost body = data@.drop_first();

    // the block runs to the first space
    let mut sp: usize = 1;
    while sp < n && data.get_char(sp) != ' '
        invariant
            1 <= sp <= n,
            n == data@.len(),
            forall|k: int| 1 <= k < sp ==> data@[k] != ' ',
        decreases n - sp,
    {
        sp += 1;
    }
    proof {
        assert(forall|k: int| 0 <= k < body.len() ==> body[k] == data@[k + 1]);
        lemma_first_char(body, ' ', sp - 1);
    }

    let mut inst = empty_default(dt);
    let ghost i0 = default_view(Seq::<char>::empty(), dt);
    let ghost cmds = body.take(sp - 1);
    let mut p: usize = 1;
    proof {
        assert(cmds =~= data@.subrange(1, sp as int));
    }
    loop
        invariant_except_break
            1 <= p <= sp <= n,
            n == data@.len(),
            body == data@.drop_first(),
            cmds == body.take(sp - 1),
            forall|k: int| 1 <= k < sp ==> data@[k] != ' ',
            apply_block(i0, cmds) == apply_block(inst@, data@.subrange(p as int, sp as int)),
        ensures
            inst@ == apply_block(i0, cmds),
        decreases sp - p,
    {
        let mut q: usize = p;
        while q < sp && !is_delim_char(data.get_char(q))
            invariant
                p <= q <= sp <= n,
                n == data@.len(),
                forall|k: int| p <= k < q ==> !is_delim(data@[k]),
            decreases sp - q,
        {
            q += 1;
        }
        let ghost rem = data@.subrange(p as int, sp as int);
        proof {
            assert(forall|k: int| 0 <= k < rem.len() ==> rem[k] == data@[p + k]);
            lemma_first_delim(rem, q - p);
        }
        let tok = data.substring_char(p, q);
        proof {
            assert(tok@ =~= rem.take(q - p));
        }
        inst.update(tok);
        if q < sp {
            proof {
                assert(rem.skip(q - p + 1) =~= data@.subrange(q + 1, sp as int));
            }
            p = q + 1;
        } else {
            proof {
                assert(q == sp);
                assert(rem.take(q - p) =~= rem);
            }
            break;
        }
    }

    if sp < n {
        let tail = data.substring_char(sp + 1, n);
        proof {
            assert(tail@ =~= body.skip(sp - 1 + 1));
        }
        let m = trim_str(tail);
        inst.msg = m.to_owned();
    } else {
        inst.msg = String::new();
    }
    inst
}

/// The `--key[=value]` form.
fn parse_dash_exec(data: &str, dt: u32) -> (r: ChatInstruction)
    ensures
        r@ == parse_dash(data@, default_view(Seq::<char>::empty(), dt)),
{
    let n = data.unicode_len();
    let mut inst = empty_default(dt);
    let ghost i0 = default_view(Seq::<char>::empty(), dt);
    let mut p: usize = 0;
    proof {
        assert(data@.skip(0) =~= data@);
    }
    loop
        invariant_except_break
            0 <= p <= n,
            n == data@.len(),
            inst@.msg == Seq::<char>::empty(),
            parse_dash(data@, i0) == parse_dash(data@.skip(p as int), inst@),
        ensures
            inst@ == parse_dash(data@, i0),
        decreases n - p,
    {
        if p == n {
            proof {
                assert(data@.skip(p as int).len() == 0);
            }
            // the message stays empty
            break;
        }
        let c = data.get_char(p);
        let ghost rest = data@.skip(p as int);
        proof {
            assert(forall|k: int| 0 <= k < rest.len() ==> rest[k] == data@[p + k]);
            assert(rest[0] == c);
        }
        if is_ascii_space_char(c) {
            proof {
                assert(rest.drop_first() =~= data@.skip(p + 1));
            }
            p += 1;
        } else {
            // scan the token
            let mut e: usize = p;
            while e < n && !is_ascii_space_char(data.get_char(e))
                invariant
                    p <= e <= n,
                    n == data@.len(),
                    forall|k: int| p <= k < e ==> !is_ascii_space(data@[k]),
                decreases n - e,
            {
                e += 1;
            }
            proof {
                lemma_first_ascii_ws(rest, e - p);
            }
            if e - p >= 2 && data.get_char(p) == '-' && data.get_char(p + 1) == '-' {
                let tok = data.substring_char(p + 2, e);
                proof {
                    let stok = rest.take(e - p);
                    assert(stok[0] == data@[p as int]);
                    assert(stok[1] == data@[p + 1]);
                    assert(tok@ =~= stok.skip(2));
                    assert(rest.skip(e - p) =~= data@.skip(e as int));
                }
                inst.update(tok);
                p = e;
            } else {
                proof {
                    let stok = rest.take(e - p);
                    if stok.len() >= 2 {
                        assert(stok[0] == data@[p as int]);
                        assert(stok[1] == data@[p + 1]);
                    }
                }
                let tail = data.substring_char(p, n);
                proof {
                    assert(tail@ =~= rest);
                }
                let m = trim_str(tail);
                inst.msg = m.to_owned();
                break;
            }
        }
    }
    inst
}

/// Parses one chat line against the three trigger forms, in their precedence
/// order; yields nothing for an ordinary line.  `default_temp` is the
/// process-wide temperature (thousandths) that a directive starts from.
pub fn get_chat_instruction(line: &str, default_temp: u32) -> (r: Option<ChatInstruction>)
    ensures
        opt_inst_view(r) == parse_view(line@, default_temp),
        r is Some <==> is_trigger(line@),
{
    let t = trim_str(line);
    let tn = t.unicode_len();
    if str_has_prefix(t, "!chat") {
        let cl = "!chat".unicode_len();
        let data = t.substring_char(cl, tn);
        proof {
            assert(data@ =~= trim_seq(line@).skip(chat_cmd().len() as int));
        }
        let dn = data.unicode_len();
        if dn == 0 {
            Option::Some(empty_default(default_temp))
        } else {
            let c0 = data.get_char(0);
            if c0 == '/' || c0 == ':' {
                Option::Some(parse_block_exec(data, default_temp))
            } else {
                Option::Some(parse_dash_exec(data, default_temp))
            }
        }
    } else if str_has_prefix(line, "Charbot9000:") {
        let rest = line.substring_char("Charbot9000:".unicode_len(), line.unicode_len());
        proof {
            assert(rest@ =~= line@.skip(addr_colon().len() as int));
        }
        Option::Some(ChatInstruction::default(trim_str(rest), default_temp))
    } else if str_has_prefix(line, "Charbot9000,") {
        let rest = line.substring_char("Charbot9000,".unicode_len(), line.unicode_len());
        proof {
            assert(rest@ =~= line@.skip(addr_comma().len() as int));
        }
        Option::Some(ChatInstruction::default(trim_str(rest), default_temp))
    } else {
        Option::None
    }
}

} // verus!
