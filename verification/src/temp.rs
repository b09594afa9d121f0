//! Sampling temperature: a fixed-point model (thousandths, clamped to
//! [0, 2.000]) of the bounded float setting, a verified parser for option
//! values with the grammar of a float literal, and the process-wide atomic
//! cell.

use vstd::prelude::*;
use vstd::string::StrSliceExecFns;
use vstd::arithmetic::div_mod::lemma_fundamental_div_mod_converse;
use crate::chars::{digit_val, first_char, is_digit, is_digit_char, lemma_first_char};
use crate::TEMP_MAX;
use core::sync::atomic::{AtomicU32, Ordering};

verus! {

pub open spec fn all_digits(s: Seq<char>) -> bool {
    forall|k: int| 0 <= k < s.len() ==> is_digit(s[k])
}

/// Value of a digit string read left to right.
pub open spec fn digits_val(s: Seq<char>) -> int
    decreases s.len(),
{
    if s.len() == 0 {
        0
    } else {
        digits_val(s.drop_last()) * 10 + digit_val(s.last())
    }
}

pub open spec fn pow10(k: nat) -> int
    decreases k,
{
    if k == 0 {
        1
    } else {
        10 * pow10((k - 1) as nat)
    }
}

proof fn lemma_pow10_pos(k: nat)
    ensures
        pow10(k) >= 1,
    decreases k,
{
    if k > 0 {
        lemma_pow10_pos((k - 1) as nat);
    }
}

proof fn lemma_pow10_add(a: nat, b: nat)
    ensures
        pow10(a + b) == pow10(a) * pow10(b),
    decreases a,
{
    if a == 0 {
    } else {
        lemma_pow10_add((a - 1) as nat, b);
        assert(pow10(a + b) == 10 * pow10((a + b - 1) as nat));
        assert(10 * (pow10((a - 1) as nat) * pow10(b)) == (10 * pow10((a - 1) as nat)) * pow10(b))
            by (nonlinear_arith);
    }
}

proof fn lemma_pow10_mono(a: nat, b: nat)
    requires
        a <= b,
    ensures
        pow10(a) <= pow10(b),
{
    lemma_pow10_add(a, (b - a) as nat);
    lemma_pow10_pos(a);
    lemma_pow10_pos((b - a) as nat);
    assert(pow10(a) * pow10((b - a) as nat) >= pow10(a) * 1) by (nonlinear_arith)
        requires
            pow10(a) >= 1,
            pow10((b - a) as nat) >= 1,
    ;
}

proof fn lemma_pow10_small()
    ensures
        pow10(0) == 1,
        pow10(1) == 10,
        pow10(2) == 100,
        pow10(3) == 1000,
        pow10(4) == 10000,
        pow10(5) == 100000,
{
    assert(pow10(0) == 1);
    assert(pow10(1) == 10);
    assert(pow10(2) == 100);
    assert(pow10(3) == 1000);
    assert(pow10(4) == 10000);
    assert(pow10(5) == 100000);
}

proof fn lemma_digits_val_nonneg(s: Seq<char>)
    requires
        all_digits(s),
    ensures
        digits_val(s) >= 0,
    decreases s.len(),
{
    if s.len() > 0 {
        assert(all_digits(s.drop_last()));
        lemma_digits_val_nonneg(s.drop_last());
    }
}

/// A digit string splits at any point into its prefix, scaled by a power of
/// ten, plus its suffix.
proof fn lemma_digits_split(s: Seq<char>, j: int)
    requires
        0 <= j <= s.len(),
    ensures
        digits_val(s) == digits_val(s.take(j)) * pow10((s.len() - j) as nat) + digits_val(
            s.skip(j),
        ),
    decreases s.len(),
{
    if j == s.len() {
        assert(s.take(j) =~= s);
        assert(s.skip(j).len() == 0);
    } else {
        let t = s.drop_last();
        lemma_digits_split(t, j);
        assert(t.take(j) =~= s.take(j));
        assert(s.skip(j).drop_last() =~= t.skip(j));
        assert(s.skip(j).last() == s.last());
        let k = (s.len() - j) as nat;
        let a = digits_val(s.take(j));
        let b = digits_val(t.skip(j));
        let d = digit_val(s.last());
        assert(digits_val(s) == (a * pow10((k - 1) as nat) + b) * 10 + d);
        assert((a * pow10((k - 1) as nat) + b) * 10 + d == a * (10 * pow10((k - 1) as nat)) + (b
            * 10 + d)) by (nonlinear_arith);
        assert(pow10(k) == 10 * pow10((k - 1) as nat));
    }
}

proof fn lemma_digits_bound(s: Seq<char>)
    requires
        all_digits(s),
    ensures
        0 <= digits_val(s) < pow10(s.len() as nat),
    decreases s.len(),
{
    if s.len() == 0 {
    } else {
        let t = s.drop_last();
        assert(all_digits(t));
        lemma_digits_bound(t);
        assert(0 <= digit_val(s.last()) <= 9);
        assert(pow10(s.len() as nat) == 10 * pow10((s.len() - 1) as nat));
    }
}

proof fn lemma_digits_first_nonzero(s: Seq<char>)
    requires
        all_digits(s),
        s.len() >= 1,
        digit_val(s[0]) >= 1,
    ensures
        digits_val(s) >= pow10((s.len() - 1) as nat),
    decreases s.len(),
{
    if s.len() == 1 {
        assert(s.last() == s[0]);
        assert(digits_val(s.drop_last()) == 0);
    } else {
        let t = s.drop_last();
        assert(t[0] == s[0]);
        assert(all_digits(t));
        lemma_digits_first_nonzero(t);
        assert(digit_val(s.last()) >= 0);
        assert(pow10((s.len() - 1) as nat) == 10 * pow10((s.len() - 2) as nat));
    }
}

proof fn lemma_digits_all_zero(s: Seq<char>)
    requires
        forall|k: int| 0 <= k < s.len() ==> digit_val(s[k]) == 0,
    ensures
        digits_val(s) == 0,
    decreases s.len(),
{
    if s.len() > 0 {
        lemma_digits_all_zero(s.drop_last());
        assert(digit_val(s.last()) == 0);
    }
}

/// Leading zero digits do not change a digit string's value.
proof fn lemma_digits_leading_zeros(s: Seq<char>, z: int)
    requires
        0 <= z <= s.len(),
        forall|k: int| 0 <= k < z ==> digit_val(s[k]) == 0,
    ensures
        digits_val(s) == digits_val(s.skip(z)),
{
    lemma_digits_split(s, z);
    lemma_digits_all_zero(s.take(z));
}

/// Dividing a digit string's value by a power of ten truncates to its
/// leading digits.
proof fn lemma_digits_div(s: Seq<char>, j: int)
    requires
        all_digits(s),
        0 <= j <= s.len(),
    ensures
        digits_val(s) / pow10((s.len() - j) as nat) == digits_val(s.take(j)),
{
    lemma_digits_split(s, j);
    let p = pow10((s.len() - j) as nat);
    lemma_pow10_pos((s.len() - j) as nat);
    assert(all_digits(s.skip(j)));
    lemma_digits_bound(s.skip(j));
    assert(pow10(s.skip(j).len() as nat) == p);
    lemma_fundamental_div_mod_converse(
        digits_val(s),
        p,
        digits_val(s.take(j)),
        digits_val(s.skip(j)),
    );
}

/// ASCII letters folded to lower case; anything else unchanged.
pub open spec fn lower(u: u32) -> u32 {
    if 0x41 <= u && u <= 0x5a {
        (u + 0x20) as u32
    } else {
        u
    }
}

/// Case-insensitive equality of ASCII words.
pub open spec fn matches_ci(s: Seq<char>, t: Seq<char>) -> bool {
    s.len() == t.len() && (forall|k: int|
        0 <= k < s.len() ==> lower(s[k] as u32) == lower(t[k] as u32))
}

fn eq_str_ci(a: &str, b: &str) -> (r: bool)
    ensures
        r == matches_ci(a@, b@),
{
    let na = a.unicode_len();
    let nb = b.unicode_len();
    if na != nb {
        return false;
    }
    let mut k: usize = 0;
    while k < na
        invariant
            0 <= k <= na,
            na == a@.len() && na == b@.len(),
            forall|q: int| 0 <= q < k ==> lower(a@[q] as u32) == lower(b@[q] as u32),
        decreases na - k,
    {
        let ca = a.get_char(k) as u32;
        let cb = b.get_char(k) as u32;
        let la = if 0x41 <= ca && ca <= 0x5a {
            ca + 0x20
        } else {
            ca
        };
        let lb = if 0x41 <= cb && cb <= 0x5a {
            cb + 0x20
        } else {
            cb
        };
        if la != lb {
            return false;
        }
        k += 1;
    }
    true
}

/// Index of the first exponent mark, or the length when absent.
pub open spec fn first_exp_mark(s: Seq<char>) -> int
    decreases s.len(),
{
    if s.len() == 0 {
        0
    } else if s[0] == 'e' || s[0] == 'E' {
        0
    } else {
        1 + first_exp_mark(s.drop_first())
    }
}

proof fn lemma_first_exp_mark(s: Seq<char>, i: int)
    requires
        0 <= i <= s.len(),
        forall|k: int| 0 <= k < i ==> s[k] != 'e' && s[k] != 'E',
        i == s.len() || s[i] == 'e' || s[i] == 'E',
    ensures
        first_exp_mark(s) == i,
    decreases i,
{
    if i > 0 {
        let t = s.drop_first();
        assert(forall|k: int| 0 <= k < i - 1 ==> t[k] != 'e' && t[k] != 'E');
        lemma_first_exp_mark(t, i - 1);
    }
}

/// An exponent part is an optional sign and at least one digit.
pub open spec fn exp_ok(s: Seq<char>) -> bool {
    let ds = if s.len() > 0 && (s[0] == '+' || s[0] == '-') {
        s.drop_first()
    } else {
        s
    };
    ds.len() >= 1 && all_digits(ds)
}

pub open spec fn exp_val(s: Seq<char>) -> int {
    let neg = s.len() > 0 && s[0] == '-';
    let ds = if s.len() > 0 && (s[0] == '+' || s[0] == '-') {
        s.drop_first()
    } else {
        s
    };
    if neg {
        -digits_val(ds)
    } else {
        digits_val(ds)
    }
}

/// Thousandths of `ip . fp` times ten to the `e`, truncated toward zero.
pub open spec fn temp_millis(ip: Seq<char>, fp: Seq<char>, e: int) -> int {
    let n = digits_val(ip) * pow10(fp.len() as nat) + digits_val(fp);
    let sh = e + 3 - fp.len();
    if sh >= 0 {
        n * pow10(sh as nat)
    } else {
        n / pow10((-sh) as nat)
    }
}

/// The decimal path of the grammar: a mantissa of digits with at most one
/// point and at least one digit, then an optional exponent part.  A
/// negative value clamps to zero; anything past two clamps to `TEMP_MAX`.
pub open spec fn parse_decimal_spec(body: Seq<char>, neg: bool) -> Option<u32> {
    let em = first_exp_mark(body);
    let mant = body.take(em);
    let has_e = em < body.len();
    let es = if has_e {
        body.skip(em + 1)
    } else {
        Seq::<char>::empty()
    };
    let dot = first_char(mant, '.');
    let ip = mant.take(dot);
    let fp = if dot < mant.len() {
        mant.skip(dot + 1)
    } else {
        Seq::<char>::empty()
    };
    if all_digits(ip) && all_digits(fp) && ip.len() + fp.len() >= 1 && (has_e ==> exp_ok(es)) {
        if neg {
            Option::Some(0u32)
        } else {
            let mm = temp_millis(
                ip,
                fp,
                if has_e {
                    exp_val(es)
                } else {
                    0
                },
            );
            Option::Some(
                if mm > TEMP_MAX {
                    TEMP_MAX
                } else {
                    mm as u32
                },
            )
        }
    } else {
        Option::None
    }
}

/// The temperature an option value names, in thousandths, clamped to
/// [0, `TEMP_MAX`].  The grammar is that of a float literal: an optional
/// sign, then `inf`, `infinity` or `nan` (case-insensitively), or digits
/// with at most one point and an optional `e`/`E` exponent.  An infinity
/// clamps like any out-of-range value; `nan` names no temperature and is
/// ignored, as is anything the grammar refuses.
pub open spec fn parse_temp_spec(s: Seq<char>) -> Option<u32> {
    let signed = s.len() > 0 && (s[0] == '-' || s[0] == '+');
    let neg = s.len() > 0 && s[0] == '-';
    let body = if signed {
        s.drop_first()
    } else {
        s
    };
    if matches_ci(body, "inf"@) || matches_ci(body, "infinity"@) {
        Option::Some(
            if neg {
                0u32
            } else {
                TEMP_MAX
            },
        )
    } else if matches_ci(body, "nan"@) {
        Option::None
    } else {
        parse_decimal_spec(body, neg)
    }
}

/// The exponent accumulator saturates here; a true exponent at or past it
/// puts the value out of range in the same direction.
const EXP_SAT: i128 = 1000000000000000000000000000000;

/// A window of leading significant digits decides the clamped value: with
/// `q` integer digits left after the shift, anything past four clamps,
/// anything at most zero truncates to nothing, and in between the value is
/// exactly the leading significant digits, scaled.
proof fn lemma_window(sig: Seq<char>, sh: int)
    requires
        all_digits(sig),
        sig.len() >= 1,
        digit_val(sig[0]) >= 1,
    ensures
        ({
            let v = if sh >= 0 {
                digits_val(sig) * pow10(sh as nat)
            } else {
                digits_val(sig) / pow10((-sh) as nat)
            };
            let q = sig.len() + sh;
            &&& v >= 0
            &&& (q <= 0 ==> v == 0)
            &&& (q >= 5 ==> v > TEMP_MAX)
            &&& ((1 <= q && q <= 4 && sh >= 0) ==> v == digits_val(sig) * pow10(
                (q - sig.len()) as nat,
            ))
            &&& ((1 <= q && q <= 4 && sh < 0) ==> v == digits_val(sig.take(q)))
        }),
{
    let d = digits_val(sig);
    let l = sig.len() as int;
    lemma_digits_bound(sig);
    lemma_digits_first_nonzero(sig);
    lemma_pow10_small();
    if sh >= 0 {
        let p = pow10(sh as nat);
        lemma_pow10_pos(sh as nat);
        assert(d * p >= 0) by (nonlinear_arith)
            requires
                d >= 0,
                p >= 0,
        ;
        if l + sh >= 5 {
            lemma_pow10_add((l - 1) as nat, sh as nat);
            assert(d * p >= pow10((l - 1) as nat) * p) by (nonlinear_arith)
                requires
                    d >= pow10((l - 1) as nat),
                    p >= 0,
            ;
            lemma_pow10_mono(4, (l - 1 + sh) as nat);
        }
        if 1 <= l + sh && l + sh <= 4 {
            assert((l + sh - l) as nat == sh as nat);
        }
    } else {
        let k = (-sh) as nat;
        let p = pow10(k);
        lemma_pow10_pos(k);
        if l + sh <= 0 {
            lemma_pow10_mono(l as nat, k);
            lemma_fundamental_div_mod_converse(d, p, 0, d);
        } else {
            let j = l - k;
            lemma_digits_div(sig, j);
            lemma_digits_val_nonneg(sig.take(j));
            if l + sh >= 5 {
                let w = sig.take(j);
                assert(all_digits(w));
                assert(w[0] == sig[0]);
                lemma_digits_first_nonzero(w);
                lemma_pow10_mono(4, (j - 1) as nat);
            }
        }
    }
}

/// Parses a temperature option value into thousandths, clamped to
/// [0, `TEMP_MAX`]; `None` when the text names no temperature.
pub fn parse_temp(s: &str) -> (r: Option<u32>)
    ensures
        r == parse_temp_spec(s@),
        r matches Some(v) ==> v <= TEMP_MAX,
{
    let n = s.unicode_len();
    let mut pos: usize = 0;
    let mut neg = false;
    if n > 0 {
        let c0 = s.get_char(0);
        if c0 == '-' {
            neg = true;
            pos = 1;
        } else if c0 == '+' {
            pos = 1;
        }
    }
    let body = s.substring_char(pos, n);
    proof {
        let spec_body = if s@.len() > 0 && (s@[0] == '-' || s@[0] == '+') {
            s@.drop_first()
        } else {
            s@
        };
        assert(body@ =~= spec_body);
    }
    if eq_str_ci(body, "inf") || eq_str_ci(body, "infinity") {
        if neg {
            return Option::Some(0);
        }
        return Option::Some(TEMP_MAX);
    }
    if eq_str_ci(body, "nan") {
        return Option::None;
    }
    parse_decimal(body, neg)
}

/// The decimal path, on the text after the sign.
fn parse_decimal(body: &str, neg: bool) -> (r: Option<u32>)
    ensures
        r == parse_decimal_spec(body@, neg),
        r matches Some(v) ==> v <= TEMP_MAX,
{
    let n = body.unicode_len();
    // the mantissa runs to the first exponent mark
    let mut em: usize = 0;
    while em < n && body.get_char(em) != 'e' && body.get_char(em) != 'E'
        invariant
            0 <= em <= n,
            n == body@.len(),
            forall|k: int| 0 <= k < em ==> body@[k] != 'e' && body@[k] != 'E',
        decreases n - em,
    {
        em += 1;
    }
    proof {
        lemma_first_exp_mark(body@, em as int);
    }
    let has_e = em < n;
    let ghost mant = body@.take(em as int);
    let ghost es = if has_e {
        body@.skip(em + 1)
    } else {
        Seq::<char>::empty()
    };

    // at most one point, splitting the mantissa
    let mut da: usize = 0;
    while da < em && body.get_char(da) != '.'
        invariant
            0 <= da <= em <= n,
            n == body@.len(),
            forall|k: int| 0 <= k < da ==> body@[k] != '.',
        decreases em - da,
    {
        da += 1;
    }
    proof {
        assert(forall|k: int| 0 <= k < mant.len() ==> mant[k] == body@[k]);
        lemma_first_char(mant, '.', da as int);
    }
    let has_dot = da < em;
    let ghost ip = mant.take(da as int);
    let ghost fp = if has_dot {
        mant.skip(da + 1)
    } else {
        Seq::<char>::empty()
    };
    let fp_len: usize = if has_dot {
        em - da - 1
    } else {
        0
    };
    proof {
        assert(ip.len() == da);
        assert(fp.len() == fp_len);
        assert(forall|k: int| 0 <= k < da ==> ip[k] == body@[k]);
        assert(forall|k: int| 0 <= k < fp.len() ==> fp[k] == body@[da + 1 + k]);
    }

    // every mantissa character is a digit
    let mut q: usize = 0;
    while q < da && is_digit_char(body.get_char(q))
        invariant
            0 <= q <= da,
            da <= n && n == body@.len(),
            forall|k: int| 0 <= k < q ==> is_digit(body@[k]),
        decreases da - q,
    {
        q += 1;
    }
    if q < da {
        proof {
            assert(!is_digit(body@[q as int]));
            assert(ip[q as int] == body@[q as int]);
            assert(!all_digits(ip));
            assert(parse_decimal_spec(body@, neg) is None);
        }
        return Option::None;
    }
    if has_dot {
        let mut q2: usize = da + 1;
        while q2 < em && is_digit_char(body.get_char(q2))
            invariant
                da + 1 <= q2 <= em <= n,
                n == body@.len(),
                forall|k: int| da + 1 <= k < q2 ==> is_digit(body@[k]),
            decreases em - q2,
        {
            q2 += 1;
        }
        if q2 < em {
            proof {
                assert(!is_digit(body@[q2 as int]));
                assert(fp[q2 - da - 1] == body@[q2 as int]);
                assert(!all_digits(fp));
                assert(parse_decimal_spec(body@, neg) is None);
            }
            return Option::None;
        }
    }
    proof {
        assert(all_digits(ip));
        assert(all_digits(fp));
    }
    if da == 0 && fp_len == 0 {
        proof {
            assert(parse_decimal_spec(body@, neg) is None);
        }
        return Option::None;
    }

    // the exponent part: an optional sign, then at least one digit
    if has_e {
        let mut j = em + 1;
        let mut eneg = false;
        if j < n {
            let c0 = body.get_char(j);
            if c0 == '-' {
                eneg = true;
                j += 1;
            } else if c0 == '+' {
                j += 1;
            }
        }
        let ghost eds2 = body@.skip(j as int);
        proof {
            assert(es =~= body@.skip(em + 1));
            if j > em + 1 {
                assert(es.len() > 0 && (es[0] == '+' || es[0] == '-'));
                assert(es.drop_first() =~= eds2);
            }
            assert(eneg == (es.len() > 0 && es[0] == '-'));
        }
        if j == n {
            proof {
                assert(eds2.len() == 0);
                assert(!exp_ok(es));
                assert(parse_decimal_spec(body@, neg) is None);
            }
            return Option::None;
        }
        let jstart = j;
        let mut jj = jstart;
        let mut eacc: i128 = 0;
        while jj < n && is_digit_char(body.get_char(jj))
            invariant
                jstart <= jj <= n,
                n == body@.len(),
                forall|k: int| jstart <= k < jj ==> is_digit(body@[k]),
                0 <= eacc <= EXP_SAT,
                eacc as int == ({
                    let v = digits_val(body@.subrange(jstart as int, jj as int));
                    if v > EXP_SAT as int {
                        EXP_SAT as int
                    } else {
                        v
                    }
                }),
            decreases n - jj,
        {
            let c = body.get_char(jj);
            let d = (c as u32 - 0x30) as i128;
            proof {
                let pre = body@.subrange(jstart as int, jj as int);
                assert(body@.subrange(jstart as int, jj + 1).drop_last() =~= pre);
                assert(body@.subrange(jstart as int, jj + 1).last() == body@[jj as int]);
                assert(all_digits(pre));
                lemma_digits_val_nonneg(pre);
            }
            let t = eacc * 10 + d;
            eacc = if t > EXP_SAT {
                EXP_SAT
            } else {
                t
            };
            jj += 1;
        }
        if jj < n {
            proof {
                assert(!is_digit(body@[jj as int]));
                assert(eds2[jj - jstart] == body@[jj as int]);
                assert(!all_digits(eds2));
                assert(!exp_ok(es));
                assert(parse_decimal_spec(body@, neg) is None);
            }
            return Option::None;
        }
        proof {
            assert(body@.subrange(jstart as int, n as int) =~= eds2);
            assert(all_digits(eds2));
            assert(eds2.len() >= 1);
            assert(exp_ok(es));
            lemma_digits_val_nonneg(eds2);
            assert(exp_val(es) == (if eneg {
                -digits_val(eds2)
            } else {
                digits_val(eds2)
            }));
        }
        decimal_value(body, neg, em, da, fp_len, true, eneg, eacc, Ghost(ip), Ghost(fp), Ghost(
            exp_val(es),
        ))
    } else {
        decimal_value(body, neg, em, da, fp_len, false, false, 0, Ghost(ip), Ghost(fp), Ghost(0))
    }
}

/// The clamped value of a validated mantissa and exponent: scans the
/// leading significant digits and decides from them alone.
#[verifier::rlimit(100)]
#[verifier::spinoff_prover]
#[allow(clippy::too_many_arguments)]
fn decimal_value(
    body: &str,
    neg: bool,
    em: usize,
    da: usize,
    fp_len: usize,
    has_e: bool,
    eneg: bool,
    eacc: i128,
    ip_g: Ghost<Seq<char>>,
    fp_g: Ghost<Seq<char>>,
    e_g: Ghost<int>,
) -> (r: Option<u32>)
    requires
        em <= body@.len(),
        da <= em,
        first_exp_mark(body@) == em,
        has_e == (em < body@.len()),
        first_char(body@.take(em as int), '.') == da,
        ip_g@ == body@.take(em as int).take(da as int),
        fp_g@ == (if da < em {
            body@.take(em as int).skip(da + 1)
        } else {
            Seq::<char>::empty()
        }),
        fp_len == fp_g@.len(),
        all_digits(ip_g@),
        all_digits(fp_g@),
        da + fp_len >= 1,
        has_e ==> exp_ok(body@.skip(em + 1)) && e_g@ == exp_val(body@.skip(em + 1)),
        !has_e ==> e_g@ == 0,
        0 <= eacc <= EXP_SAT,
        eneg ==> e_g@ <= 0,
        !eneg ==> e_g@ >= 0,
        eacc as int == (if (if eneg {
            -e_g@
        } else {
            e_g@
        }) > EXP_SAT as int {
            EXP_SAT as int
        } else if eneg {
            -e_g@
        } else {
            e_g@
        }),
    ensures
        r == parse_decimal_spec(body@, neg),
        r matches Some(v) ==> v <= TEMP_MAX,
{
    let ghost ip = ip_g@;
    let ghost fp = fp_g@;
    let ghost e_val = e_g@;
    let ghost combined = ip + fp;
    let total: usize = da + fp_len;
    let has_dot = da < em;
    proof {
        assert(combined.len() == total);
        assert(forall|k: int| 0 <= k < da ==> combined[k] == body@[k]);
        assert(forall|k: int| da <= k < combined.len() ==> combined[k] == body@[k + 1]);
        assert(all_digits(combined));
        lemma_digits_split(combined, da as int);
        assert(combined.take(da as int) =~= ip);
        assert(combined.skip(da as int) =~= fp);
    }
    let ghost spec_mm = temp_millis(ip, fp, e_val);
    let ghost sh = e_val + 3 - fp.len();
    proof {
        assert(parse_decimal_spec(body@, neg) == Option::Some(
            if neg {
                0u32
            } else if spec_mm > TEMP_MAX {
                TEMP_MAX
            } else {
                spec_mm as u32
            },
        ));
    }
    if neg {
        return Option::Some(0);
    }

    // scan for the leading significant digits
    let mut z: usize = 0;
    let mut c: usize = 0;
    let mut mval: u32 = 0;
    let mut p: usize = 0;
    while p < em && c < 4
        invariant
            0 <= p <= em <= body@.len(),
            da <= em,
            has_dot == (da < em),
            total == da + fp_len,
            fp_len == (if has_dot {
                em - da - 1
            } else {
                0int
            }),
            combined.len() == total,
            forall|k: int| 0 <= k < da ==> combined[k] == body@[k],
            forall|k: int| da <= k < combined.len() ==> combined[k] == body@[k + 1],
            all_digits(combined),
            ({
                let di = if has_dot && p > da {
                    p - 1
                } else {
                    p as int
                };
                &&& z + c <= di <= total
                &&& (c < 4 ==> c == di - z)
                &&& (forall|k: int| 0 <= k < z ==> digit_val(combined[k]) == 0)
                &&& (c >= 1 ==> z < combined.len() && digit_val(combined[z as int]) >= 1)
                &&& c <= 4
                &&& mval == digits_val(combined.subrange(z as int, z + c))
                &&& (c <= 3 ==> mval <= 999)
                &&& mval <= 9999
            }),
        decreases em - p,
    {
        let ghost di = if has_dot && p > da {
            p - 1
        } else {
            p as int
        };
        if has_dot && p == da {
            p += 1;
        } else {
            let ch = body.get_char(p);
            let du = ch as u32;
            proof {
                assert(combined[di] == body@[p as int]);
                assert(is_digit(combined[di]));
                assert(0x30 <= du <= 0x39);
            }
            if c == 0 && du == 0x30 {
                proof {
                    assert(digit_val(combined[di]) == 0);
                }
                z += 1;
                p += 1;
                proof {
                    assert(combined.subrange(z as int, z as int).len() == 0);
                }
            } else {
                let d = du - 0x30;
                proof {
                    if c == 0 {
                        assert(digit_val(combined[di]) >= 1);
                    }
                    let pre = combined.subrange(z as int, z + c);
                    let cur = combined.subrange(z as int, z + c + 1);
                    assert(cur.drop_last() =~= pre);
                    assert(cur.last() == combined[z + c]);
                    assert(z + c == di);
                    lemma_digits_val_nonneg(pre);
                    assert(forall|k: int| 0 <= k < cur.len() ==> cur[k] == combined[z + k]);
                    assert(all_digits(cur));
                    lemma_digits_bound(cur);
                    lemma_pow10_small();
                }
                mval = mval * 10 + d;
                c += 1;
                p += 1;
            }
        }
    }
    let l_count: usize = total - z;
    let ghost sig = combined.skip(z as int);
    proof {
        assert(sig.len() == l_count);
        assert(all_digits(sig));
        assert(forall|k: int| 0 <= k < sig.len() ==> sig[k] == combined[z + k]);
        if p == em {
            let di = if has_dot && p > da {
                p - 1
            } else {
                p as int
            };
            assert(di == total);
        }
    }
    if l_count == 0 {
        proof {
            lemma_digits_leading_zeros(combined, z as int);
            assert(combined.skip(z as int).len() == 0);
            assert(digits_val(combined.skip(z as int)) == 0);
            assert(digits_val(combined) == 0);
            let nn = digits_val(ip) * pow10(fp.len() as nat) + digits_val(fp);
            assert(nn == digits_val(combined));
            if sh >= 0 {
                assert(spec_mm == nn * pow10(sh as nat));
                assert(nn * pow10(sh as nat) == 0) by (nonlinear_arith)
                    requires
                        nn == 0,
                ;
            } else {
                lemma_pow10_pos((-sh) as nat);
                lemma_fundamental_div_mod_converse(0, pow10((-sh) as nat), 0, 0);
                assert(spec_mm == nn / pow10((-sh) as nat));
            }
            assert(spec_mm == 0);
        }
        return Option::Some(0);
    }
    proof {
        assert(c >= 1);
        assert(digit_val(sig[0]) >= 1);
        lemma_digits_leading_zeros(combined, z as int);
        assert(digits_val(ip) * pow10(fp.len() as nat) + digits_val(fp) == digits_val(sig));
        lemma_digits_bound(sig);
        lemma_digits_first_nonzero(sig);
        lemma_pow10_small();
    }

    // an exponent past the saturation point clamps without a value
    if has_e && eacc >= EXP_SAT {
        if eneg {
            proof {
                assert(e_val <= -(EXP_SAT as int));
                assert(sh < 0);
                let k = (-sh) as nat;
                assert(k >= EXP_SAT as int - 3);
                assert(sig.len() < k);
                lemma_pow10_mono(sig.len() as nat, k);
                lemma_pow10_pos(k);
                lemma_fundamental_div_mod_converse(digits_val(sig), pow10(k), 0, digits_val(sig));
                assert(spec_mm == 0);
            }
            return Option::Some(0);
        } else {
            proof {
                assert(e_val >= EXP_SAT as int);
                assert(fp.len() <= total);
                assert(sh >= 5);
                let pp = pow10(sh as nat);
                lemma_pow10_mono(5, sh as nat);
                assert(digits_val(sig) * pp >= 1 * pp) by (nonlinear_arith)
                    requires
                        digits_val(sig) >= 1,
                        pp >= 0,
                ;
                assert(spec_mm > TEMP_MAX);
            }
            return Option::Some(TEMP_MAX);
        }
    }
    proof {
        assert(eacc as int == (if eneg {
            -e_val
        } else {
            e_val
        }));
    }
    let e_i: i128 = if eneg {
        -eacc
    } else {
        eacc
    };
    proof {
        assert(e_i as int == e_val);
    }
    let qq: i128 = l_count as i128 + e_i + 3 - fp_len as i128;
    proof {
        assert(qq as int == sig.len() + sh);
        lemma_window(sig, sh);
    }
    if qq <= 0 {
        proof {
            assert(spec_mm == 0);
        }
        return Option::Some(0);
    }
    if qq >= 5 {
        proof {
            assert(spec_mm > TEMP_MAX);
        }
        return Option::Some(TEMP_MAX);
    }
    let qu: usize = qq as usize;
    proof {
        assert(1 <= qu <= 4);
        assert(c == (if l_count < 4 {
            l_count
        } else {
            4
        }));
        assert(combined.subrange(z as int, z + c) =~= sig.take(c as int));
    }
    let w: usize = if qu <= l_count {
        qu
    } else {
        l_count
    };
    let divp: u32 = if c - w == 0 {
        1
    } else if c - w == 1 {
        10
    } else if c - w == 2 {
        100
    } else {
        1000
    };
    let first_w: u32 = mval / divp;
    proof {
        let sc = sig.take(c as int);
        assert(all_digits(sc));
        lemma_digits_div(sc, w as int);
        assert(sc.take(w as int) =~= sig.take(w as int));
        assert(divp as int == pow10((c - w) as nat));
        assert(first_w as int == digits_val(sig.take(w as int)));
        lemma_digits_bound(sig.take(w as int));
    }
    let mulp: u32 = if qu - w == 0 {
        1
    } else if qu - w == 1 {
        10
    } else if qu - w == 2 {
        100
    } else {
        1000
    };
    proof {
        assert(mulp as int == pow10((qu - w) as nat));
        assert(mulp <= 1000);
        assert((first_w as int) < pow10(w as nat));
        lemma_pow10_mono(w as nat, 4);
        assert(first_w <= 9999);
        if w < qu {
            // every significant digit is in hand and scaled up
            assert(w == l_count && l_count < qu);
            assert((first_w as int) < pow10(l_count as nat));
            assert(first_w as int <= 999);
        }
        assert((first_w as int) * (mulp as int) <= 9999000) by (nonlinear_arith)
            requires
                first_w as int <= 9999,
                mulp as int <= 1000,
                0 <= first_w as int,
                0 <= mulp as int,
        ;
    }
    let mm: u32 = first_w * mulp;
    proof {
        if sh >= 0 {
            assert(qq as int >= sig.len());
            assert(w == l_count);
            assert(sig.take(w as int) =~= sig);
            assert(spec_mm == digits_val(sig) * pow10((qq as int - sig.len()) as nat));
            assert((qq as int - sig.len()) as nat == (qu - w) as nat);
        } else {
            assert(qq as int <= sig.len());
            assert(w == qu);
            assert(spec_mm == digits_val(sig.take(qq as int)));
        }
        assert(mm as int == spec_mm);
    }
    if mm > TEMP_MAX {
        Option::Some(TEMP_MAX)
    } else {
        Option::Some(mm)
    }
}

/// Clamp a raw thousandths value into the valid range.
pub fn clamp_temp(raw: u32) -> (r: u32)
    ensures
        r == clamp_temp_spec(raw),
{
    if raw > TEMP_MAX {
        TEMP_MAX
    } else {
        raw
    }
}

pub open spec fn clamp_temp_spec(raw: u32) -> u32 {
    if raw > TEMP_MAX {
        TEMP_MAX
    } else {
        raw
    }
}

/// The process-wide shared temperature cell.
///
/// It stores the bit pattern of an `f32` as a `u32`; encoding and decoding
/// the float live with the unverified caller, which keeps every stored
/// pattern a finite value in [0, 2].  Reads and writes are single atomic
/// operations, so readers on the hot path never block a writer.  Nothing is
/// assumed about the value a load observes: verified readers clamp what
/// they take from it.
pub struct AtomicF32 {
    storage: AtomicU32,
}

impl AtomicF32 {
    pub fn new(bits: u32) -> AtomicF32 {
        AtomicF32 { storage: AtomicU32::new(bits) }
    }

    pub fn store(&self, bits: u32) {
        self.storage.store(bits, Ordering::SeqCst)
    }

    pub fn load(&self) -> u32 {
        self.storage.load(Ordering::SeqCst)
    }
}

} // verus!
