use vstd::prelude::*;

use crate::errors::DecodeError;
use crate::value::{lemma_value_view_wf, lemma_view_fields_index, lemma_view_items_index};
use crate::value::{view_fields, view_items, Val, Value};
use vstd::string::StrSliceExecFns;
use vstd::string::StringExecFns;

verus! {

// ---------------------------------------------------------------------------
// The wire form.  A value is written as one self-describing text record:
//   integer   'i' '-'? digits ';'     (digits canonical: no leading zero)
//   flag      't' | 'f'
//   text      's' digits ':' chars    (the count of characters, then them)
//   sequence  'l' digits ':' element encodings, in order
//   record    'd' digits ':' (digits ':' key-chars value-encoding)*
// Counts are written first, so no escaping is ever needed and every
// well-formed payload has exactly one reading.
// ---------------------------------------------------------------------------
/// Is `c` a decimal digit?
pub open spec fn is_digit(c: char) -> bool {
    c == '0' || c == '1' || c == '2' || c == '3' || c == '4' || c == '5' || c == '6' || c == '7'
        || c == '8' || c == '9'
}

/// The numeric value of a digit character.
pub open spec fn digit_val(c: char) -> nat
    recommends
        is_digit(c),
{
    if c == '0' {
        0
    } else if c == '1' {
        1
    } else if c == '2' {
        2
    } else if c == '3' {
        3
    } else if c == '4' {
        4
    } else if c == '5' {
        5
    } else if c == '6' {
        6
    } else if c == '7' {
        7
    } else if c == '8' {
        8
    } else {
        9
    }
}

/// The digit character for a value below ten.
pub open spec fn dig(n: nat) -> char
    recommends
        n < 10,
{
    if n == 0 {
        '0'
    } else if n == 1 {
        '1'
    } else if n == 2 {
        '2'
    } else if n == 3 {
        '3'
    } else if n == 4 {
        '4'
    } else if n == 5 {
        '5'
    } else if n == 6 {
        '6'
    } else if n == 7 {
        '7'
    } else if n == 8 {
        '8'
    } else {
        '9'
    }
}

/// The canonical decimal form of `n`: no leading zeros.
pub open spec fn dec(n: nat) -> Seq<char>
    decreases n,
{
    if n < 10 {
        seq![dig(n)]
    } else {
        dec(n / 10) + seq![dig(n % 10)]
    }
}

/// The wire form of an integer.
pub open spec fn enc_int(i: int) -> Seq<char> {
    if i >= 0 {
        seq!['i'] + dec(i as nat) + seq![';']
    } else {
        seq!['i', '-'] + dec((-i) as nat) + seq![';']
    }
}

/// The wire form of a value.
pub open spec fn encoding(m: Val) -> Seq<char>
    decreases m, 0int,
{
    match m {
        Val::Int(i) => enc_int(i),
        Val::Flag(b) => if b {
            seq!['t']
        } else {
            seq!['f']
        },
        Val::Text(s) => seq!['s'] + dec(s.len()) + seq![':'] + s,
        Val::Items(vs) => seq!['l'] + dec(vs.len()) + seq![':'] + enc_list(vs, 0),
        Val::Fields(fs) => seq!['d'] + dec(fs.len()) + seq![':'] + enc_fields(fs, 0),
    }
}

/// The concatenated wire forms of the elements of `vs` from index `i` on.
pub open spec fn enc_list(vs: Seq<Val>, i: int) -> Seq<char>
    decreases vs, vs.len() - i,
{
    if i < 0 || i >= vs.len() {
        Seq::empty()
    } else {
        encoding(vs[i]) + enc_list(vs, i + 1)
    }
}

/// The concatenated wire forms of the named fields of `fs` from index `i` on.
pub open spec fn enc_fields(fs: Seq<(Seq<char>, Val)>, i: int) -> Seq<char>
    decreases fs, fs.len() - i,
{
    if i < 0 || i >= fs.len() {
        Seq::empty()
    } else {
        dec(fs[i].0.len()) + seq![':'] + fs[i].0 + encoding(fs[i].1) + enc_fields(fs, i + 1)
    }
}

// ---------------------------------------------------------------------------
// Encoding
// ---------------------------------------------------------------------------
/// Relies on String::push: appends exactly one character.
#[verifier::external_body]
fn push_char(out: &mut String, c: char)
    ensures
        final (out)@ == old(out)@ + seq![c],
{
    out.push(c);
}

/// The digit character for a machine value below ten.
fn dig_char(n: u64) -> (c: char)
    requires
        n < 10,
    ensures
        c == dig(n as nat),
{
    if n == 0 {
        '0'
    } else if n == 1 {
        '1'
    } else if n == 2 {
        '2'
    } else if n == 3 {
        '3'
    } else if n == 4 {
        '4'
    } else if n == 5 {
        '5'
    } else if n == 6 {
        '6'
    } else if n == 7 {
        '7'
    } else if n == 8 {
        '8'
    } else {
        '9'
    }
}

/// Append the canonical decimal form of `n`.
fn push_dec(out: &mut String, n: u64)
    ensures
        final (out)@ == old(out)@ + dec(n as nat),
    decreases n,
{
    if n < 10 {
        push_char(out, dig_char(n));
    } else {
        push_dec(out, n / 10);
        push_char(out, dig_char(n % 10));
        proof {
            assert((old(out)@ + dec((n / 10) as nat)) + seq![dig((n % 10) as nat)] =~= old(out)@
                + dec(n as nat));
        }
    }
}

/// Append the wire form of `v`.
#[verifier::loop_isolation(false)]
fn encode_into(v: &Value, out: &mut String)
    ensures
        final (out)@ == old(out)@ + encoding(v@),
    decreases v,
{
    match v {
        Value::Int(i) => {
            push_char(out, 'i');
            if *i < 0 {
                push_char(out, '-');
                let mag: u64 = (-(*i as i128)) as u64;
                push_dec(out, mag);
                proof {
                    assert(((old(out)@ + seq!['i']) + seq!['-']) + dec(mag as nat) =~= old(out)@
                        + seq!['i', '-'] + dec((-(*i as int)) as nat));
                }
            } else {
                push_dec(out, *i as u64);
            }
            push_char(out, ';');
            proof {
                if *i < 0 {
                    assert((old(out)@ + seq!['i', '-'] + dec((-(*i as int)) as nat)) + seq![';']
                        =~= old(out)@ + enc_int(*i as int));
                } else {
                    assert(((old(out)@ + seq!['i']) + dec((*i as u64) as nat)) + seq![';'] =~= old(
                        out,
                    )@ + enc_int(*i as int));
                }
            }
        }
        Value::Flag(b) => {
            if *b {
                push_char(out, 't');
            } else {
                push_char(out, 'f');
            }
        }
        Value::Text(s) => {
            push_char(out, 's');
            let len = s.as_str().unicode_len();
            push_dec(out, len as u64);
            push_char(out, ':');
            out.append(s.as_str());
            proof {
                assert((((old(out)@ + seq!['s']) + dec(s@.len())) + seq![':']) + s@ =~= old(out)@
                    + encoding(v@));
            }
        }
        Value::Items(vs) => {
            push_char(out, 'l');
            let count = vs.len();
            push_dec(out, count as u64);
            push_char(out, ':');
            proof {
                lemma_view_items_index(vs@);
            }
            let ghost ms = view_items(vs@);
            let ghost base = out@;
            let mut idx: usize = 0;
            while idx < vs.len()
                invariant
                    idx <= vs.len(),
                    ms == view_items(vs@),
                    ms.len() == vs@.len(),
                    forall|k: int| 0 <= k < vs@.len() ==> ms[k] == #[trigger] vs@[k]@,
                    out@ + enc_list(ms, idx as int) == base + enc_list(ms, 0),
                decreases vs@.len() - idx,
            {
                let ghost before = out@;
                proof {
                    assert(decreases_to!(*v => (*v)->Items_0));
                    assert(decreases_to!((*v)->Items_0 => vs@));
                    assert(decreases_to!(vs@ => vs@[idx as int]));
                    assert(decreases_to!(*v => vs@[idx as int]));
                }
                encode_into(&vs[idx], out);
                proof {
                    assert((before + encoding(ms[idx as int])) + enc_list(ms, idx as int + 1) =~=
                    before + enc_list(ms, idx as int));
                }
                idx = idx + 1;
            }
            proof {
                assert(out@ + enc_list(ms, vs@.len() as int) =~= out@);
                assert((((old(out)@ + seq!['l']) + dec(ms.len())) + seq![':']) + enc_list(ms, 0)
                    =~= old(out)@ + encoding(v@));
            }
        }
        Value::Fields(fs) => {
            push_char(out, 'd');
            let count = fs.len();
            push_dec(out, count as u64);
            push_char(out, ':');
            proof {
                lemma_view_fields_index(fs@);
            }
            let ghost ms = view_fields(fs@);
            let ghost base = out@;
            let mut idx: usize = 0;
            while idx < fs.len()
                invariant
                    idx <= fs.len(),
                    ms == view_fields(fs@),
                    ms.len() == fs@.len(),
                    forall|k: int| 0 <= k < fs@.len() ==> ms[k] == (#[trigger] fs@[k].0@, fs@[k].1@),
                    out@ + enc_fields(ms, idx as int) == base + enc_fields(ms, 0),
                decreases fs@.len() - idx,
            {
                let ghost before = out@;
                let pair = &fs[idx];
                let klen = pair.0.as_str().unicode_len();
                push_dec(out, klen as u64);
                push_char(out, ':');
                out.append(pair.0.as_str());
                proof {
                    assert(decreases_to!(*v => (*v)->Fields_0));
                    assert(decreases_to!((*v)->Fields_0 => fs@));
                    assert(decreases_to!(fs@ => fs@[idx as int]));
                    assert(decreases_to!(fs@[idx as int] => fs@[idx as int].1));
                    assert(decreases_to!(*v => fs@[idx as int].1));
                }
                encode_into(&pair.1, out);
                proof {
                    assert(fs@[idx as int].0@ == ms[idx as int].0);
                    assert((((before + dec(ms[idx as int].0.len())) + seq![':'])
                        + ms[idx as int].0) + encoding(ms[idx as int].1) + enc_fields(
                        ms,
                        idx as int + 1,
                    ) =~= before + enc_fields(ms, idx as int));
                }
                idx = idx + 1;
            }
            proof {
                assert(out@ + enc_fields(ms, fs@.len() as int) =~= out@);
                assert((((old(out)@ + seq!['d']) + dec(ms.len())) + seq![':']) + enc_fields(ms, 0)
                    =~= old(out)@ + encoding(v@));
            }
        }
    }
}

/// Produce the wire form of `v`.  Encoding is total: every buildable value
/// has exactly one payload, and that payload decodes back to it (see
/// `decode`).
pub fn encode(v: &Value) -> (r: String)
    ensures
        r@ == encoding(v@),
        v@.wf(),
{
    proof {
        lemma_value_view_wf(v);
    }
    let mut out = String::new();
    encode_into(v, &mut out);
    proof {
        assert(Seq::<char>::empty() + encoding(v@) =~= encoding(v@));
    }
    out
}

// ---------------------------------------------------------------------------
// The one reading of a payload.  The parser below is a total specification
// function; the executable decoder is proved to return exactly its result,
// and the round-trip and rejection laws are proved about it once, at the
// specification level.
// ---------------------------------------------------------------------------
/// The end of the run of digits that starts at `i`.
pub open spec fn sp_digits(s: Seq<char>, i: int) -> int
    decreases s.len() - i,
{
    if i < 0 || i >= s.len() || !is_digit(s[i]) {
        i
    } else {
        sp_digits(s, i + 1)
    }
}

/// The number a sequence of digit characters denotes.
pub open spec fn digits_val(s: Seq<char>) -> nat
    decreases s.len(),
{
    if s.len() == 0 {
        0
    } else {
        digits_val(s.drop_last()) * 10 + digit_val(s.last())
    }
}

/// Read a canonical number at `i`: at least one digit, no leading zero.
pub open spec fn sp_nat(s: Seq<char>, i: int) -> Option<(nat, int)> {
    let j = sp_digits(s, i);
    if j == i {
        None
    } else if s[i] == '0' && j > i + 1 {
        None
    } else {
        Some((digits_val(s.subrange(i, j)), j))
    }
}

/// Read one value at `i`; `None` where no well-formed encoding starts there.
pub open spec fn sp_val(s: Seq<char>, i: int) -> Option<(Val, int)>
    decreases s.len() - i, 0int,
{
    if i < 0 || i >= s.len() {
        None
    } else if s[i] == 't' {
        Some((Val::Flag(true), i + 1))
    } else if s[i] == 'f' {
        Some((Val::Flag(false), i + 1))
    } else if s[i] == 'i' {
        let neg = i + 1 < s.len() && s[i + 1] == '-';
        let d = if neg {
            i + 2
        } else {
            i + 1
        };
        match sp_nat(s, d) {
            None => None,
            Some((n, j)) => {
                if j < s.len() && s[j] == ';' {
                    if neg && 1 <= n <= 0x8000_0000_0000_0000 {
                        Some((Val::Int(-(n as int)), j + 1))
                    } else if !neg && n <= 0x7fff_ffff_ffff_ffff {
                        Some((Val::Int(n as int), j + 1))
                    } else {
                        None
                    }
                } else {
                    None
                }
            }
        }
    } else if s[i] == 's' {
        match sp_nat(s, i + 1) {
            None => None,
            Some((tl, j)) => {
                if j < s.len() && s[j] == ':' && j + 1 + tl <= s.len() {
                    Some((Val::Text(s.subrange(j + 1, j + 1 + tl)), j + 1 + tl))
                } else {
                    None
                }
            }
        }
    } else if s[i] == 'l' {
        match sp_nat(s, i + 1) {
            None => None,
            Some((count, j)) => {
                if i < j < s.len() && s[j] == ':' {
                    match sp_list(s, j + 1, count) {
                        None => None,
                        Some((vs, e)) => Some((Val::Items(vs), e)),
                    }
                } else {
                    None
                }
            }
        }
    } else if s[i] == 'd' {
        match sp_nat(s, i + 1) {
            None => None,
            Some((count, j)) => {
                if i < j < s.len() && s[j] == ':' {
                    match sp_fields(s, j + 1, count) {
                        None => None,
                        Some((fs, e)) => Some((Val::Fields(fs), e)),
                    }
                } else {
                    None
                }
            }
        }
    } else {
        None
    }
}

/// Read `count` values one after the other, starting at `i`.
pub open spec fn sp_list(s: Seq<char>, i: int, count: nat) -> Option<(Seq<Val>, int)>
    decreases s.len() - i, count + 1,
{
    if i < 0 || i > s.len() {
        None
    } else if count == 0 {
        Some((Seq::empty(), i))
    } else {
        match sp_val(s, i) {
            None => None,
            Some((m, j)) => {
                if j > i && j <= s.len() {
                    match sp_list(s, j, (count - 1) as nat) {
                        None => None,
                        Some((rest, e)) => Some((seq![m] + rest, e)),
                    }
                } else {
                    None
                }
            }
        }
    }
}

/// Read `count` named fields one after the other, starting at `i`.
pub open spec fn sp_fields(s: Seq<char>, i: int, count: nat) -> Option<
    (Seq<(Seq<char>, Val)>, int),
>
    decreases s.len() - i, count + 1,
{
    if i < 0 || i > s.len() {
        None
    } else if count == 0 {
        Some((Seq::empty(), i))
    } else {
        match sp_nat(s, i) {
            None => None,
            Some((klen, j)) => {
                if i < j < s.len() && s[j] == ':' && j + 1 + klen <= s.len() {
                    let key = s.subrange(j + 1, j + 1 + klen);
                    match sp_val(s, j + 1 + klen) {
                        None => None,
                        Some((m, e1)) => {
                            if e1 > i && e1 <= s.len() {
                                match sp_fields(s, e1, (count - 1) as nat) {
                                    None => None,
                                    Some((rest, e)) => Some((seq![(key, m)] + rest, e)),
                                }
                            } else {
                                None
                            }
                        }
                    }
                } else {
                    None
                }
            }
        }
    }
}

/// The one reading of a full payload, if it has one.
pub open spec fn spec_parse(s: Seq<char>) -> Option<Val> {
    match sp_val(s, 0) {
        None => None,
        Some((m, j)) => if j == s.len() {
            Some(m)
        } else {
            None
        },
    }
}

// ---------------------------------------------------------------------------
// Facts about decimal digits
// ---------------------------------------------------------------------------
proof fn lemma_dec_digits(n: nat)
    ensures
        dec(n).len() >= 1,
        forall|k: int| 0 <= k < dec(n).len() ==> is_digit(#[trigger] dec(n)[k]),
        (dec(n)[0] == '0' <==> n == 0),
        n < 10 ==> dec(n).len() == 1,
    decreases n,
{
    if n >= 10 {
        lemma_dec_digits(n / 10);
        assert(dec(n) == dec(n / 10) + seq![dig(n % 10)]);
        assert(dec(n)[0] == dec(n / 10)[0]);
        assert(n / 10 >= 1);
        assert(is_digit(dig(n % 10)));
        assert forall|k: int| 0 <= k < dec(n).len() implies is_digit(#[trigger] dec(n)[k]) by {
            if k < dec(n / 10).len() {
                assert(dec(n)[k] == dec(n / 10)[k]);
            } else {
                assert(dec(n)[k] == dig(n % 10));
            }
        }
    } else {
        assert(is_digit(dig(n)));
    }
}

proof fn lemma_digits_val_dec(n: nat)
    ensures
        digits_val(dec(n)) == n,
    decreases n,
{
    if n < 10 {
        assert(dec(n) == seq![dig(n)]);
        assert(seq![dig(n)].drop_last() =~= Seq::<char>::empty());
        assert(digits_val(Seq::<char>::empty()) == 0);
        assert(seq![dig(n)].last() == dig(n));
        assert(digit_val(dig(n)) == n);
    } else {
        lemma_digits_val_dec(n / 10);
        let s = dec(n);
        assert(s == dec(n / 10) + seq![dig(n % 10)]);
        assert(s.drop_last() =~= dec(n / 10));
        assert(s.last() == dig(n % 10));
        assert(digit_val(dig(n % 10)) == n % 10);
        vstd::arithmetic::div_mod::lemma_fundamental_div_mod(n as int, 10);
    }
}

proof fn lemma_dec_unique(s: Seq<char>)
    requires
        s.len() >= 1,
        forall|k: int| 0 <= k < s.len() ==> is_digit(#[trigger] s[k]),
        s[0] == '0' ==> s.len() == 1,
    ensures
        s == dec(digits_val(s)),
    decreases s.len(),
{
    if s.len() == 1 {
        assert(s.drop_last() =~= Seq::<char>::empty());
        assert(digits_val(Seq::<char>::empty()) == 0);
        assert(s.last() == s[0]);
        assert(digits_val(s) == digit_val(s[0]));
        assert(is_digit(s[0]));
        assert(digit_val(s[0]) < 10);
        assert(dec(digit_val(s[0])) == seq![dig(digit_val(s[0]))]);
        assert(dig(digit_val(s[0])) == s[0]);
        assert(s =~= seq![s[0]]);
    } else {
        let b = s.drop_last();
        assert(b[0] == s[0]);
        lemma_dec_unique(b);
        let vb = digits_val(b);
        if vb == 0 {
            assert(dec(0nat) == seq![dig(0nat)]);
            assert(b[0] == '0');
            assert(false);
        }
        let d0 = digit_val(s.last());
        let v = digits_val(s);
        assert(v == vb * 10 + d0);
        assert(d0 < 10);
        assert(v >= 10);
        vstd::arithmetic::div_mod::lemma_fundamental_div_mod_converse(
            v as int,
            10,
            vb as int,
            d0 as int,
        );
        assert(dec(v) == dec(vb) + seq![dig(d0)]);
        assert(dig(digit_val(s.last())) == s.last());
        assert(s =~= b + seq![s.last()]);
    }
}

proof fn lemma_sp_digits_range(s: Seq<char>, i: int)
    requires
        0 <= i <= s.len(),
    ensures
        i <= sp_digits(s, i) <= s.len(),
        forall|k: int| i <= k < sp_digits(s, i) ==> is_digit(#[trigger] s[k]),
        sp_digits(s, i) == s.len() || !is_digit(s[sp_digits(s, i)]),
    decreases s.len() - i,
{
    if i < s.len() && is_digit(s[i]) {
        lemma_sp_digits_range(s, i + 1);
    }
}

proof fn lemma_sp_digits_exact(s: Seq<char>, i: int, e: int)
    requires
        0 <= i <= e <= s.len(),
        forall|k: int| i <= k < e ==> is_digit(#[trigger] s[k]),
        e == s.len() || !is_digit(s[e]),
    ensures
        sp_digits(s, i) == e,
    decreases e - i,
{
    if i < e {
        lemma_sp_digits_exact(s, i + 1, e);
    }
}

proof fn lemma_sp_nat_sound(s: Seq<char>, i: int)
    requires
        0 <= i <= s.len(),
    ensures
        match sp_nat(s, i) {
            Some((n, j)) => i < j <= s.len() && s.subrange(i, j) == dec(n) && (j == s.len()
                || !is_digit(s[j])),
            None => true,
        },
{
    lemma_sp_digits_range(s, i);
    let j = sp_digits(s, i);
    if j != i && !(s[i] == '0' && j > i + 1) {
        let sub = s.subrange(i, j);
        assert forall|k: int| 0 <= k < sub.len() implies is_digit(#[trigger] sub[k]) by {
            assert(sub[k] == s[i + k]);
        }
        assert(sub[0] == s[i]);
        lemma_dec_unique(sub);
    }
}

proof fn lemma_sp_nat_complete(s: Seq<char>, i: int, n: nat)
    requires
        0 <= i,
        i + dec(n).len() <= s.len(),
        s.subrange(i, i + dec(n).len() as int) == dec(n),
        i + dec(n).len() == s.len() || !is_digit(s[i + dec(n).len()]),
    ensures
        sp_nat(s, i) == Some((n, i + dec(n).len() as int)),
{
    lemma_dec_digits(n);
    let e = i + dec(n).len() as int;
    assert forall|k: int| i <= k < e implies is_digit(#[trigger] s[k]) by {
        assert(s.subrange(i, e)[k - i] == s[k]);
    }
    lemma_sp_digits_exact(s, i, e);
    assert(s[i] == s.subrange(i, e)[0]);
    lemma_digits_val_dec(n);
}

/// Appending more digits never lowers the denoted number.
proof fn lemma_digits_val_extend(s: Seq<char>, i: int, a: int, b: int)
    requires
        0 <= i <= a <= b <= s.len(),
    ensures
        digits_val(s.subrange(i, b)) >= digits_val(s.subrange(i, a)),
    decreases b - a,
{
    if a < b {
        lemma_digits_val_extend(s, i, a, b - 1);
        assert(s.subrange(i, b).drop_last() =~= s.subrange(i, b - 1));
        let w = digits_val(s.subrange(i, b - 1));
        assert(digits_val(s.subrange(i, b)) == w * 10 + digit_val(s.subrange(i, b).last()));
        assert(w * 10 >= w);
    }
}

// ---------------------------------------------------------------------------
// Soundness: whatever the parser reads is the exact wire form of its result.
// ---------------------------------------------------------------------------
proof fn lemma_encoding_nonempty(m: Val)
    ensures
        encoding(m).len() >= 1,
{
    match m {
        Val::Int(i) => {}
        Val::Flag(b) => {}
        Val::Text(s) => {}
        Val::Items(vs) => {}
        Val::Fields(fs) => {}
    }
}

proof fn lemma_enc_list_shift(m: Val, rest: Seq<Val>, t: int)
    requires
        0 <= t,
    ensures
        enc_list(seq![m] + rest, t + 1) == enc_list(rest, t),
    decreases rest.len() - t,
{
    let cons = seq![m] + rest;
    if t < rest.len() {
        lemma_enc_list_shift(m, rest, t + 1);
        assert(cons[t + 1] == rest[t]);
    }
}

proof fn lemma_enc_list_cons(m: Val, rest: Seq<Val>)
    ensures
        enc_list(seq![m] + rest, 0) == encoding(m) + enc_list(rest, 0),
{
    lemma_enc_list_shift(m, rest, 0);
    assert((seq![m] + rest)[0] == m);
}

proof fn lemma_enc_fields_shift(p: (Seq<char>, Val), rest: Seq<(Seq<char>, Val)>, t: int)
    requires
        0 <= t,
    ensures
        enc_fields(seq![p] + rest, t + 1) == enc_fields(rest, t),
    decreases rest.len() - t,
{
    let cons = seq![p] + rest;
    if t < rest.len() {
        lemma_enc_fields_shift(p, rest, t + 1);
        assert(cons[t + 1] == rest[t]);
    }
}

proof fn lemma_enc_fields_cons(p: (Seq<char>, Val), rest: Seq<(Seq<char>, Val)>)
    ensures
        enc_fields(seq![p] + rest, 0) == dec(p.0.len()) + seq![':'] + p.0 + encoding(p.1)
            + enc_fields(rest, 0),
{
    lemma_enc_fields_shift(p, rest, 0);
    assert((seq![p] + rest)[0] == p);
}

#[verifier::rlimit(100)]
proof fn lemma_sound_val(s: Seq<char>, i: int)
    requires
        0 <= i <= s.len(),
    ensures
        match sp_val(s, i) {
            Some((m, j)) => i < j <= s.len() && m.wf() && s.subrange(i, j) == encoding(m),
            None => true,
        },
    decreases s.len() - i, 0int,
{
    if i < s.len() {
        let c = s[i];
        if c == 't' || c == 'f' {
            assert(s.subrange(i, i + 1) =~= seq![s[i]]);
        } else if c == 'i' {
            let neg = i + 1 < s.len() && s[i + 1] == '-';
            let d0 = if neg {
                i + 2
            } else {
                i + 1
            };
            lemma_sp_nat_sound(s, d0);
            match sp_nat(s, d0) {
                None => {}
                Some((n, j)) => {
                    if j < s.len() && s[j] == ';' {
                        if neg && 1 <= n <= 0x8000_0000_0000_0000 {
                            assert(s.subrange(i, j + 1) =~= seq!['i', '-'] + s.subrange(i + 2, j)
                                + seq![';']);
                        } else if !neg && n <= 0x7fff_ffff_ffff_ffff {
                            assert(s.subrange(i, j + 1) =~= seq!['i'] + s.subrange(i + 1, j)
                                + seq![';']);
                        }
                    }
                }
            }
        } else if c == 's' {
            lemma_sp_nat_sound(s, i + 1);
            match sp_nat(s, i + 1) {
                None => {}
                Some((tl, j)) => {
                    if j < s.len() && s[j] == ':' && j + 1 + tl <= s.len() {
                        let txt = s.subrange(j + 1, j + 1 + tl);
                        assert(txt.len() == tl);
                        assert(s.subrange(i, j + 1 + tl) =~= seq!['s'] + s.subrange(i + 1, j)
                            + seq![':'] + txt);
                    }
                }
            }
        } else if c == 'l' {
            lemma_sp_nat_sound(s, i + 1);
            match sp_nat(s, i + 1) {
                None => {}
                Some((count, j)) => {
                    if i < j < s.len() && s[j] == ':' {
                        lemma_sound_list(s, j + 1, count);
                        match sp_list(s, j + 1, count) {
                            None => {}
                            Some((vs, e)) => {
                                assert(s.subrange(i, e) =~= seq!['l'] + s.subrange(i + 1, j)
                                    + seq![':'] + s.subrange(j + 1, e));
                            }
                        }
                    }
                }
            }
        } else if c == 'd' {
            lemma_sp_nat_sound(s, i + 1);
            match sp_nat(s, i + 1) {
                None => {}
                Some((count, j)) => {
                    if i < j < s.len() && s[j] == ':' {
                        lemma_sound_fields(s, j + 1, count);
                        match sp_fields(s, j + 1, count) {
                            None => {}
                            Some((fs, e)) => {
                                assert(s.subrange(i, e) =~= seq!['d'] + s.subrange(i + 1, j)
                                    + seq![':'] + s.subrange(j + 1, e));
                            }
                        }
                    }
                }
            }
        }
    }
}

#[verifier::rlimit(50)]
proof fn lemma_sound_list(s: Seq<char>, i: int, count: nat)
    requires
        0 <= i <= s.len(),
    ensures
        match sp_list(s, i, count) {
            Some((vs, e)) => i <= e <= s.len() && vs.len() == count && (forall|k: int|
                0 <= k < vs.len() ==> (#[trigger] vs[k]).wf()) && s.subrange(i, e) == enc_list(
                vs,
                0,
            ),
            None => true,
        },
    decreases s.len() - i, count + 1,
{
    if count == 0 {
        assert(s.subrange(i, i) =~= Seq::<char>::empty());
        assert(enc_list(Seq::<Val>::empty(), 0) == Seq::<char>::empty());
    } else {
        lemma_sound_val(s, i);
        match sp_val(s, i) {
            None => {}
            Some((m, j)) => {
                if j > i && j <= s.len() {
                    lemma_sound_list(s, j, (count - 1) as nat);
                    match sp_list(s, j, (count - 1) as nat) {
                        None => {}
                        Some((rest, e)) => {
                            lemma_enc_list_cons(m, rest);
                            assert(s.subrange(i, e) =~= s.subrange(i, j) + s.subrange(j, e));
                            assert forall|k: int| 0 <= k < (seq![m] + rest).len() implies (
                            #[trigger] (seq![m] + rest)[k]).wf() by {
                                if k > 0 {
                                    assert((seq![m] + rest)[k] == rest[k - 1]);
                                }
                            }
                        }
                    }
                }
            }
        }
    }
}

#[verifier::rlimit(50)]
proof fn lemma_sound_fields(s: Seq<char>, i: int, count: nat)
    requires
        0 <= i <= s.len(),
    ensures
        match sp_fields(s, i, count) {
            Some((fs, e)) => i <= e <= s.len() && fs.len() == count && (forall|k: int|
                0 <= k < fs.len() ==> (#[trigger] fs[k]).1.wf()) && s.subrange(i, e) == enc_fields(
                fs,
                0,
            ),
            None => true,
        },
    decreases s.len() - i, count + 1,
{
    if count == 0 {
        assert(s.subrange(i, i) =~= Seq::<char>::empty());
        assert(enc_fields(Seq::<(Seq<char>, Val)>::empty(), 0) == Seq::<char>::empty());
    } else {
        lemma_sp_nat_sound(s, i);
        match sp_nat(s, i) {
            None => {}
            Some((klen, j)) => {
                if i < j < s.len() && s[j] == ':' && j + 1 + klen <= s.len() {
                    let key = s.subrange(j + 1, j + 1 + klen);
                    lemma_sound_val(s, j + 1 + klen);
                    match sp_val(s, j + 1 + klen) {
                        None => {}
                        Some((m, e1)) => {
                            if e1 > i && e1 <= s.len() {
                                lemma_sound_fields(s, e1, (count - 1) as nat);
                                match sp_fields(s, e1, (count - 1) as nat) {
                                    None => {}
                                    Some((rest, e)) => {
                                        lemma_enc_fields_cons((key, m), rest);
                                        assert(key.len() == klen);
                                        assert(s.subrange(i, e) =~= s.subrange(i, j) + seq![':']
                                            + key + s.subrange(j + 1 + klen, e1) + s.subrange(
                                            e1,
                                            e,
                                        ));
                                        assert forall|k: int|
                                            0 <= k < (seq![(key, m)] + rest).len() implies (
                                        #[trigger] (seq![(key, m)] + rest)[k]).1.wf() by {
                                            if k > 0 {
                                                assert((seq![(key, m)] + rest)[k] == rest[k - 1]);
                                            }
                                        }
                                    }
                                }
                            }
                        }
                    }
                }
            }
        }
    }
}

// ---------------------------------------------------------------------------
// Completeness: the parser accepts every wire form of a representable value
// and reads the value back out of it.
// ---------------------------------------------------------------------------
#[verifier::rlimit(50)]
proof fn lemma_complete_val(s: Seq<char>, i: int, m: Val)
    requires
        0 <= i,
        m.wf(),
        i + encoding(m).len() <= s.len(),
        s.subrange(i, i + encoding(m).len() as int) == encoding(m),
    ensures
        sp_val(s, i) == Some((m, i + encoding(m).len() as int)),
    decreases m, 0int,
{
    let ll = encoding(m).len() as int;
    let e = i + ll;
    assert forall|k: int| 0 <= k < ll implies s[i + k] == #[trigger] encoding(m)[k] by {
        assert(s.subrange(i, e)[k] == s[i + k]);
    }
    match m {
        Val::Flag(b) => {
            assert(s[i + 0] == encoding(m)[0]);
        }
        Val::Int(iv) => {
            let mag = if iv >= 0 {
                iv as nat
            } else {
                (-iv) as nat
            };
            lemma_dec_digits(mag);
            let dl = dec(mag).len() as int;
            if iv >= 0 {
                assert(s[i + 0] == encoding(m)[0]);
                assert(encoding(m)[0] == 'i');
                assert forall|k: int| 0 <= k < dl implies s.subrange(i + 1, i + 1 + dl)[k] == dec(
                    mag,
                )[k] by {
                    assert(s[i + (1 + k)] == encoding(m)[1 + k]);
                }
                assert(s.subrange(i + 1, i + 1 + dl) =~= dec(mag));
                assert(s[i + (1 + dl)] == encoding(m)[1 + dl]);
                assert(encoding(m)[1 + dl] == ';');
                assert(!is_digit(';'));
                assert(is_digit(dec(mag)[0]));
                assert(s[i + 1] == encoding(m)[1]);
                assert(encoding(m)[1] == dec(mag)[0]);
                assert(s[i + 1] != '-');
                lemma_sp_nat_complete(s, i + 1, mag);
                assert(mag <= 0x7fff_ffff_ffff_ffff);
            } else {
                assert(s[i + 0] == encoding(m)[0]);
                assert(encoding(m)[0] == 'i');
                assert(s[i + 1] == encoding(m)[1]);
                assert(encoding(m)[1] == '-');
                assert forall|k: int| 0 <= k < dl implies s.subrange(i + 2, i + 2 + dl)[k] == dec(
                    mag,
                )[k] by {
                    assert(s[i + (2 + k)] == encoding(m)[2 + k]);
                }
                assert(s.subrange(i + 2, i + 2 + dl) =~= dec(mag));
                assert(s[i + (2 + dl)] == encoding(m)[2 + dl]);
                assert(encoding(m)[2 + dl] == ';');
                assert(!is_digit(';'));
                lemma_sp_nat_complete(s, i + 2, mag);
                assert(1 <= mag <= 0x8000_0000_0000_0000);
                assert(-(mag as int) == iv);
            }
        }
        Val::Text(txt) => {
            let tl = txt.len();
            lemma_dec_digits(tl);
            let dl = dec(tl).len() as int;
            assert(s[i + 0] == encoding(m)[0]);
            assert(encoding(m)[0] == 's');
            assert forall|k: int| 0 <= k < dl implies s.subrange(i + 1, i + 1 + dl)[k] == dec(
                tl,
            )[k] by {
                assert(s[i + (1 + k)] == encoding(m)[1 + k]);
            }
            assert(s.subrange(i + 1, i + 1 + dl) =~= dec(tl));
            assert(s[i + (1 + dl)] == encoding(m)[1 + dl]);
            assert(encoding(m)[1 + dl] == ':');
            assert(!is_digit(':'));
            lemma_sp_nat_complete(s, i + 1, tl);
            let j = i + 1 + dl;
            assert forall|k: int| 0 <= k < tl implies s.subrange(j + 1, j + 1 + tl)[k]
                == txt[k] by {
                assert(s[i + (2 + dl + k)] == encoding(m)[2 + dl + k]);
            }
            assert(s.subrange(j + 1, j + 1 + tl) =~= txt);
        }
        Val::Items(vs) => {
            let count = vs.len();
            lemma_dec_digits(count);
            let dl = dec(count).len() as int;
            assert(s[i + 0] == encoding(m)[0]);
            assert(encoding(m)[0] == 'l');
            assert forall|k: int| 0 <= k < dl implies s.subrange(i + 1, i + 1 + dl)[k] == dec(
                count,
            )[k] by {
                assert(s[i + (1 + k)] == encoding(m)[1 + k]);
            }
            assert(s.subrange(i + 1, i + 1 + dl) =~= dec(count));
            assert(s[i + (1 + dl)] == encoding(m)[1 + dl]);
            assert(encoding(m)[1 + dl] == ':');
            assert(!is_digit(':'));
            lemma_sp_nat_complete(s, i + 1, count);
            let j = i + 1 + dl;
            let body = j + 1;
            let bl = enc_list(vs, 0).len() as int;
            assert forall|k: int| 0 <= k < bl implies s.subrange(body, body + bl)[k] == enc_list(
                vs,
                0,
            )[k] by {
                assert(s[i + (2 + dl + k)] == encoding(m)[2 + dl + k]);
            }
            assert(s.subrange(body, body + bl) =~= enc_list(vs, 0));
            assert forall|k: int| 0 <= k < vs.len() implies (#[trigger] vs[k]).wf() by {
                assert(m.wf());
                assert(m->Items_0 == vs);
                assert(m->Items_0[k].wf());
            }
            lemma_complete_list(s, body, vs, 0);
            assert(vs.subrange(0, vs.len() as int) =~= vs);
        }
        Val::Fields(fs) => {
            let count = fs.len();
            lemma_dec_digits(count);
            let dl = dec(count).len() as int;
            assert(s[i + 0] == encoding(m)[0]);
            assert(encoding(m)[0] == 'd');
            assert forall|k: int| 0 <= k < dl implies s.subrange(i + 1, i + 1 + dl)[k] == dec(
                count,
            )[k] by {
                assert(s[i + (1 + k)] == encoding(m)[1 + k]);
            }
            assert(s.subrange(i + 1, i + 1 + dl) =~= dec(count));
            assert(s[i + (1 + dl)] == encoding(m)[1 + dl]);
            assert(encoding(m)[1 + dl] == ':');
            assert(!is_digit(':'));
            lemma_sp_nat_complete(s, i + 1, count);
            let j = i + 1 + dl;
            let body = j + 1;
            let bl = enc_fields(fs, 0).len() as int;
            assert forall|k: int| 0 <= k < bl implies s.subrange(body, body + bl)[k] == enc_fields(
                fs,
                0,
            )[k] by {
                assert(s[i + (2 + dl + k)] == encoding(m)[2 + dl + k]);
            }
            assert(s.subrange(body, body + bl) =~= enc_fields(fs, 0));
            assert forall|k: int| 0 <= k < fs.len() implies (#[trigger] fs[k]).1.wf() by {
                assert(m.wf());
                assert(m->Fields_0 == fs);
                assert(m->Fields_0[k].1.wf());
            }
            lemma_complete_fields(s, body, fs, 0);
            assert(fs.subrange(0, fs.len() as int) =~= fs);
        }
    }
}

#[verifier::rlimit(50)]
proof fn lemma_complete_list(s: Seq<char>, i: int, vs: Seq<Val>, t: int)
    requires
        0 <= t <= vs.len(),
        0 <= i,
        forall|k: int| 0 <= k < vs.len() ==> (#[trigger] vs[k]).wf(),
        i + enc_list(vs, t).len() <= s.len(),
        s.subrange(i, i + enc_list(vs, t).len() as int) == enc_list(vs, t),
    ensures
        sp_list(s, i, (vs.len() - t) as nat) == Some(
            (vs.subrange(t, vs.len() as int), i + enc_list(vs, t).len() as int),
        ),
    decreases vs, vs.len() - t + 1,
{
    if t == vs.len() {
        assert(enc_list(vs, t).len() == 0);
        assert(vs.subrange(t, vs.len() as int) =~= Seq::<Val>::empty());
    } else {
        let whole = enc_list(vs, t).len() as int;
        assert(enc_list(vs, t) == encoding(vs[t]) + enc_list(vs, t + 1));
        let hl = encoding(vs[t]).len() as int;
        lemma_encoding_nonempty(vs[t]);
        assert forall|k: int| 0 <= k < whole implies s[i + k] == #[trigger] enc_list(vs, t)[k] by {
            assert(s.subrange(i, i + whole)[k] == s[i + k]);
        }
        assert forall|k: int| 0 <= k < hl implies s.subrange(i, i + hl)[k] == encoding(
            vs[t],
        )[k] by {
            assert(s[i + k] == enc_list(vs, t)[k]);
        }
        assert(s.subrange(i, i + hl) =~= encoding(vs[t]));
        lemma_complete_val(s, i, vs[t]);
        let j = i + hl;
        let rl = enc_list(vs, t + 1).len() as int;
        assert forall|k: int| 0 <= k < rl implies #[trigger] s.subrange(j, j + rl)[k] == enc_list(
            vs,
            t + 1,
        )[k] by {
            assert(s[i + (hl + k)] == enc_list(vs, t)[hl + k]);
        }
        assert(s.subrange(j, j + rl) =~= enc_list(vs, t + 1));
        lemma_complete_list(s, j, vs, t + 1);
        assert(seq![vs[t]] + vs.subrange(t + 1, vs.len() as int) =~= vs.subrange(
            t,
            vs.len() as int,
        ));
        assert(((vs.len() - t) as nat - 1) as nat == (vs.len() - (t + 1)) as nat);
    }
}

#[verifier::rlimit(50)]
proof fn lemma_complete_fields(s: Seq<char>, i: int, fs: Seq<(Seq<char>, Val)>, t: int)
    requires
        0 <= t <= fs.len(),
        0 <= i,
        forall|k: int| 0 <= k < fs.len() ==> (#[trigger] fs[k]).1.wf(),
        i + enc_fields(fs, t).len() <= s.len(),
        s.subrange(i, i + enc_fields(fs, t).len() as int) == enc_fields(fs, t),
    ensures
        sp_fields(s, i, (fs.len() - t) as nat) == Some(
            (fs.subrange(t, fs.len() as int), i + enc_fields(fs, t).len() as int),
        ),
    decreases fs, fs.len() - t + 1,
{
    if t == fs.len() {
        assert(enc_fields(fs, t).len() == 0);
        assert(fs.subrange(t, fs.len() as int) =~= Seq::<(Seq<char>, Val)>::empty());
    } else {
        let whole = enc_fields(fs, t).len() as int;
        assert(enc_fields(fs, t) == dec(fs[t].0.len()) + seq![':'] + fs[t].0 + encoding(fs[t].1)
            + enc_fields(fs, t + 1));
        let key = fs[t].0;
        let klen = key.len();
        lemma_dec_digits(klen);
        let dl = dec(klen).len() as int;
        assert forall|k: int| 0 <= k < whole implies s[i + k] == #[trigger] enc_fields(
            fs,
            t,
        )[k] by {
            assert(s.subrange(i, i + whole)[k] == s[i + k]);
        }
        assert forall|k: int| 0 <= k < dl implies s.subrange(i, i + dl)[k] == dec(klen)[k] by {
            assert(s[i + k] == enc_fields(fs, t)[k]);
        }
        assert(s.subrange(i, i + dl) =~= dec(klen));
        assert(s[i + dl] == enc_fields(fs, t)[dl]);
        assert(enc_fields(fs, t)[dl] == ':');
        assert(!is_digit(':'));
        lemma_sp_nat_complete(s, i, klen);
        let j = i + dl;
        assert forall|k: int| 0 <= k < klen implies s.subrange(j + 1, j + 1 + klen)[k]
            == key[k] by {
            assert(s[i + (dl + 1 + k)] == enc_fields(fs, t)[dl + 1 + k]);
        }
        assert(s.subrange(j + 1, j + 1 + klen) =~= key);
        let vstart = j + 1 + klen;
        let hl = encoding(fs[t].1).len() as int;
        lemma_encoding_nonempty(fs[t].1);
        assert forall|k: int| 0 <= k < hl implies s.subrange(vstart, vstart + hl)[k] == encoding(
            fs[t].1,
        )[k] by {
            assert(s[i + (dl + 1 + klen + k)] == enc_fields(fs, t)[dl + 1 + klen + k]);
        }
        assert(s.subrange(vstart, vstart + hl) =~= encoding(fs[t].1));
        lemma_complete_val(s, vstart, fs[t].1);
        let e1 = vstart + hl;
        let rl = enc_fields(fs, t + 1).len() as int;
        assert forall|k: int| 0 <= k < rl implies #[trigger] s.subrange(e1, e1 + rl)[k]
            == enc_fields(fs, t + 1)[k] by {
            assert(s[i + (dl + 1 + klen + hl + k)] == enc_fields(fs, t)[dl + 1 + klen + hl + k]);
        }
        assert(s.subrange(e1, e1 + rl) =~= enc_fields(fs, t + 1));
        lemma_complete_fields(s, e1, fs, t + 1);
        assert(seq![(key, fs[t].1)] + fs.subrange(t + 1, fs.len() as int) =~= fs.subrange(
            t,
            fs.len() as int,
        ));
        assert(((fs.len() - t) as nat - 1) as nat == (fs.len() - (t + 1)) as nat);
    }
}

/// The round-trip law at the specification level: the wire form of every
/// representable value has exactly one reading, the value itself.
pub proof fn lemma_parse_encoding(m: Val)
    requires
        m.wf(),
    ensures
        spec_parse(encoding(m)) == Some(m),
{
    let s = encoding(m);
    assert(s.subrange(0, s.len() as int) =~= s);
    lemma_complete_val(s, 0, m);
}

/// Encodings are injective: two representable values with the same wire
/// form are the same value.
pub proof fn lemma_encoding_injective(a: Val, b: Val)
    requires
        a.wf(),
        b.wf(),
        encoding(a) == encoding(b),
    ensures
        a == b,
{
    lemma_parse_encoding(a);
    lemma_parse_encoding(b);
}

// ---------------------------------------------------------------------------
// Decoding: the executable reader returns exactly what the specification
// parser reads.
// ---------------------------------------------------------------------------
fn is_digit_char(c: char) -> (b: bool)
    ensures
        b == is_digit(c),
{
    c == '0' || c == '1' || c == '2' || c == '3' || c == '4' || c == '5' || c == '6' || c == '7'
        || c == '8' || c == '9'
}

fn digit_of(c: char) -> (d: u64)
    requires
        is_digit(c),
    ensures
        d as nat == digit_val(c),
        d < 10,
{
    if c == '0' {
        0
    } else if c == '1' {
        1
    } else if c == '2' {
        2
    } else if c == '3' {
        3
    } else if c == '4' {
        4
    } else if c == '5' {
        5
    } else if c == '6' {
        6
    } else if c == '7' {
        7
    } else if c == '8' {
        8
    } else {
        9
    }
}

#[verifier::loop_isolation(false)]
fn scan_digits(s: &str, n: usize, i: usize) -> (j: usize)
    requires
        n as nat == s@.len(),
        i <= n,
    ensures
        j as int == sp_digits(s@, i as int),
        i <= j <= n,
{
    let mut cur = i;
    while cur < n && is_digit_char(s.get_char(cur))
        invariant
            i <= cur <= n,
            sp_digits(s@, i as int) == sp_digits(s@, cur as int),
        decreases n - cur,
    {
        cur = cur + 1;
    }
    cur
}

#[verifier::loop_isolation(false)]
#[verifier::rlimit(50)]
fn parse_nat(s: &str, n: usize, i: usize) -> (r: Result<(u64, usize), DecodeError>)
    requires
        n as nat == s@.len(),
        i <= n,
    ensures
        match r {
            Ok(p) => sp_nat(s@, i as int) == Some((p.0 as nat, p.1 as int)) && i < p.1 <= n,
            Err(_) => match sp_nat(s@, i as int) {
                Some((v, _)) => v > u64::MAX,
                None => true,
            },
        },
{
    let j = scan_digits(s, n, i);
    if j == i {
        return Err(DecodeError::Malformed);
    }
    if s.get_char(i) == '0' && j > i + 1 {
        return Err(DecodeError::Malformed);
    }
    proof {
        lemma_sp_digits_range(s@, i as int);
    }
    let mut x: u64 = 0;
    let mut p = i;
    while p < j
        invariant
            i <= p <= j,
            x as nat == digits_val(s@.subrange(i as int, p as int)),
        decreases j - p,
    {
        let c = s.get_char(p);
        let d = digit_of(c);
        if x > (u64::MAX - d) / 10 {
            proof {
                vstd::arithmetic::div_mod::lemma_fundamental_div_mod((u64::MAX - d) as int, 10);
                assert(s@.subrange(i as int, p as int + 1).drop_last() =~= s@.subrange(
                    i as int,
                    p as int,
                ));
                assert(s@.subrange(i as int, p as int + 1).last() == s@[p as int]);
                assert(digits_val(s@.subrange(i as int, p as int + 1)) > u64::MAX);
                lemma_digits_val_extend(s@, i as int, p as int + 1, j as int);
            }
            return Err(DecodeError::OutOfRange);
        }
        x = x * 10 + d;
        proof {
            assert(s@.subrange(i as int, p as int + 1).drop_last() =~= s@.subrange(
                i as int,
                p as int,
            ));
            assert(s@.subrange(i as int, p as int + 1).last() == s@[p as int]);
        }
        p = p + 1;
    }
    Ok((x, j))
}

#[verifier::loop_isolation(false)]
#[verifier::rlimit(100)]
fn parse_val(s: &str, n: usize, i: usize) -> (r: Result<(Value, usize), DecodeError>)
    requires
        n as nat == s@.len(),
        i <= n,
    ensures
        match sp_val(s@, i as int) {
            Some(p) => r matches Ok(q) && q.0@ == p.0 && q.1 as int == p.1 && q.1 <= n,
            None => r is Err,
        },
    decreases n - i,
{
    if i >= n {
        return Err(DecodeError::Truncated);
    }
    let c = s.get_char(i);
    if c == 't' {
        return Ok((Value::Flag(true), i + 1));
    }
    if c == 'f' {
        return Ok((Value::Flag(false), i + 1));
    }
    if c == 'i' {
        let neg = i + 1 < n && s.get_char(i + 1) == '-';
        let d0 = if neg {
            i + 2
        } else {
            i + 1
        };
        match parse_nat(s, n, d0) {
            Err(e) => {
                proof {
                    match sp_nat(s@, d0 as int) {
                        Some((v, j)) => {
                            assert(v > u64::MAX);
                            assert(v > 0x8000_0000_0000_0000);
                            assert(sp_val(s@, i as int) is None);
                        }
                        None => {
                            assert(sp_val(s@, i as int) is None);
                        }
                    }
                }
                return Err(e);
            }
            Ok((x, e0)) => {
                if e0 < n && s.get_char(e0) == ';' {
                    if neg {
                        if 1 <= x && x <= 0x8000_0000_0000_0000u64 {
                            let vi: i64 = if x == 0x8000_0000_0000_0000u64 {
                                i64::MIN
                            } else {
                                -(x as i64)
                            };
                            return Ok((Value::Int(vi), e0 + 1));
                        } else {
                            return Err(DecodeError::OutOfRange);
                        }
                    } else {
                        if x <= 0x7fff_ffff_ffff_ffffu64 {
                            return Ok((Value::Int(x as i64), e0 + 1));
                        } else {
                            return Err(DecodeError::OutOfRange);
                        }
                    }
                } else {
                    return Err(DecodeError::Malformed);
                }
            }
        }
    }
    if c == 's' {
        match parse_nat(s, n, i + 1) {
            Err(e) => {
                proof {
                    lemma_sp_nat_sound(s@, i as int + 1);
                    match sp_nat(s@, i as int + 1) {
                        Some((v, j)) => {
                            assert(n as nat <= u64::MAX);
                            assert(v > n as nat);
                            assert(sp_val(s@, i as int) is None);
                        }
                        None => {
                            assert(sp_val(s@, i as int) is None);
                        }
                    }
                }
                return Err(e);
            }
            Ok((x, e0)) => {
                if !(e0 < n && s.get_char(e0) == ':') {
                    return Err(DecodeError::Malformed);
                }
                let avail = (n - (e0 + 1)) as u64;
                if x > avail {
                    return Err(DecodeError::Truncated);
                }
                let tlen = x as usize;
                let end = e0 + 1 + tlen;
                let txt = s.substring_char(e0 + 1, end).to_owned();
                return Ok((Value::Text(txt), end));
            }
        }
    }
    if c == 'l' {
        match parse_nat(s, n, i + 1) {
            Err(e) => {
                proof {
                    match sp_nat(s@, i as int + 1) {
                        Some((v, j)) => {
                            lemma_sp_list_count_bound(s@, j + 1, v);
                            assert(n as nat <= u64::MAX);
                            assert(v > n as nat);
                            assert(sp_val(s@, i as int) is None);
                        }
                        None => {
                            assert(sp_val(s@, i as int) is None);
                        }
                    }
                }
                return Err(e);
            }
            Ok((cnt, e0)) => {
                if !(e0 < n && s.get_char(e0) == ':') {
                    return Err(DecodeError::Malformed);
                }
                let ghost i0 = e0 as int + 1;
                let ghost k0 = cnt as nat;
                let mut items: Vec<Value> = Vec::new();
                let mut cur = e0 + 1;
                let mut rem = cnt;
                proof {
                    assert(view_items(items@) =~= Seq::<Val>::empty());
                    match sp_list(s@, i0, k0) {
                        Some((tail, e)) => {
                            assert(Seq::<Val>::empty() + tail =~= tail);
                        }
                        None => {}
                    }
                }
                while rem > 0
                    invariant
                        i < cur <= n,
                        rem <= cnt,
                        view_items(items@).len() == cnt - rem,
                        match sp_list(s@, cur as int, rem as nat) {
                            Some((tail, e)) => sp_list(s@, i0, k0) == Some(
                                (view_items(items@) + tail, e),
                            ),
                            None => sp_list(s@, i0, k0) is None,
                        },
                    decreases rem,
                {
                    let ghost acc = view_items(items@);
                    match parse_val(s, n, cur) {
                        Err(e) => {
                            return Err(e);
                        }
                        Ok((w, e1)) => {
                            proof {
                                lemma_sound_val(s@, cur as int);
                                lemma_view_items_push(items@, w);
                                match sp_list(s@, e1 as int, (rem - 1) as nat) {
                                    Some((tail2, e2)) => {
                                        assert((acc + seq![w@]) + tail2 =~= acc + (seq![w@]
                                            + tail2));
                                    }
                                    None => {}
                                }
                            }
                            items.push(w);
                            cur = e1;
                            rem = rem - 1;
                        }
                    }
                }
                proof {
                    assert(sp_list(s@, cur as int, 0) == Some((Seq::<Val>::empty(), cur as int)));
                    assert(view_items(items@) + Seq::<Val>::empty() =~= view_items(items@));
                }
                return Ok((Value::Items(items), cur));
            }
        }
    }
    if c == 'd' {
        match parse_nat(s, n, i + 1) {
            Err(e) => {
                proof {
                    match sp_nat(s@, i as int + 1) {
                        Some((v, j)) => {
                            lemma_sp_fields_count_bound(s@, j + 1, v);
                            assert(n as nat <= u64::MAX);
                            assert(sp_val(s@, i as int) is None);
                        }
                        None => {
                            assert(sp_val(s@, i as int) is None);
                        }
                    }
                }
                return Err(e);
            }
            Ok((cnt, e0)) => {
                if !(e0 < n && s.get_char(e0) == ':') {
                    return Err(DecodeError::Malformed);
                }
                let ghost i0 = e0 as int + 1;
                let ghost k0 = cnt as nat;
                let mut fields: Vec<(String, Value)> = Vec::new();
                let mut cur = e0 + 1;
                let mut rem = cnt;
                proof {
                    assert(view_fields(fields@) =~= Seq::<(Seq<char>, Val)>::empty());
                    match sp_fields(s@, i0, k0) {
                        Some((tail, e)) => {
                            assert(Seq::<(Seq<char>, Val)>::empty() + tail =~= tail);
                        }
                        None => {}
                    }
                }
                while rem > 0
                    invariant
                        i < cur <= n,
                        rem <= cnt,
                        view_fields(fields@).len() == cnt - rem,
                        match sp_fields(s@, cur as int, rem as nat) {
                            Some((tail, e)) => sp_fields(s@, i0, k0) == Some(
                                (view_fields(fields@) + tail, e),
                            ),
                            None => sp_fields(s@, i0, k0) is None,
                        },
                    decreases rem,
                {
                    let ghost acc = view_fields(fields@);
                    match parse_nat(s, n, cur) {
                        Err(e) => {
                            return Err(e);
                        }
                        Ok((kx, ke)) => {
                            if !(ke < n && s.get_char(ke) == ':') {
                                return Err(DecodeError::Malformed);
                            }
                            let avail = (n - (ke + 1)) as u64;
                            if kx > avail {
                                return Err(DecodeError::Truncated);
                            }
                            let klen = kx as usize;
                            let kend = ke + 1 + klen;
                            let key = s.substring_char(ke + 1, kend).to_owned();
                            match parse_val(s, n, kend) {
                                Err(e) => {
                                    return Err(e);
                                }
                                Ok((w, e1)) => {
                                    proof {
                                        lemma_sound_val(s@, kend as int);
                                        lemma_view_fields_push(fields@, key, w);
                                        match sp_fields(s@, e1 as int, (rem - 1) as nat) {
                                            Some((tail2, e2)) => {
                                                assert((acc + seq![(key@, w@)]) + tail2 =~= acc + (
                                                seq![(key@, w@)] + tail2));
                                            }
                                            None => {}
                                        }
                                    }
                                    fields.push((key, w));
                                    cur = e1;
                                    rem = rem - 1;
                                }
                            }
                        }
                    }
                }
                proof {
                    assert(sp_fields(s@, cur as int, 0) == Some(
                        (Seq::<(Seq<char>, Val)>::empty(), cur as int),
                    ));
                    assert(view_fields(fields@) + Seq::<(Seq<char>, Val)>::empty() =~= view_fields(
                        fields@,
                    ));
                }
                return Ok((Value::Fields(fields), cur));
            }
        }
    }
    Err(DecodeError::Malformed)
}

/// A reading with more records than remaining characters is impossible:
/// every record takes at least one character.
proof fn lemma_sp_list_count_bound(s: Seq<char>, i: int, count: nat)
    ensures
        sp_list(s, i, count) is Some ==> count <= s.len() - i,
    decreases s.len() - i, count + 1,
{
    if 0 <= i <= s.len() && count > 0 {
        match sp_val(s, i) {
            None => {}
            Some((m, j)) => {
                if j > i && j <= s.len() {
                    lemma_sp_list_count_bound(s, j, (count - 1) as nat);
                }
            }
        }
    }
}

/// A reading with more fields than remaining characters is impossible:
/// every field takes at least one character.
proof fn lemma_sp_fields_count_bound(s: Seq<char>, i: int, count: nat)
    ensures
        sp_fields(s, i, count) is Some ==> count <= s.len() - i,
    decreases s.len() - i, count + 1,
{
    if 0 <= i <= s.len() && count > 0 {
        match sp_nat(s, i) {
            None => {}
            Some((klen, j)) => {
                if i < j < s.len() && s[j] == ':' && j + 1 + klen <= s.len() {
                    match sp_val(s, j + 1 + klen) {
                        None => {}
                        Some((m, e1)) => {
                            if e1 > i && e1 <= s.len() {
                                lemma_sp_fields_count_bound(s, e1, (count - 1) as nat);
                            }
                        }
                    }
                }
            }
        }
    }
}

/// Pushing one more element extends the abstract form by its view.
proof fn lemma_view_items_push(vs: Seq<Value>, w: Value)
    ensures
        view_items(vs.push(w)) == view_items(vs) + seq![w@],
    decreases vs.len(),
{
    lemma_view_items_index(vs);
    lemma_view_items_index(vs.push(w));
    assert forall|k: int| 0 <= k < vs.push(w).len() implies view_items(vs.push(w))[k] == (
    view_items(vs) + seq![w@])[k] by {
        assert(view_items(vs.push(w))[k] == vs.push(w)[k]@);
        if k < vs.len() {
            assert(vs.push(w)[k] == vs[k]);
            assert(view_items(vs)[k] == vs[k]@);
        } else {
            assert(vs.push(w)[k] == w);
        }
    }
    assert(view_items(vs.push(w)) =~= view_items(vs) + seq![w@]);
}

/// Pushing one more field extends the abstract form by its view.
proof fn lemma_view_fields_push(fs: Seq<(String, Value)>, key: String, w: Value)
    ensures
        view_fields(fs.push((key, w))) == view_fields(fs) + seq![(key@, w@)],
{
    lemma_view_fields_index(fs);
    lemma_view_fields_index(fs.push((key, w)));
    assert forall|k: int| 0 <= k < fs.push((key, w)).len() implies view_fields(fs.push((key, w)))[k]
        == (view_fields(fs) + seq![(key@, w@)])[k] by {
        assert(view_fields(fs.push((key, w)))[k] == (fs.push((key, w))[k].0@, fs.push(
            (key, w),
        )[k].1@));
        if k < fs.len() {
            assert(fs.push((key, w))[k] == fs[k]);
            assert(view_fields(fs)[k] == (fs[k].0@, fs[k].1@));
        } else {
            assert(fs.push((key, w))[k] == (key, w));
        }
    }
    assert(view_fields(fs.push((key, w))) =~= view_fields(fs) + seq![(key@, w@)]);
}

/// Decode a payload back into a value.  Exactly the payloads `encode`
/// produces are accepted: a well-formed payload yields `Ok` with the one
/// value it encodes, and anything else yields a decode error, never a
/// crash and never a silent default.
pub fn decode(s: &str) -> (r: Result<Value, DecodeError>)
    ensures
        r matches Ok(w) ==> w@.wf() && s@ == encoding(w@),
        forall|m: Val| m.wf() && s@ == encoding(m) ==> (r matches Ok(w) && w@ == m),
{
    let n = s.unicode_len();
    let outcome = parse_val(s, n, 0);
    match outcome {
        Err(e) => {
            proof {
                assert forall|m: Val| m.wf() && s@ == encoding(m) implies false by {
                    assert(s@.subrange(0, s@.len() as int) =~= s@);
                    lemma_complete_val(s@, 0, m);
                }
            }
            Err(e)
        }
        Ok((w, e)) => {
            if e == n {
                proof {
                    lemma_sound_val(s@, 0);
                    assert(s@.subrange(0, s@.len() as int) =~= s@);
                    assert forall|m: Val| m.wf() && s@ == encoding(m) implies w@ == m by {
                        lemma_complete_val(s@, 0, m);
                    }
                }
                Ok(w)
            } else {
                proof {
                    assert forall|m: Val| m.wf() && s@ == encoding(m) implies false by {
                        assert(s@.subrange(0, s@.len() as int) =~= s@);
                        lemma_complete_val(s@, 0, m);
                    }
                }
                Err(DecodeError::Malformed)
            }
        }
    }
}

} // verus!
