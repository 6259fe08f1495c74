//! The persisted record format for conversations: a field-tagged,
//! length-prefixed text encoding. Each field is one tag character followed by
//! its payload length as sixteen fixed-width hexadecimal digits and then the
//! payload itself, so records are self-describing and parse deterministically.
//! Decoding is exact: a record decodes to a conversation value if and only if
//! it is the encoding of that value.

use vstd::prelude::*;
use vstd::string::*;
use vstd::arithmetic::div_mod::lemma_fundamental_div_mod;
use vstd::arithmetic::div_mod::lemma_multiply_divide_lt;
use vstd::arithmetic::div_mod::lemma_mod_division_less_than_divisor;
use vstd::arithmetic::div_mod::lemma_fundamental_div_mod_converse;
use crate::conversation::ConversationView;
use crate::conversation::InteractionView;

verus! {

/// Sixteen to the power `w`: the number of values a `w`-digit field can hold.
pub open spec fn pow16(w: nat) -> nat
    decreases w,
{
    if w == 0 {
        1
    } else {
        16 * pow16((w - 1) as nat)
    }
}

/// The lower-case hexadecimal digit character for a value below sixteen.
pub open spec fn hex_char(d: nat) -> char {
    if d == 0 { '0' }
    else if d == 1 { '1' }
    else if d == 2 { '2' }
    else if d == 3 { '3' }
    else if d == 4 { '4' }
    else if d == 5 { '5' }
    else if d == 6 { '6' }
    else if d == 7 { '7' }
    else if d == 8 { '8' }
    else if d == 9 { '9' }
    else if d == 10 { 'a' }
    else if d == 11 { 'b' }
    else if d == 12 { 'c' }
    else if d == 13 { 'd' }
    else if d == 14 { 'e' }
    else { 'f' }
}

/// The value of a hexadecimal digit character; sixteen for any other character.
pub open spec fn hex_char_val(c: char) -> nat {
    if c == '0' { 0 }
    else if c == '1' { 1 }
    else if c == '2' { 2 }
    else if c == '3' { 3 }
    else if c == '4' { 4 }
    else if c == '5' { 5 }
    else if c == '6' { 6 }
    else if c == '7' { 7 }
    else if c == '8' { 8 }
    else if c == '9' { 9 }
    else if c == 'a' { 10 }
    else if c == 'b' { 11 }
    else if c == 'c' { 12 }
    else if c == 'd' { 13 }
    else if c == 'e' { 14 }
    else if c == 'f' { 15 }
    else { 16 }
}

pub open spec fn is_hex_char(c: char) -> bool {
    hex_char_val(c) < 16
}

/// `n` written as exactly `w` hexadecimal digits, most significant first
/// (modulo `pow16(w)`).
pub open spec fn hex_digits(n: nat, w: nat) -> Seq<char>
    decreases w,
{
    if w == 0 {
        Seq::<char>::empty()
    } else {
        hex_digits(n / 16, (w - 1) as nat).push(hex_char(n % 16))
    }
}

/// The value of a sequence of hexadecimal digit characters, most significant
/// first.
pub open spec fn hex_val(s: Seq<char>) -> nat
    decreases s.len(),
{
    if s.len() == 0 {
        0
    } else {
        hex_val(s.drop_last()) * 16 + hex_char_val(s.last())
    }
}

proof fn lemma_pow16_16()
    ensures
        pow16(16) == 0x1_0000_0000_0000_0000,
{
    reveal_with_fuel(pow16, 17);
}

proof fn lemma_hex_digits_len(n: nat, w: nat)
    ensures
        hex_digits(n, w).len() == w,
    decreases w,
{
    if w > 0 {
        lemma_hex_digits_len(n / 16, (w - 1) as nat);
    }
}

proof fn lemma_hex_digits_hex(n: nat, w: nat)
    ensures
        forall|i: int| 0 <= i < hex_digits(n, w).len() ==> is_hex_char(#[trigger] hex_digits(n, w)[i]),
    decreases w,
{
    if w > 0 {
        let wm1 = (w - 1) as nat;
        lemma_hex_digits_hex(n / 16, wm1);
        lemma_hex_digits_len(n / 16, wm1);
        lemma_hex_digits_len(n, w);
        lemma_mod_division_less_than_divisor(n as int, 16);
        let s = hex_digits(n, w);
        let sp = hex_digits(n / 16, wm1);
        assert(hex_char_val(hex_char(n % 16)) == n % 16);
        assert forall|i: int| 0 <= i < s.len() implies is_hex_char(s[i]) by {
            if i < s.len() - 1 {
                assert(s[i] == sp[i]);
            } else {
                assert(s[i] == hex_char(n % 16));
            }
        }
    }
}

proof fn lemma_hex_val_digits(n: nat, w: nat)
    requires
        n < pow16(w),
    ensures
        hex_val(hex_digits(n, w)) == n,
    decreases w,
{
    if w == 0 {
        assert(n == 0);
    } else {
        let wm1 = (w - 1) as nat;
        lemma_multiply_divide_lt(n as int, pow16(wm1) as int, 16);
        lemma_hex_val_digits(n / 16, wm1);
        lemma_hex_digits_len(n / 16, wm1);
        let s = hex_digits(n, w);
        assert(s.drop_last() =~= hex_digits(n / 16, wm1));
        assert(s.last() == hex_char(n % 16));
        lemma_mod_division_less_than_divisor(n as int, 16);
        assert(hex_char_val(hex_char(n % 16)) == n % 16);
        lemma_fundamental_div_mod(n as int, 16);
    }
}

/// One tagged, length-prefixed field: the tag character, then the payload
/// length as sixteen hexadecimal digits, then the payload.
pub open spec fn enc_str_field(tag: char, payload: Seq<char>) -> Seq<char> {
    seq![tag] + hex_digits(payload.len(), 16) + payload
}

/// One interaction as two fields: the question, then the answer.
pub open spec fn enc_interaction(iv: InteractionView) -> Seq<char> {
    enc_str_field('Q', iv.question) + enc_str_field('A', iv.answer)
}

/// All interactions of a history, in order.
pub open spec fn enc_interactions(ivs: Seq<InteractionView>) -> Seq<char>
    decreases ivs.len(),
{
    if ivs.len() == 0 {
        Seq::<char>::empty()
    } else {
        enc_interaction(ivs.first()) + enc_interactions(ivs.drop_first())
    }
}

/// A whole conversation record: the identifier field, then the interaction
/// count field, then every interaction in order.
pub open spec fn enc_conv(cv: ConversationView) -> Seq<char> {
    enc_str_field('I', cv.id) + seq!['N'] + hex_digits(cv.interactions.len(), 16)
        + enc_interactions(cv.interactions)
}

/// A conversation whose component lengths fit the fixed-width length fields.
/// Every conversation held in memory satisfies this: each length is a machine
/// size.
pub open spec fn fits(cv: ConversationView) -> bool {
    &&& cv.id.len() < pow16(16)
    &&& cv.interactions.len() < pow16(16)
    &&& forall|i: int|
        0 <= i < cv.interactions.len() ==> (#[trigger] cv.interactions[i]).question.len() < pow16(
            16,
        ) && cv.interactions[i].answer.len() < pow16(16)
}

proof fn lemma_usize_fits_width()
    ensures
        usize::MAX < pow16(16),
{
    lemma_pow16_16();
}

proof fn lemma_enc_interactions_push(ivs: Seq<InteractionView>, iv: InteractionView)
    ensures
        enc_interactions(ivs.push(iv)) == enc_interactions(ivs) + enc_interaction(iv),
    decreases ivs.len(),
{
    let p = ivs.push(iv);
    if ivs.len() == 0 {
        assert(p.first() == iv);
        assert(p.drop_first() =~= Seq::<InteractionView>::empty());
        assert(enc_interactions(p) == enc_interaction(iv) + enc_interactions(
            Seq::<InteractionView>::empty(),
        ));
        assert(enc_interactions(Seq::<InteractionView>::empty()) == Seq::<char>::empty());
        assert(enc_interactions(ivs) == Seq::<char>::empty());
        assert(enc_interactions(p) =~= enc_interactions(ivs) + enc_interaction(iv));
    } else {
        assert(p.first() == ivs.first());
        assert(p.drop_first() =~= ivs.drop_first().push(iv));
        lemma_enc_interactions_push(ivs.drop_first(), iv);
        assert(enc_interactions(p) == enc_interaction(ivs.first()) + enc_interactions(
            ivs.drop_first().push(iv),
        ));
        assert(enc_interactions(ivs.drop_first().push(iv)) == enc_interactions(ivs.drop_first())
            + enc_interaction(iv));
        assert(enc_interactions(ivs) == enc_interaction(ivs.first()) + enc_interactions(
            ivs.drop_first(),
        ));
        assert(enc_interactions(p) =~= enc_interactions(ivs) + enc_interaction(iv));
    }
}

/// Appends one hexadecimal digit character for a value below sixteen.
fn append_hex_digit(out: &mut String, d: usize)
    requires
        d < 16,
    ensures
        final(out)@ == old(out)@.push(hex_char(d as nat)),
{
    let digit: &str = if d == 0 { "0" }
    else if d == 1 { "1" }
    else if d == 2 { "2" }
    else if d == 3 { "3" }
    else if d == 4 { "4" }
    else if d == 5 { "5" }
    else if d == 6 { "6" }
    else if d == 7 { "7" }
    else if d == 8 { "8" }
    else if d == 9 { "9" }
    else if d == 10 { "a" }
    else if d == 11 { "b" }
    else if d == 12 { "c" }
    else if d == 13 { "d" }
    else if d == 14 { "e" }
    else { "f" };
    out.append(digit);
    proof {
        reveal_strlit("0");
        reveal_strlit("1");
        reveal_strlit("2");
        reveal_strlit("3");
        reveal_strlit("4");
        reveal_strlit("5");
        reveal_strlit("6");
        reveal_strlit("7");
        reveal_strlit("8");
        reveal_strlit("9");
        reveal_strlit("a");
        reveal_strlit("b");
        reveal_strlit("c");
        reveal_strlit("d");
        reveal_strlit("e");
        reveal_strlit("f");
        assert(out@ =~= old(out)@.push(hex_char(d as nat)));
    }
}

/// Appends `n` as exactly `w` hexadecimal digits, most significant first.
fn append_hex(out: &mut String, n: usize, w: usize)
    ensures
        final(out)@ == old(out)@ + hex_digits(n as nat, w as nat),
    decreases w,
{
    if w == 0 {
        proof {
            assert(out@ =~= old(out)@ + hex_digits(n as nat, 0));
        }
    } else {
        append_hex(out, n / 16, w - 1);
        append_hex_digit(out, n % 16);
        proof {
            assert(out@ =~= old(out)@ + hex_digits(n as nat, w as nat));
        }
    }
}

/// Appends one tagged, length-prefixed field.
fn append_str_field(out: &mut String, tag: &str, payload: &str)
    requires
        tag@.len() == 1,
    ensures
        final(out)@ == old(out)@ + enc_str_field(tag@[0], payload@),
        payload@.len() <= usize::MAX,
{
    out.append(tag);
    let len = payload.unicode_len();
    append_hex(out, len, 16);
    out.append(payload);
    proof {
        assert(seq![tag@[0]] =~= tag@);
        assert(out@ =~= old(out)@ + enc_str_field(tag@[0], payload@));
    }
}

/// Serializes a conversation into its field-tagged record.
pub fn encode_conversation(c: &crate::conversation::Conversation) -> (r: String)
    ensures
        r@ == enc_conv(c@),
        fits(c@),
{
    proof {
        reveal_strlit("I");
        reveal_strlit("N");
        reveal_strlit("Q");
        reveal_strlit("A");
        lemma_usize_fits_width();
    }
    let mut out = String::new();
    append_str_field(&mut out, "I", id_text(c));
    out.append("N");
    let k = c.interactions.len();
    append_hex(&mut out, k, 16);
    let ghost header = enc_str_field('I', c@.id) + seq!['N'] + hex_digits(
        c@.interactions.len(),
        16,
    );
    proof {
        assert(out@ =~= header);
        assert(out@ =~= header + enc_interactions(c@.interactions.take(0)));
    }
    let mut i: usize = 0;
    while i < k
        invariant
            i <= k,
            k == c.interactions@.len(),
            out@ == header + enc_interactions(c@.interactions.take(i as int)),
            forall|j: int|
                0 <= j < i ==> (#[trigger] c@.interactions[j]).question.len() <= usize::MAX
                    && c@.interactions[j].answer.len() <= usize::MAX,
        decreases k - i,
    {
        proof {
            reveal_strlit("Q");
            reveal_strlit("A");
        }
        append_str_field(&mut out, "Q", question_text(c, i));
        append_str_field(&mut out, "A", answer_text(c, i));
        proof {
            lemma_enc_interactions_push(
                c@.interactions.take(i as int),
                c@.interactions[i as int],
            );
            assert(c@.interactions.take(i as int + 1) =~= c@.interactions.take(i as int).push(
                c@.interactions[i as int],
            ));
            assert(out@ =~= header + enc_interactions(c@.interactions.take(i as int + 1)));
        }
        i = i + 1;
    }
    proof {
        assert(c@.interactions.take(k as int) =~= c@.interactions);
        assert(out@ =~= enc_conv(c@));
        lemma_usize_fits_width();
    }
    out
}

/// Every character of `s` is a hexadecimal digit.
pub open spec fn all_hex(s: Seq<char>) -> bool {
    forall|i: int| 0 <= i < s.len() ==> is_hex_char(#[trigger] s[i])
}

/// Reads the sixteen-digit length field starting at `pos`, if well formed.
pub open spec fn dec_hex16_at(s: Seq<char>, pos: int) -> Option<nat> {
    if 0 <= pos && pos + 16 <= s.len() && all_hex(s.subrange(pos, pos + 16)) {
        Some(hex_val(s.subrange(pos, pos + 16)))
    } else {
        None
    }
}

/// Reads one tagged, length-prefixed field starting at `pos`: the payload and
/// the position just past it.
pub open spec fn dec_field(tag: char, s: Seq<char>, pos: int) -> Option<(Seq<char>, int)> {
    if 0 <= pos < s.len() && s[pos] == tag {
        match dec_hex16_at(s, pos + 1) {
            Some(len) => if pos + 17 + len <= s.len() {
                Some((s.subrange(pos + 17, pos + 17 + len), pos + 17 + len))
            } else {
                None
            },
            None => None,
        }
    } else {
        None
    }
}

/// Reads exactly `k` interactions starting at `pos`.
pub open spec fn dec_interactions(s: Seq<char>, pos: int, k: nat) -> Option<
    (Seq<InteractionView>, int),
>
    decreases k,
{
    if k == 0 {
        Some((Seq::<InteractionView>::empty(), pos))
    } else {
        match dec_field('Q', s, pos) {
            Some(q) => match dec_field('A', s, q.1) {
                Some(a) => match dec_interactions(s, a.1, (k - 1) as nat) {
                    Some(rest) => Some(
                        (seq![(InteractionView { question: q.0, answer: a.0 })] + rest.0, rest.1),
                    ),
                    None => None,
                },
                None => None,
            },
            None => None,
        }
    }
}

/// Parses a whole record. A record parses to `Some(cv)` exactly when it is
/// `enc_conv(cv)`; everything else is malformed.
pub open spec fn dec_conv(s: Seq<char>) -> Option<ConversationView> {
    match dec_field('I', s, 0) {
        Some(idp) => if idp.1 < s.len() && s[idp.1] == 'N' {
            match dec_hex16_at(s, idp.1 + 1) {
                Some(k) => match dec_interactions(s, idp.1 + 17, k) {
                    Some(ivs) => if ivs.1 == s.len() {
                        Some((ConversationView { id: idp.0, interactions: ivs.0 }))
                    } else {
                        None
                    },
                    None => None,
                },
                None => None,
            }
        } else {
            None
        },
        None => None,
    }
}

proof fn lemma_pow16_vals()
    ensures
        pow16(15) == 0x1000_0000_0000_0000,
        pow16(16) == 0x1_0000_0000_0000_0000,
{
    reveal_with_fuel(pow16, 17);
}

proof fn lemma_pow16_le(a: nat, b: nat)
    requires
        a <= b,
    ensures
        pow16(a) <= pow16(b),
    decreases b,
{
    if a < b {
        lemma_pow16_le(a, (b - 1) as nat);
        assert(pow16(b) == 16 * pow16((b - 1) as nat));
    }
}

proof fn lemma_enc_str_field_len(tag: char, payload: Seq<char>)
    ensures
        enc_str_field(tag, payload).len() == 17 + payload.len(),
{
    lemma_hex_digits_len(payload.len(), 16);
}

proof fn lemma_dec_hex16_at_digits(s: Seq<char>, pos: int, m: nat)
    requires
        0 <= pos,
        pos + 16 <= s.len(),
        m < pow16(16),
        s.subrange(pos, pos + 16) == hex_digits(m, 16),
    ensures
        dec_hex16_at(s, pos) == Some(m),
{
    lemma_hex_digits_hex(m, 16);
    lemma_hex_val_digits(m, 16);
}

/// A field embedded between any prefix and suffix reads back exactly its
/// payload.
proof fn lemma_dec_field_enc(tag: char, payload: Seq<char>, pre: Seq<char>, rest: Seq<char>)
    requires
        payload.len() < pow16(16),
    ensures
        ({
            let s = pre + enc_str_field(tag, payload) + rest;
            dec_field(tag, s, pre.len() as int) == Some(
                (payload, pre.len() + 17 + payload.len() as int),
            )
        }),
{
    let s = pre + enc_str_field(tag, payload) + rest;
    let pos = pre.len() as int;
    lemma_enc_str_field_len(tag, payload);
    lemma_hex_digits_len(payload.len(), 16);
    assert(s.len() == pre.len() + 17 + payload.len() + rest.len());
    assert(s[pos] == tag);
    assert(s.subrange(pos + 1, pos + 17) =~= hex_digits(payload.len(), 16));
    lemma_dec_hex16_at_digits(s, pos + 1, payload.len());
    assert(s.subrange(pos + 17, pos + 17 + payload.len()) =~= payload);
}

/// A run of encoded interactions embedded between any prefix and suffix reads
/// back exactly those interactions.
proof fn lemma_dec_interactions_enc(ivs: Seq<InteractionView>, pre: Seq<char>, rest: Seq<char>)
    requires
        forall|i: int|
            0 <= i < ivs.len() ==> (#[trigger] ivs[i]).question.len() < pow16(16)
                && ivs[i].answer.len() < pow16(16),
    ensures
        ({
            let s = pre + enc_interactions(ivs) + rest;
            dec_interactions(s, pre.len() as int, ivs.len()) == Some(
                (ivs, pre.len() + enc_interactions(ivs).len() as int),
            )
        }),
    decreases ivs.len(),
{
    let s = pre + enc_interactions(ivs) + rest;
    if ivs.len() == 0 {
        assert(enc_interactions(ivs) == Seq::<char>::empty());
        assert(Seq::<InteractionView>::empty() =~= ivs);
    } else {
        let iv0 = ivs.first();
        let tail = ivs.drop_first();
        let eq = enc_str_field('Q', iv0.question);
        let ea = enc_str_field('A', iv0.answer);
        let erest = enc_interactions(tail);
        assert(enc_interactions(ivs) == enc_interaction(iv0) + erest);
        assert(iv0.question.len() < pow16(16) && iv0.answer.len() < pow16(16)) by {
            assert(ivs[0] == iv0);
        }
        assert(s =~= pre + eq + (ea + erest + rest));
        lemma_dec_field_enc('Q', iv0.question, pre, ea + erest + rest);
        let pq = pre.len() + 17 + iv0.question.len();
        assert(dec_field('Q', s, pre.len() as int) == Some((iv0.question, pq as int)));
        let pre2 = pre + eq;
        assert(pre2.len() == pq) by {
            lemma_enc_str_field_len('Q', iv0.question);
        }
        assert(s =~= pre2 + ea + (erest + rest));
        lemma_dec_field_enc('A', iv0.answer, pre2, erest + rest);
        let pa = pre2.len() + 17 + iv0.answer.len();
        assert(dec_field('A', s, pq as int) == Some((iv0.answer, pa as int)));
        let pre3 = pre2 + ea;
        assert(pre3.len() == pa) by {
            lemma_enc_str_field_len('A', iv0.answer);
        }
        assert forall|i: int| 0 <= i < tail.len() implies (#[trigger] tail[i]).question.len()
            < pow16(16) && tail[i].answer.len() < pow16(16) by {
            assert(tail[i] == ivs[i + 1]);
        }
        assert(s =~= pre3 + erest + rest);
        lemma_dec_interactions_enc(tail, pre3, rest);
        assert(dec_interactions(s, pa as int, tail.len()) == Some(
            (tail, pre3.len() + erest.len() as int),
        ));
        assert(seq![iv0] + tail =~= ivs);
        assert((InteractionView { question: iv0.question, answer: iv0.answer }) == iv0);
        assert(seq![(InteractionView { question: iv0.question, answer: iv0.answer })] + tail
            =~= ivs);
        assert(pre3.len() + erest.len() == pre.len() + enc_interactions(ivs).len()) by {
            lemma_enc_str_field_len('Q', iv0.question);
            lemma_enc_str_field_len('A', iv0.answer);
        }
    }
}

/// The codec round trip: decoding the encoding of any conversation value
/// whose lengths fit the fixed-width length fields yields that value again.
pub proof fn lemma_codec_round_trip(cv: ConversationView)
    requires
        fits(cv),
    ensures
        dec_conv(enc_conv(cv)) == Some(cv),
{
    let s = enc_conv(cv);
    let id = cv.id;
    let k = cv.interactions.len();
    let eid = enc_str_field('I', id);
    let hk = hex_digits(k, 16);
    let eivs = enc_interactions(cv.interactions);
    lemma_enc_str_field_len('I', id);
    lemma_hex_digits_len(k, 16);
    assert(s =~= Seq::<char>::empty() + eid + (seq!['N'] + hk + eivs));
    lemma_dec_field_enc('I', id, Seq::<char>::empty(), seq!['N'] + hk + eivs);
    let p1 = 17 + id.len() as int;
    assert(dec_field('I', s, 0) == Some((id, p1)));
    assert(s.len() == eid.len() + 1 + 16 + eivs.len());
    assert(s[p1] == 'N');
    assert(s.subrange(p1 + 1, p1 + 17) =~= hk);
    lemma_dec_hex16_at_digits(s, p1 + 1, k);
    let pre3 = eid + seq!['N'] + hk;
    assert(pre3.len() == p1 + 17);
    assert(s =~= pre3 + eivs + Seq::<char>::empty());
    lemma_dec_interactions_enc(cv.interactions, pre3, Seq::<char>::empty());
    assert(dec_interactions(s, p1 + 17, k) == Some((cv.interactions, pre3.len() + eivs.len() as int)));
    assert(pre3.len() + eivs.len() == s.len());
    assert((ConversationView { id: id, interactions: cv.interactions }) == cv);
}

proof fn lemma_hex_digits_of_val(d: Seq<char>)
    requires
        all_hex(d),
    ensures
        hex_val(d) < pow16(d.len()),
        hex_digits(hex_val(d), d.len()) == d,
    decreases d.len(),
{
    if d.len() == 0 {
        assert(hex_digits(0, 0) =~= d);
    } else {
        let dp = d.drop_last();
        let c = d.last();
        assert forall|i: int| 0 <= i < dp.len() implies is_hex_char(dp[i]) by {
            assert(dp[i] == d[i]);
        }
        assert(is_hex_char(c)) by {
            assert(d[d.len() - 1] == c);
        }
        lemma_hex_digits_of_val(dp);
        let hv = hex_val(d);
        let hvp = hex_val(dp);
        let vc = hex_char_val(c);
        assert(hv == hvp * 16 + vc);
        assert(pow16(d.len()) == 16 * pow16(dp.len()));
        assert(hv < pow16(d.len()));
        lemma_fundamental_div_mod_converse(hv as int, 16, hvp as int, vc as int);
        assert(hv / 16 == hvp && hv % 16 == vc);
        assert(hex_char(vc) == c);
        assert(hex_digits(hv, d.len()) =~= d);
    }
}

proof fn lemma_dec_field_sound(tag: char, s: Seq<char>, pos: int)
    ensures
        dec_field(tag, s, pos) matches Some(p) ==> {
            &&& 0 <= pos
            &&& p.0.len() < pow16(16)
            &&& pos + 17 + p.0.len() == p.1 <= s.len()
            &&& s.subrange(pos, p.1) == enc_str_field(tag, p.0)
        },
{
    match dec_field(tag, s, pos) {
        Some(p) => {
            let hd = s.subrange(pos + 1, pos + 17);
            assert(all_hex(hd));
            lemma_hex_digits_of_val(hd);
            assert(hd.len() == 16);
            assert(p.0 == s.subrange(pos + 17, p.1));
            assert(hex_digits(p.0.len(), 16) == hd);
            assert(s.subrange(pos, p.1) =~= seq![tag] + hex_digits(p.0.len(), 16) + p.0);
        },
        None => {},
    }
}

proof fn lemma_dec_interactions_sound(s: Seq<char>, pos: int, k: nat)
    requires
        0 <= pos <= s.len(),
    ensures
        dec_interactions(s, pos, k) matches Some(r) ==> {
            &&& r.0.len() == k
            &&& pos <= r.1 <= s.len()
            &&& s.subrange(pos, r.1) == enc_interactions(r.0)
            &&& forall|i: int|
                0 <= i < r.0.len() ==> (#[trigger] r.0[i]).question.len() < pow16(16)
                    && r.0[i].answer.len() < pow16(16)
        },
    decreases k,
{
    if k == 0 {
        assert(s.subrange(pos, pos) =~= Seq::<char>::empty());
        assert(enc_interactions(Seq::<InteractionView>::empty()) == Seq::<char>::empty());
    } else {
        match dec_field('Q', s, pos) {
            Some(q) => {
                lemma_dec_field_sound('Q', s, pos);
                match dec_field('A', s, q.1) {
                    Some(a) => {
                        lemma_dec_field_sound('A', s, q.1);
                        match dec_interactions(s, a.1, (k - 1) as nat) {
                            Some(rest) => {
                                lemma_dec_interactions_sound(s, a.1, (k - 1) as nat);
                                let iv = (InteractionView { question: q.0, answer: a.0 });
                                let ivs = seq![iv] + rest.0;
                                assert(ivs.first() == iv);
                                assert(ivs.drop_first() =~= rest.0);
                                assert(enc_interactions(ivs) == enc_interaction(ivs.first())
                                    + enc_interactions(ivs.drop_first()));
                                assert(s.subrange(pos, rest.1) =~= s.subrange(pos, q.1)
                                    + s.subrange(q.1, a.1) + s.subrange(a.1, rest.1));
                                assert(enc_interaction(iv) == enc_str_field('Q', q.0)
                                    + enc_str_field('A', a.0));
                                assert(s.subrange(pos, rest.1) =~= enc_interactions(ivs));
                                assert forall|i: int|
                                    0 <= i < ivs.len() implies (#[trigger] ivs[i]).question.len()
                                    < pow16(16) && ivs[i].answer.len() < pow16(16) by {
                                    if i > 0 {
                                        assert(ivs[i] == rest.0[i - 1]);
                                    } else {
                                        assert(ivs[0] == iv);
                                    }
                                }
                            },
                            None => {},
                        }
                    },
                    None => {},
                }
            },
            None => {},
        }
    }
}

/// Decoding is sound: a record that parses at all is precisely the encoding
/// of the conversation value it parses to. Together with
/// `lemma_codec_round_trip` this makes decoding exact: a record decodes to
/// `Some(cv)` if and only if it is `enc_conv(cv)`.
pub proof fn lemma_codec_sound(s: Seq<char>, cv: ConversationView)
    requires
        dec_conv(s) == Some(cv),
    ensures
        s == enc_conv(cv),
        fits(cv),
{
    match dec_field('I', s, 0) {
        Some(idp) => {
            lemma_dec_field_sound('I', s, 0);
            assert(idp.1 < s.len() && s[idp.1] == 'N');
            match dec_hex16_at(s, idp.1 + 1) {
                Some(k) => {
                    let hd = s.subrange(idp.1 + 1, idp.1 + 17);
                    lemma_hex_digits_of_val(hd);
                    assert(hex_val(hd) == k && hd.len() == 16);
                    match dec_interactions(s, idp.1 + 17, k) {
                        Some(ivs) => {
                            lemma_dec_interactions_sound(s, idp.1 + 17, k);
                            assert(ivs.1 == s.len());
                            assert(cv == (ConversationView {
                                id: idp.0,
                                interactions: ivs.0,
                            }));
                            assert(cv.interactions.len() == k);
                            assert(hex_digits(cv.interactions.len(), 16) == hd);
                            assert(s.subrange(idp.1, idp.1 + 1) =~= seq!['N']);
                            assert(s =~= s.subrange(0, idp.1) + s.subrange(idp.1, idp.1 + 1)
                                + s.subrange(idp.1 + 1, idp.1 + 17) + s.subrange(
                                idp.1 + 17,
                                s.len() as int,
                            ));
                            assert(s =~= enc_conv(cv));
                        },
                        None => {
                            assert(false);
                        },
                    }
                },
                None => {
                    assert(false);
                },
            }
        },
        None => {
            assert(false);
        },
    }
}

/// A successful parse of `k` interactions consumes at least 34 characters per
/// interaction and never runs past the end.
proof fn lemma_dec_interactions_advance(s: Seq<char>, pos: int, k: nat)
    requires
        0 <= pos <= s.len(),
    ensures
        dec_interactions(s, pos, k) matches Some(r) ==> pos <= r.1 <= s.len() && r.1 >= pos + 34
            * k,
    decreases k,
{
    if k > 0 {
        match dec_field('Q', s, pos) {
            Some(q) => {
                assert(pos + 17 <= q.1 <= s.len());
                match dec_field('A', s, q.1) {
                    Some(a) => {
                        assert(q.1 + 17 <= a.1 <= s.len());
                        lemma_dec_interactions_advance(s, a.1, (k - 1) as nat);
                        match dec_interactions(s, a.1, (k - 1) as nat) {
                            Some(rest) => {
                                assert(rest.1 >= a.1 + 34 * ((k - 1) as nat));
                                assert(34 * ((k - 1) as nat) == 34 * k - 34);
                                assert(rest.1 >= pos + 34 * k);
                                assert(dec_interactions(s, pos, k) == Some(
                                    (
                                        seq![(InteractionView { question: q.0, answer: a.0 })]
                                            + rest.0,
                                        rest.1,
                                    ),
                                ));
                            },
                            None => {},
                        }
                    },
                    None => {},
                }
            },
            None => {},
        }
    }
}

/// The value of one hexadecimal digit character; sixteen for any other.
fn hex_char_value(c: char) -> (r: usize)
    ensures
        r == hex_char_val(c),
{
    if c == '0' { 0 }
    else if c == '1' { 1 }
    else if c == '2' { 2 }
    else if c == '3' { 3 }
    else if c == '4' { 4 }
    else if c == '5' { 5 }
    else if c == '6' { 6 }
    else if c == '7' { 7 }
    else if c == '8' { 8 }
    else if c == '9' { 9 }
    else if c == 'a' { 10 }
    else if c == 'b' { 11 }
    else if c == 'c' { 12 }
    else if c == 'd' { 13 }
    else if c == 'e' { 14 }
    else if c == 'f' { 15 }
    else { 16 }
}

/// Reads the sixteen-digit length field at `pos`. Returns `None` exactly when
/// the field is malformed or its value does not fit a machine size.
fn parse_hex16(s: &str, n: usize, pos: usize) -> (r: Option<usize>)
    requires
        n == s@.len(),
        pos <= n,
    ensures
        match r {
            Some(v) => dec_hex16_at(s@, pos as int) == Some(v as nat),
            None => dec_hex16_at(s@, pos as int) is None || dec_hex16_at(s@, pos as int)->Some_0
                > usize::MAX,
        },
{
    if n - pos < 16 {
        return None;
    }
    let mut v: u128 = 0;
    let mut j: usize = 0;
    while j < 16
        invariant
            j <= 16,
            pos + 16 <= n,
            n == s@.len(),
            v as nat == hex_val(s@.subrange(pos as int, pos as int + j as int)),
            all_hex(s@.subrange(pos as int, pos as int + j as int)),
            v < pow16(j as nat),
        decreases 16 - j,
    {
        let c = s.get_char(pos + j);
        let d = hex_char_value(c);
        if d == 16 {
            proof {
                let full = s@.subrange(pos as int, pos as int + 16);
                assert(full[j as int] == c);
                assert(!is_hex_char(c));
                assert(!all_hex(full));
            }
            return None;
        }
        proof {
            lemma_pow16_le(j as nat, 15);
            lemma_pow16_vals();
            assert(pow16(j as nat + 1) == 16 * pow16(j as nat));
        }
        v = v * 16 + d as u128;
        proof {
            let sub1 = s@.subrange(pos as int, pos as int + j as int + 1);
            assert(sub1.drop_last() =~= s@.subrange(pos as int, pos as int + j as int));
            assert(sub1.last() == s@[pos as int + j as int]);
        }
        j = j + 1;
    }
    proof {
        assert(dec_hex16_at(s@, pos as int) == Some(hex_val(s@.subrange(pos as int, pos as int + 16))));
    }
    if v <= usize::MAX as u128 {
        Some(v as usize)
    } else {
        None
    }
}

/// Reads one tagged, length-prefixed field at `pos`: its payload and the
/// position just past it.
fn parse_field(s: &str, n: usize, pos: usize, tag: char) -> (r: Option<(String, usize)>)
    requires
        n == s@.len(),
        pos <= n,
    ensures
        match r {
            Some(p) => dec_field(tag, s@, pos as int) == Some((p.0@, p.1 as int)) && pos < p.1
                <= n,
            None => dec_field(tag, s@, pos as int) is None,
        },
{
    if pos >= n {
        return None;
    }
    let c = s.get_char(pos);
    if c != tag {
        return None;
    }
    match parse_hex16(s, n, pos + 1) {
        None => {
            proof {
                if dec_hex16_at(s@, pos as int + 1) is Some {
                    let len = dec_hex16_at(s@, pos as int + 1)->Some_0;
                    assert(len > usize::MAX);
                    assert(pos + 17 + len > n);
                }
            }
            None
        },
        Some(len) => {
            proof {
                assert(dec_hex16_at(s@, pos as int + 1) == Some(len as nat));
                assert(pos + 17 <= n);
            }
            if len <= n - (pos + 17) {
                let payload = s.substring_char(pos + 17, pos + 17 + len).to_owned();
                Some((payload, pos + 17 + len))
            } else {
                proof {
                    assert(pos + 17 + len > n);
                }
                None
            }
        },
    }
}

/// Deserializes a record. Returns the conversation it encodes, or `None`
/// exactly when the record is malformed (is no conversation's encoding).
pub fn decode_conversation(s: &str) -> (r: Option<crate::conversation::Conversation>)
    ensures
        match r {
            Some(c) => dec_conv(s@) == Some(c@),
            None => dec_conv(s@) is None,
        },
{
    let n = s.unicode_len();
    let idp = match parse_field(s, n, 0, 'I') {
        Some(p) => p,
        None => {
            return None;
        },
    };
    let id = idp.0;
    let p1 = idp.1;
    let ghost gid = id@;
    if p1 >= n {
        return None;
    }
    let c1 = s.get_char(p1);
    if c1 != 'N' {
        return None;
    }
    let k = match parse_hex16(s, n, p1 + 1) {
        Some(k) => k,
        None => {
            proof {
                if dec_hex16_at(s@, p1 as int + 1) is Some {
                    let k0 = dec_hex16_at(s@, p1 as int + 1)->Some_0;
                    assert(k0 > usize::MAX);
                    assert(p1 + 17 <= n);
                    lemma_dec_interactions_advance(s@, p1 as int + 17, k0);
                    match dec_interactions(s@, p1 as int + 17, k0) {
                        Some(r2) => {
                            assert(r2.1 >= p1 + 17 + 34 * k0);
                            assert(34 * k0 > n);
                            assert(false);
                        },
                        None => {},
                    }
                }
            }
            return None;
        },
    };
    proof {
        assert(p1 + 17 <= n);
    }
    let mut pos: usize = p1 + 17;
    let mut out: Vec<crate::conversation::Interaction> = Vec::new();
    let mut i: usize = 0;
    while i < k
        invariant
            i <= k,
            pos <= n,
            n == s@.len(),
            out@.len() == i,
            dec_field('I', s@, 0) == Some((gid, p1 as int)),
            p1 < n,
            s@[p1 as int] == 'N',
            dec_hex16_at(s@, p1 as int + 1) == Some(k as nat),
            dec_interactions(s@, p1 as int + 17, k as nat) == (match dec_interactions(
                s@,
                pos as int,
                (k - i) as nat,
            ) {
                Some(r2) => Some(
                    (
                        Seq::new(out@.len(), |j: int| out@[j]@) + r2.0,
                        r2.1,
                    ),
                ),
                None => None::<(Seq<InteractionView>, int)>,
            }),
        decreases k - i,
    {
        let q = match parse_field(s, n, pos, 'Q') {
            Some(p) => p,
            None => {
                return None;
            },
        };
        let a = match parse_field(s, n, q.1, 'A') {
            Some(p) => p,
            None => {
                return None;
            },
        };
        let ghost old_views = Seq::new(out@.len(), |j: int| out@[j]@);
        let ghost qv = q.0@;
        let ghost av = a.0@;
        let newpos = a.1;
        out.push(crate::conversation::Interaction { question: q.0, answer: a.0 });
        proof {
            let new_views = Seq::new(out@.len(), |j: int| out@[j]@);
            assert(new_views =~= old_views.push((InteractionView { question: qv, answer: av })));
            match dec_interactions(s@, newpos as int, ((k - i) - 1) as nat) {
                Some(rest) => {
                    assert(dec_interactions(s@, pos as int, (k - i) as nat) == Some(
                        (
                            seq![(InteractionView { question: qv, answer: av })] + rest.0,
                            rest.1,
                        ),
                    ));
                    assert(old_views + (seq![(InteractionView { question: qv, answer: av })]
                        + rest.0) =~= new_views + rest.0);
                },
                None => {
                    assert(dec_interactions(s@, pos as int, (k - i) as nat) is None);
                },
            }
        }
        pos = newpos;
        i = i + 1;
    }
    proof {
        assert(dec_interactions(s@, pos as int, 0) == Some(
            (Seq::<InteractionView>::empty(), pos as int),
        ));
        let views = Seq::new(out@.len(), |j: int| out@[j]@);
        assert(views + Seq::<InteractionView>::empty() =~= views);
    }
    if pos != n {
        return None;
    }
    let conv = crate::conversation::Conversation { id, interactions: out };
    proof {
        assert(conv@.interactions =~= Seq::new(conv.interactions@.len(), |j: int| conv.interactions@[j]@));
        assert(dec_conv(s@) == Some(conv@));
    }
    Some(conv)
}

/// The identifier text of a conversation.
fn id_text(c: &crate::conversation::Conversation) -> (r: &str)
    ensures
        r@ == c@.id,
{
    c.id.as_str()
}

/// The question text of the interaction at `i`.
fn question_text(c: &crate::conversation::Conversation, i: usize) -> (r: &str)
    requires
        i < c.interactions@.len(),
    ensures
        r@ == c@.interactions[i as int].question,
{
    c.interactions[i].question.as_str()
}

/// The answer text of the interaction at `i`.
fn answer_text(c: &crate::conversation::Conversation, i: usize) -> (r: &str)
    requires
        i < c.interactions@.len(),
    ensures
        r@ == c@.interactions[i as int].answer,
{
    c.interactions[i].answer.as_str()
}

} // verus!
