//! Turning the bytes typed at the terminal into characters and key events.
use vstd::prelude::*;

use crate::text::push_char;
use vstd::utf8::{
    codepoint_width_1, codepoint_width_2, codepoint_width_3, codepoint_width_4, decode_first_codepoint,
    encode_utf8, is_scalar, length_of_first_scalar, valid_first_scalar,
};

verus! {

/// A key event: a character, or the body of an ANSI control sequence (what follows
/// `ESC [`, up to and including its final character).
pub enum InputData {
    Char(char),
    CsiSeq(String),
}


/// What a key event holds, as values.
pub enum InputView {
    Char(char),
    CsiSeq(Seq<char>),
}

impl View for InputData {
    type V = InputView;

    open spec fn view(&self) -> InputView {
        match self {
            InputData::Char(c) => InputView::Char(*c),
            InputData::CsiSeq(s) => InputView::CsiSeq(s@),
        }
    }
}

/// The events' views, in order.
pub open spec fn events_view(v: Seq<InputData>) -> Seq<InputView> {
    v.map_values(|e: InputData| e@)
}

/// Where the key decoder stands between characters.
pub enum KeyState {
    /// Between events.
    Ground,
    /// After an ESC.
    Escape,
    /// Inside a control sequence, after `ESC [` and the characters so far.
    Csi(String),
}

/// A decoder state, as values.
pub enum KeyStateView {
    Ground,
    Escape,
    Csi(Seq<char>),
}

impl View for KeyState {
    type V = KeyStateView;

    open spec fn view(&self) -> KeyStateView {
        match self {
            KeyState::Ground => KeyStateView::Ground,
            KeyState::Escape => KeyStateView::Escape,
            KeyState::Csi(s) => KeyStateView::Csi(s@),
        }
    }
}

/// Whether `c` ends a control sequence (`@` to `~`).
pub open spec fn is_final_byte(c: char) -> bool {
    '\x40' <= c && c <= '\x7E'
}

/// A character read between events: ESC may start a sequence, anything else is a key.
pub open spec fn ground_step(c: char) -> (KeyStateView, Seq<InputView>) {
    if c == '\x1B' {
        (KeyStateView::Escape, Seq::empty())
    } else {
        (KeyStateView::Ground, seq![InputView::Char(c)])
    }
}

/// The decoder reading `c` in state `st`: the new state and the events completed.
/// `ESC [` opens a control sequence that runs to its final character; an ESC that
/// `[` does not follow is a key of its own.
pub open spec fn key_step(st: KeyStateView, c: char) -> (KeyStateView, Seq<InputView>) {
    match st {
        KeyStateView::Ground => ground_step(c),
        KeyStateView::Escape => if c == '[' {
            (KeyStateView::Csi(Seq::empty()), Seq::empty())
        } else {
            (ground_step(c).0, seq![InputView::Char('\x1B')] + ground_step(c).1)
        },
        KeyStateView::Csi(b) => if is_final_byte(c) {
            (KeyStateView::Ground, seq![InputView::CsiSeq(b.push(c))])
        } else {
            (KeyStateView::Csi(b.push(c)), Seq::empty())
        },
    }
}

/// The events that the end of input completes: a pending ESC; an unfinished
/// control sequence is lost.
pub open spec fn key_finish(st: KeyStateView) -> Seq<InputView> {
    match st {
        KeyStateView::Escape => seq![InputView::Char('\x1B')],
        _ => Seq::empty(),
    }
}

/// The decoder reading `cs` from state `st`: the final state and all events.
pub open spec fn key_steps(st: KeyStateView, cs: Seq<char>) -> (KeyStateView, Seq<InputView>)
    decreases cs.len(),
{
    if cs.len() == 0 {
        (st, Seq::empty())
    } else {
        let (st1, e1) = key_step(st, cs[0]);
        let (st2, e2) = key_steps(st1, cs.drop_first());
        (st2, e1 + e2)
    }
}

/// One key event per character.
pub open spec fn char_events(cs: Seq<char>) -> Seq<InputView>
    decreases cs.len(),
{
    if cs.len() == 0 {
        Seq::empty()
    } else {
        seq![InputView::Char(cs[0])] + char_events(cs.drop_first())
    }
}

/// Text without ESC passes through the decoder as one key per character.
pub proof fn lemma_plain_keys(cs: Seq<char>)
    requires
        forall|i: int| 0 <= i < cs.len() ==> #[trigger] cs[i] != '\x1B',
    ensures
        key_steps(KeyStateView::Ground, cs).0 == KeyStateView::Ground,
        key_steps(KeyStateView::Ground, cs).1 == char_events(cs),
    decreases cs.len(),
{
    if cs.len() > 0 {
        let rest = cs.drop_first();
        assert(cs[0] != '\x1B');
        assert forall|i: int| 0 <= i < rest.len() implies #[trigger] rest[i] != '\x1B' by {
            assert(rest[i] == cs[i + 1]);
        }
        lemma_plain_keys(rest);
        assert(key_step(KeyStateView::Ground, cs[0]) == (KeyStateView::Ground, seq![InputView::Char(cs[0])]));
    }
}

/// `ESC [`, a body of characters that do not end a sequence, and a final character
/// make one control-sequence event.
pub proof fn lemma_csi_roundtrip(body: Seq<char>, fin: char)
    requires
        forall|i: int| 0 <= i < body.len() ==> !#[trigger] is_final_byte(body[i]),
        is_final_byte(fin),
    ensures
        key_steps(KeyStateView::Ground, seq!['\x1B', '['] + body + seq![fin]).0
            == KeyStateView::Ground,
        key_steps(KeyStateView::Ground, seq!['\x1B', '['] + body + seq![fin]).1 == seq![
            InputView::CsiSeq(body.push(fin)),
        ],
{
    let cs = seq!['\x1B', '['] + body + seq![fin];
    let tail = body + seq![fin];
    assert(cs[0] == '\x1B');
    assert(cs.drop_first()[0] == '[');
    assert(cs.drop_first().drop_first() =~= tail);
    lemma_csi_body(Seq::empty(), body, fin);
    assert(Seq::<char>::empty() + body =~= body);
    let r2 = key_steps(KeyStateView::Csi(Seq::empty()), tail);
    assert(key_steps(KeyStateView::Escape, cs.drop_first()) == (r2.0, Seq::<InputView>::empty() + r2.1));
    assert(Seq::<InputView>::empty() + r2.1 =~= r2.1);
    assert(Seq::<InputView>::empty() + (Seq::<InputView>::empty() + r2.1) =~= r2.1);
}

proof fn lemma_csi_body(b: Seq<char>, body: Seq<char>, fin: char)
    requires
        forall|i: int| 0 <= i < body.len() ==> !#[trigger] is_final_byte(body[i]),
        is_final_byte(fin),
    ensures
        key_steps(KeyStateView::Csi(b), body + seq![fin]).0 == KeyStateView::Ground,
        key_steps(KeyStateView::Csi(b), body + seq![fin]).1 == seq![
            InputView::CsiSeq((b + body).push(fin)),
        ],
    decreases body.len(),
{
    let cs = body + seq![fin];
    if body.len() == 0 {
        assert(cs =~= seq![fin]);
        assert(b + body =~= b);
        assert(cs.drop_first() =~= Seq::<char>::empty());
        assert(cs[0] == fin);
        assert(key_step(KeyStateView::Csi(b), fin) == (KeyStateView::Ground, seq![InputView::CsiSeq(b.push(fin))]));
        assert(key_steps(KeyStateView::Ground, cs.drop_first()) == (KeyStateView::Ground, Seq::<InputView>::empty()));
        assert(seq![InputView::CsiSeq(b.push(fin))] + Seq::<InputView>::empty() =~= seq![
            InputView::CsiSeq(b.push(fin)),
        ]);
    } else {
        let rest = body.drop_first();
        assert(!is_final_byte(body[0]));
        assert forall|i: int| 0 <= i < rest.len() implies !#[trigger] is_final_byte(rest[i]) by {
            assert(rest[i] == body[i + 1]);
        }
        assert(cs[0] == body[0]);
        assert(cs.drop_first() =~= rest + seq![fin]);
        lemma_csi_body(b.push(body[0]), rest, fin);
        assert(b.push(body[0]) + rest =~= b + body);
        assert(key_step(KeyStateView::Csi(b), body[0]) == (KeyStateView::Csi(b.push(body[0])), Seq::<InputView>::empty()));
        let r = key_steps(KeyStateView::Csi(b.push(body[0])), rest + seq![fin]);
        assert(Seq::<InputView>::empty() + r.1 =~= r.1);
    }
}

/// Turns characters into key events.
pub struct KeyDecoder {
    state: KeyState,
}

impl KeyDecoder {
    pub closed spec fn state(&self) -> KeyStateView {
        self.state@
    }

    pub fn new() -> (d: KeyDecoder)
        ensures
            d.state() == KeyStateView::Ground,
    {
        KeyDecoder { state: KeyState::Ground }
    }

    /// Reads `c`; returns the events it completes.
    pub fn feed(&mut self, c: char) -> (r: Vec<InputData>)
        ensures
            (final(self).state(), events_view(r@)) == key_step(old(self).state(), c),
    {
        let mut r: Vec<InputData> = Vec::new();
        let mut st = KeyState::Ground;
        std::mem::swap(&mut st, &mut self.state);
        match st {
            KeyState::Ground => {
                if c == '\x1B' {
                    self.state = KeyState::Escape;
                } else {
                    r.push(InputData::Char(c));
                }
            },
            KeyState::Escape => {
                if c == '[' {
                    self.state = KeyState::Csi(String::new());
                } else {
                    r.push(InputData::Char('\x1B'));
                    if c == '\x1B' {
                        self.state = KeyState::Escape;
                    } else {
                        r.push(InputData::Char(c));
                    }
                }
            },
            KeyState::Csi(mut b) => {
                push_char(&mut b, c);
                if '\x40' <= c && c <= '\x7E' {
                    r.push(InputData::CsiSeq(b));
                } else {
                    self.state = KeyState::Csi(b);
                }
            },
        }
        proof {
            let (st2, evs) = key_step(old(self).state(), c);
            assert(events_view(r@) =~= evs);
        }
        r
    }

    /// The end of input; returns the events it completes.
    pub fn finish(&mut self) -> (r: Vec<InputData>)
        ensures
            final(self).state() == KeyStateView::Ground,
            events_view(r@) == key_finish(old(self).state()),
    {
        let mut r: Vec<InputData> = Vec::new();
        if let KeyState::Escape = self.state {
            r.push(InputData::Char('\x1B'));
        }
        self.state = KeyState::Ground;
        proof {
            assert(events_view(r@) =~= key_finish(old(self).state()));
        }
        r
    }
}

/// Whether `t` is the UTF-8 encoding of a single character.
pub open spec fn encodes_char(t: Seq<u8>) -> bool {
    exists|c: char| t == encode_utf8(seq![c])
}

proof fn lemma_enc_continuation(c: char, i: int)
    requires
        0 < i < encode_utf8(seq![c]).len(),
    ensures
        vstd::utf8::is_continuation_byte(encode_utf8(seq![c])[i]),
{
    let e = encode_utf8(seq![c]);
    vstd::utf8::encode_utf8_valid_utf8(seq![c]);
    vstd::utf8::encode_utf8_first_scalar(seq![c]);
    assert(e == vstd::utf8::encode_scalar(seq![c][0] as u32) + encode_utf8(seq![c].drop_first()));
    assert(seq![c].drop_first() =~= Seq::<char>::empty());
    assert(vstd::utf8::pop_first_scalar(e) =~= Seq::<u8>::empty());
    assert(vstd::utf8::valid_utf8(vstd::utf8::pop_first_scalar(e)));
    reveal_with_fuel(vstd::utf8::is_char_boundary, 2);
    assert(!vstd::utf8::is_char_boundary(e, i));
    vstd::utf8::is_char_boundary_iff_not_is_continuation_byte(e, i);
}

proof fn lemma_continuation_start_encodes_nothing(u: Seq<u8>)
    requires
        u.len() > 0,
        vstd::utf8::is_continuation_byte(u[0]),
    ensures
        !encodes_char(u),
{
    lemma_encodes_iff_decodable(u);
}

/// The bytes of one character, fed one by one to a decoder with nothing waiting, make
/// no character before the last byte: no run that ends early encodes one. At the last
/// byte the only run that encodes a character is the whole encoding, and the character
/// it encodes is the one encoded.
pub proof fn lemma_char_bytes_decode(c: char)
    ensures
        forall|k: int, i: int|
            0 <= i < k < encode_utf8(seq![c]).len() ==> !#[trigger] encodes_char(
                encode_utf8(seq![c]).take(k).skip(i),
            ),
        forall|i: int, d: char|
            0 <= i < encode_utf8(seq![c]).len() && #[trigger] encode_utf8(seq![c]).skip(i)
                == #[trigger] encode_utf8(seq![d]) ==> i == 0 && d == c,
{
    let e = encode_utf8(seq![c]);
    vstd::utf8::encode_utf8_first_scalar(seq![c]);
    assert(e == vstd::utf8::encode_scalar(seq![c][0] as u32) + encode_utf8(seq![c].drop_first()));
    assert(seq![c].drop_first() =~= Seq::<char>::empty());
    assert forall|k: int, i: int| 0 <= i < k < e.len() implies !#[trigger] encodes_char(
        e.take(k).skip(i),
    ) by {
        let u = e.take(k).skip(i);
        if i > 0 {
            lemma_enc_continuation(c, i);
            assert(u[0] == e[i]);
            lemma_continuation_start_encodes_nothing(u);
        } else {
            lemma_encodes_iff_decodable(u);
            assert(u[0] == e[0]);
            assert(vstd::utf8::length_of_first_scalar(u) == vstd::utf8::length_of_first_scalar(e));
        }
    }
    assert forall|i: int, d: char| 0 <= i < e.len() && #[trigger] e.skip(i) == #[trigger] encode_utf8(seq![d])
        implies i == 0 && d == c by {
        if i > 0 {
            lemma_enc_continuation(c, i);
            assert(e.skip(i)[0] == e[i]);
            lemma_continuation_start_encodes_nothing(e.skip(i));
            assert(encodes_char(e.skip(i)));
        } else {
            assert(e.skip(0) =~= e);
            vstd::utf8::encode_utf8_decode_utf8(seq![c]);
            vstd::utf8::encode_utf8_decode_utf8(seq![d]);
            assert(seq![c][0] == seq![d][0]);
        }
    }
}

/// `char::from_u32`: the character for `v`. The contract claims `Some` exactly for
/// Unicode scalar values (below 0x110000 and outside the surrogates), with `v` as the
/// character's value, and `None` otherwise.
#[verifier::external_body]
fn char_from_u32(v: u32) -> (r: Option<char>)
    ensures
        r == if is_scalar(v) {
            Some(v as char)
        } else {
            None
        },
{
    char::from_u32(v)
}

proof fn lemma_encodes_iff_decodable(t: Seq<u8>)
    ensures
        encodes_char(t) <==> (t.len() > 0 && valid_first_scalar(t) && length_of_first_scalar(t)
            == t.len()),
        (t.len() > 0 && valid_first_scalar(t) && length_of_first_scalar(t) == t.len()) ==> t
            == encode_utf8(seq![(vstd::utf8::decode_first_scalar(t) as char)]),
{
    if encodes_char(t) {
        let c = choose|c: char| t == encode_utf8(seq![c]);
        vstd::utf8::encode_utf8_first_scalar(seq![c]);
        assert(encode_utf8(seq![c]) == vstd::utf8::encode_scalar(seq![c][0] as u32) + encode_utf8(
            seq![c].drop_first(),
        ));
        assert(seq![c].drop_first() =~= Seq::<char>::empty());
    }
    if t.len() > 0 && valid_first_scalar(t) && length_of_first_scalar(t) == t.len() {
        let l = length_of_first_scalar(t);
        assert(vstd::utf8::pop_first_scalar(t) =~= Seq::<u8>::empty());
        assert(vstd::utf8::valid_utf8(vstd::utf8::pop_first_scalar(t)));
        assert(vstd::utf8::valid_utf8(t));
        vstd::utf8::decode_utf8_first_scalar(t);
        assert(vstd::utf8::take_first_scalar(t) =~= t);
        let c = vstd::utf8::decode_first_scalar(t) as char;
        assert(encode_utf8(seq![c]) == vstd::utf8::encode_scalar(seq![c][0] as u32) + encode_utf8(
            seq![c].drop_first(),
        ));
        assert(seq![c].drop_first() =~= Seq::<char>::empty());
        assert(t =~= encode_utf8(seq![c]));
    }
}

proof fn lemma_codepoint_bounds(b0: u8, b1: u8, b2: u8, b3: u8)
    ensures
        codepoint_width_1(b0) <= 0x7F,
        codepoint_width_2(b0, b1) <= 0x7FF,
        codepoint_width_3(b0, b1, b2) <= 0xFFFF,
{
    assert(((b0 & 0x7F) as u32) <= 0x7F) by (bit_vector);
    assert((((b0 & 0x1F) as u32) << 6) | ((b1 & 0x3f) as u32) <= 0x7FF) by (bit_vector);
    assert((((b0 & 0x0F) as u32) << 12) | (((b1 & 0x3f) as u32) << 6) | ((b2 & 0x3f) as u32)
        <= 0xFFFF) by (bit_vector);
}

/// The character whose UTF-8 encoding is exactly `buf[from..to]`, if there is one.
fn decode_exact(buf: &[u8; 4], from: usize, to: usize) -> (r: Option<char>)
    requires
        from < to <= 4,
    ensures
        r is Some <==> encodes_char(buf@.subrange(from as int, to as int)),
        r matches Some(c) ==> buf@.subrange(from as int, to as int) == encode_utf8(seq![c]),
{
    let ghost t = buf@.subrange(from as int, to as int);
    proof {
        lemma_encodes_iff_decodable(t);
        assert(t[0] == buf@[from as int]);
        if to - from > 1 {
            assert(t[1] == buf@[from + 1]);
        }
        if to - from > 2 {
            assert(t[2] == buf@[from + 2]);
        }
        if to - from > 3 {
            assert(t[3] == buf@[from + 3]);
        }
    }
    let n = to - from;
    let b0 = buf[from];
    let b1 = if n > 1 { buf[from + 1] } else { 0 };
    let b2 = if n > 2 { buf[from + 2] } else { 0 };
    let b3 = if n > 3 { buf[from + 3] } else { 0 };
    proof {
        lemma_codepoint_bounds(b0, b1, b2, b3);
    }
    let cont1 = 0x80 <= b1 && b1 <= 0xbf;
    let cont2 = 0x80 <= b2 && b2 <= 0xbf;
    let cont3 = 0x80 <= b3 && b3 <= 0xbf;
    let cp: u32 = if b0 <= 0x7f {
        if n != 1 {
            return None;
        }
        (b0 & 0x7F) as u32
    } else if 0xc0 <= b0 && b0 <= 0xdf {
        if n != 2 || !cont1 {
            return None;
        }
        (((b0 & 0x1F) as u32) << 6) | ((b1 & 0x3f) as u32)
    } else if 0xe0 <= b0 && b0 <= 0xef {
        if n != 3 || !cont1 || !cont2 {
            return None;
        }
        (((b0 & 0x0F) as u32) << 12) | (((b1 & 0x3f) as u32) << 6) | ((b2 & 0x3f) as u32)
    } else if 0xf0 <= b0 && b0 <= 0xf7 {
        if n != 4 || !cont1 || !cont2 || !cont3 {
            return None;
        }
        (((b0 & 0x07) as u32) << 18) | (((b1 & 0x3f) as u32) << 12) | (((b2 & 0x3f) as u32) << 6)
            | ((b3 & 0x3f) as u32)
    } else {
        return None;
    };
    proof {
        assert(cp == decode_first_codepoint(t));
    }
    if (n == 2 && cp < 0x80) || (n == 3 && cp < 0x800) || (n == 4 && (cp < 0x10000 || cp
        > 0x10ffff)) {
        return None;
    }
    if 0xD800 <= cp && cp <= 0xDFFF {
        return None;
    }
    char_from_u32(cp)
}

/// What the decoder does with byte `b` when the bytes `pending` wait: the character
/// that the bytes end with, if a run at their end encodes one, and nothing left
/// waiting; otherwise no character, and the bytes kept, or dropped once four have come.
pub open spec fn decode_step(pending: Seq<u8>, b: u8) -> (Option<char>, Seq<u8>) {
    let s = pending.push(b);
    if exists|i: int| 0 <= i < s.len() && #[trigger] encodes_char(s.skip(i)) {
        let i = choose|i: int| 0 <= i < s.len() && #[trigger] encodes_char(s.skip(i));
        (Some(choose|c: char| s.skip(i) == encode_utf8(seq![c])), Seq::empty())
    } else {
        (None, if s.len() == 4 {
            Seq::empty()
        } else {
            s
        })
    }
}

/// The decoder reading `bytes` one at a time with `pending` waiting: the characters it
/// returns, in order, and the bytes left waiting.
pub open spec fn decode_bytes(pending: Seq<u8>, bytes: Seq<u8>) -> (Seq<char>, Seq<u8>)
    decreases bytes.len(),
{
    if bytes.len() == 0 {
        (Seq::empty(), pending)
    } else {
        let (r, p2) = decode_step(pending, bytes[0]);
        let (cs, p3) = decode_bytes(p2, bytes.drop_first());
        (
            match r {
                Some(c) => seq![c] + cs,
                None => cs,
            },
            p3,
        )
    }
}

proof fn lemma_decode_bytes_concat(p: Seq<u8>, a: Seq<u8>, b: Seq<u8>)
    ensures
        decode_bytes(p, a + b) == ({
            let (cs1, p1) = decode_bytes(p, a);
            let (cs2, p2) = decode_bytes(p1, b);
            (cs1 + cs2, p2)
        }),
    decreases a.len(),
{
    if a.len() == 0 {
        assert(a + b =~= b);
        let (cs2, p2) = decode_bytes(p, b);
        assert(Seq::<char>::empty() + cs2 =~= cs2);
    } else {
        assert((a + b)[0] == a[0]);
        assert((a + b).drop_first() =~= a.drop_first() + b);
        let (r, q) = decode_step(p, a[0]);
        lemma_decode_bytes_concat(q, a.drop_first(), b);
        let (cs1, p1) = decode_bytes(q, a.drop_first());
        let (cs2, p2) = decode_bytes(p1, b);
        if let Some(c) = r {
            assert(seq![c] + (cs1 + cs2) =~= (seq![c] + cs1) + cs2);
        }
    }
}

/// The first `m` bytes of a character, when they are not all of it, give nothing and
/// stay waiting.
proof fn lemma_decode_partial(c: char, m: int)
    requires
        0 <= m < encode_utf8(seq![c]).len(),
    ensures
        decode_bytes(Seq::empty(), encode_utf8(seq![c]).take(m)) == (
            Seq::<char>::empty(),
            encode_utf8(seq![c]).take(m),
        ),
    decreases m,
{
    let e = encode_utf8(seq![c]);
    assert(e == vstd::utf8::encode_scalar(seq![c][0] as u32) + encode_utf8(seq![c].drop_first()));
    assert(seq![c].drop_first() =~= Seq::<char>::empty());
    assert(e.len() <= 4);
    if m == 0 {
        assert(e.take(0) =~= Seq::<u8>::empty());
    } else {
        lemma_decode_partial(c, m - 1);
        lemma_char_bytes_decode(c);
        assert(e.take(m) =~= e.take(m - 1) + seq![e[m - 1]]);
        lemma_decode_bytes_concat(Seq::empty(), e.take(m - 1), seq![e[m - 1]]);
        let s = e.take(m - 1).push(e[m - 1]);
        assert(s =~= e.take(m));
        assert forall|i: int| 0 <= i < s.len() implies !#[trigger] encodes_char(s.skip(i)) by {
            assert(!encodes_char(e.take(m).skip(i)));
        }
        assert(decode_step(e.take(m - 1), e[m - 1]) == (None::<char>, e.take(m)));
        assert(seq![e[m - 1]].drop_first() =~= Seq::<u8>::empty());
        assert(decode_bytes(e.take(m), Seq::<u8>::empty()) == (Seq::<char>::empty(), e.take(m)));
        assert(decode_bytes(e.take(m - 1), seq![e[m - 1]]) == (Seq::<char>::empty(), e.take(m)));
        assert(Seq::<char>::empty() + Seq::<char>::empty() =~= Seq::<char>::empty());
    }
}

/// The bytes of one character, read with nothing waiting, give that character and
/// leave nothing waiting.
proof fn lemma_decode_char(c: char)
    ensures
        decode_bytes(Seq::empty(), encode_utf8(seq![c])) == (seq![c], Seq::<u8>::empty()),
{
    let e = encode_utf8(seq![c]);
    assert(e == vstd::utf8::encode_scalar(seq![c][0] as u32) + encode_utf8(seq![c].drop_first()));
    assert(seq![c].drop_first() =~= Seq::<char>::empty());
    assert(1 <= e.len() <= 4);
    lemma_char_bytes_decode(c);
    let n = e.len() as int;
    lemma_decode_partial(c, n - 1);
    assert(e =~= e.take(n - 1) + seq![e[n - 1]]);
    lemma_decode_bytes_concat(Seq::empty(), e.take(n - 1), seq![e[n - 1]]);
    let s = e.take(n - 1).push(e[n - 1]);
    assert(s =~= e);
    assert(s.skip(0) =~= e);
    assert(encodes_char(s.skip(0)));
    let i = choose|i: int| 0 <= i < s.len() && #[trigger] encodes_char(s.skip(i));
    let d = choose|d: char| s.skip(i) == encode_utf8(seq![d]);
    assert(s.skip(i) == encode_utf8(seq![d]));
    assert(e.skip(i) == encode_utf8(seq![d]));
    assert(d == c);
    assert(decode_step(e.take(n - 1), e[n - 1]) == (Some(c), Seq::<u8>::empty()));
    assert(seq![e[n - 1]].drop_first() =~= Seq::<u8>::empty());
    assert(decode_bytes(Seq::<u8>::empty(), Seq::<u8>::empty()) == (Seq::<char>::empty(), Seq::<u8>::empty()));
    assert(decode_bytes(e.take(n - 1), seq![e[n - 1]]) == (seq![c] + Seq::<char>::empty(), Seq::<u8>::empty()));
    assert(Seq::<char>::empty() + (seq![c] + Seq::<char>::empty()) =~= seq![c]);
}

/// The UTF-8 bytes of a text, read one at a time by a decoder with nothing waiting,
/// give back the text and leave nothing waiting.
pub proof fn lemma_decode_roundtrip(text: Seq<char>)
    ensures
        decode_bytes(Seq::empty(), encode_utf8(text)) == (text, Seq::<u8>::empty()),
    decreases text.len(),
{
    if text.len() == 0 {
        assert(encode_utf8(text) =~= Seq::<u8>::empty());
    } else {
        let c = text[0];
        let rest = text.drop_first();
        let e1 = encode_utf8(seq![c]);
        assert(seq![c][0] == c);
        assert(seq![c].drop_first() =~= Seq::<char>::empty());
        assert(encode_utf8(Seq::<char>::empty()) =~= Seq::<u8>::empty());
        assert(e1 =~= vstd::utf8::encode_scalar(c as u32));
        assert(encode_utf8(text) == e1 + encode_utf8(rest));
        lemma_decode_bytes_concat(Seq::empty(), e1, encode_utf8(rest));
        lemma_decode_char(c);
        lemma_decode_roundtrip(rest);
        assert(seq![c] + rest =~= text);
    }
}

/// Assembles characters from the bytes typed at the terminal, one byte at a time.
pub struct Utf8Decoder {
    buf: [u8; 4],
    len: u8,
}

impl Utf8Decoder {
    /// The bytes received since the last character.
    pub closed spec fn pending(&self) -> Seq<u8> {
        self.buf@.take(self.len as int)
    }

    /// At most three bytes wait, and no run of them encodes a character.
    pub closed spec fn wf(&self) -> bool {
        &&& self.len <= 3
        &&& forall|i: int, j: int|
            0 <= i < j <= self.len ==> !#[trigger] encodes_char(self.pending().subrange(i, j))
    }

    /// A decoder with no bytes waiting.
    pub fn new() -> (d: Utf8Decoder)
        ensures
            d.wf(),
            d.pending() == Seq::<u8>::empty(),
    {
        let d = Utf8Decoder { buf: [0u8, 0u8, 0u8, 0u8], len: 0 };
        proof {
            assert(d.pending() =~= Seq::<u8>::empty());
        }
        d
    }

    /// Takes the next byte. Returns the character that the bytes received end with,
    /// dropping the bytes before it that started no character; without one, keeps the
    /// bytes, or drops all of them once four have come without a character.
    pub fn push(&mut self, b: u8) -> (r: Option<char>)
        requires
            old(self).wf(),
        ensures
            final(self).wf(),
            (r, final(self).pending()) == decode_step(old(self).pending(), b),
            ({
                let s = old(self).pending().push(b);
                match r {
                    Some(c) => {
                        &&& exists|i: int| 0 <= i < s.len() && #[trigger] s.skip(i) == encode_utf8(seq![c])
                        &&& forall|i: int, d: char|
                            0 <= i < s.len() && #[trigger] s.skip(i) == #[trigger] encode_utf8(seq![d])
                                ==> d == c
                        &&& final(self).pending() == Seq::<u8>::empty()
                    },
                    None => {
                        &&& forall|i: int| 0 <= i < s.len() ==> !#[trigger] encodes_char(s.skip(i))
                        &&& final(self).pending() == if s.len() == 4 {
                            Seq::<u8>::empty()
                        } else {
                            s
                        }
                    },
                }
            }),
    {
        let ghost s = self.pending().push(b);
        let idx = self.len as usize;
        self.buf[idx] = b;
        self.len = self.len + 1;
        let n = self.len as usize;
        proof {
            assert(self.buf@.take(n as int) =~= s);
        }
        let mut i: usize = 0;
        while i < n
            invariant
                i <= n,
                s == old(self).pending().push(b),
                old(self).wf(),
                n == s.len(),
                1 <= n <= 4,
                self.len == n,
                self.buf@.take(n as int) == s,
                forall|k: int| 0 <= k < i ==> !#[trigger] encodes_char(s.skip(k)),
            decreases n - i,
        {
            proof {
                assert(self.buf@.subrange(i as int, n as int) =~= s.skip(i as int));
            }
            if let Some(c) = decode_exact(&self.buf, i, n) {
                self.len = 0;
                proof {
                    assert(self.pending() =~= Seq::<u8>::empty());
                    assert(s.skip(i as int) == encode_utf8(seq![c]));
                    assert(s == old(self).pending().push(b));
                    assert(exists|k: int| 0 <= k < s.len() && #[trigger] s.skip(k) == encode_utf8(seq![c]));
                    lemma_char_bytes_decode(c);
                    assert forall|j: int, d: char|
                        0 <= j < s.len() && #[trigger] s.skip(j) == #[trigger] encode_utf8(seq![d])
                        implies d == c by {
                        if j < i {
                            assert(encodes_char(s.skip(j)));
                        } else if j > i {
                            assert(s.skip(j) =~= encode_utf8(seq![c]).skip(j - i));
                        } else {
                            assert(encode_utf8(seq![c]).skip(0) =~= encode_utf8(seq![c]));
                        }
                    }
                    assert(encodes_char(s.skip(i as int)));
                    let i2 = choose|i2: int| 0 <= i2 < s.len() && #[trigger] encodes_char(s.skip(i2));
                    let c2 = choose|c2: char| s.skip(i2) == encode_utf8(seq![c2]);
                    assert(s.skip(i2) == encode_utf8(seq![c2]));
                    assert(self.wf());
                }
                return Some(c);
            }
            i = i + 1;
        }
        self.len = self.len & 3;
        proof {
            assert((n as u8) & 3 == if n == 4 { 0u8 } else { n as u8 }) by (bit_vector)
                requires
                    1 <= n <= 4,
            ;
            if n == 4 {
                assert(self.pending() =~= Seq::<u8>::empty());
            } else {
                assert(self.pending() =~= s);
                assert forall|a: int, b2: int| 0 <= a < b2 <= self.len implies !#[trigger] encodes_char(
                    self.pending().subrange(a, b2),
                ) by {
                    if b2 < n {
                        assert(self.pending().subrange(a, b2) =~= old(self).pending().subrange(a, b2));
                    } else {
                        assert(self.pending().subrange(a, b2) =~= s.skip(a));
                    }
                }
            }
        }
        None
    }
}

} // verus!
