//! Streaming decoder of compressed frames.
//!
//! Packets from the sensor arrive one by one; each carries an 8-byte header
//! and then payload bytes that continue the bit stream of the previous
//! packet. The decoder keeps the partly read token and the partly rebuilt
//! frame between packets and hands out each frame as soon as its last bit
//! has arrived.
use vstd::prelude::*;
use crate::bits::{
    byte_bit, byte_bits, code_value, lemma_bytes_bits_push, lemma_code_value_bound,
    lemma_code_value_push, lemma_two_pow_64, lemma_two_pow_monotone,
};
use crate::format::{
    apply_difference, frame_of, frames_of, lemma_frames_push, lemma_parse_push,
    lemma_pixel_prefix, lemma_stream_frames_grow, parse_tokens, pixel_value, stream_bits,
    stream_frames, token, FRAME_PIXELS, FRAME_SIDE, FRAME_TOKENS,
};
use crate::huffman::{
    groups_chain, lemma_match_group_in_range, lemma_match_group_skip, match_group, well_formed,
    HuffmanCode, HuffmanTable,
};

verus! {

/// Bytes of header in front of the payload of each packet.
pub const PACKET_HEADER: usize = 8;

/// A decoded frame: the shutter value and 30x30 pixels in row order.
pub struct Frame {
    pub shutter: u16,
    pub pixels: Vec<u8>,
}

impl View for Frame {
    type V = (u16, Seq<u8>);

    open spec fn view(&self) -> (u16, Seq<u8>) {
        (self.shutter, self.pixels@)
    }
}

/// The frame being rebuilt: the place of the next pixel, the pixels so far
/// and the frame's shutter value once read.
struct FrameProgress {
    x: usize,
    y: usize,
    pixels: Vec<u8>,
    shutter: Option<u16>,
}

/// The token being read: its bits so far as a number and a count, and the
/// group of the code it is to be compared with next.
struct TokenProgress {
    code: u64,
    len: u32,
    group: usize,
}

/// The state of the frame decoder between packets.
pub struct FrameDecoder {
    table: HuffmanTable,
    frame: FrameProgress,
    token: TokenProgress,
    first: bool,
    stream: Ghost<Seq<u8>>,
}

/// While a codeword is being read: the group `idx` still to be compared is
/// longer than the bits `r` read so far, and every group before it has
/// already been ruled out.
pub open spec fn search_state(codes: Seq<HuffmanCode>, r: Seq<bool>, idx: int) -> bool {
    &&& 0 <= idx < codes.len()
    &&& r.len() < codes[idx].length
    &&& forall|j: int|
        0 <= j < idx ==> #[trigger] codes[j].length <= r.len() && code_value(
            r.take(codes[j].length as int),
        ) > codes[j].last_code
}

/// Groups ruled out for some bits stay ruled out when a bit follows.
proof fn lemma_search_push(codes: Seq<HuffmanCode>, r: Seq<bool>, b: bool, idx: int)
    requires
        search_state(codes, r, idx),
    ensures
        forall|j: int|
            0 <= j < idx ==> #[trigger] codes[j].length <= r.push(b).len() && code_value(
                r.push(b).take(codes[j].length as int),
            ) > codes[j].last_code,
        match_group(codes, r.push(b), 0) == match_group(codes, r.push(b), idx as nat),
{
    let s = r.push(b);
    assert forall|j: int| 0 <= j < idx implies #[trigger] codes[j].length <= s.len() && code_value(
        s.take(codes[j].length as int),
    ) > codes[j].last_code by {
        assert(s.take(codes[j].length as int) =~= r.take(codes[j].length as int));
    }
    lemma_match_group_skip(codes, s, 0, idx as nat);
}

/// The codeword ends at group `idx` when the bits reach its length and do
/// not pass its last codeword.
proof fn lemma_codeword_found(codes: Seq<HuffmanCode>, r: Seq<bool>, b: bool, idx: int, pos: nat)
    requires
        well_formed(codes),
        pos >= 2,
        search_state(codes, r, idx),
        codes[idx].length == r.len() + 1,
        code_value(r.push(b)) <= codes[idx].last_code,
    ensures
        codes[idx].first_code <= code_value(r.push(b)),
        code_value(r.push(b)) - codes[idx].first_code < codes[idx].symbols@.len(),
        token(codes, r.push(b), pos) == Some(
            (
                r.len() + 1,
                codes[idx].symbols@[code_value(r.push(b)) - codes[idx].first_code] as nat,
            ),
        ),
{
    reveal(token);
    let s = r.push(b);
    lemma_search_push(codes, r, b, idx);
    assert(s.take(codes[idx].length as int) =~= s);
    lemma_match_group_in_range(codes, s, idx as nat);
    assert(match_group(codes, s, idx as nat) == Some(idx as nat));
}

/// Passing the last codeword of group `idx` rules it out; the next group
/// exists and is longer.
proof fn lemma_codeword_rejected(codes: Seq<HuffmanCode>, r: Seq<bool>, b: bool, idx: int, pos: nat)
    requires
        well_formed(codes),
        pos >= 2,
        search_state(codes, r, idx),
        codes[idx].length == r.len() + 1,
        code_value(r.push(b)) > codes[idx].last_code,
    ensures
        search_state(codes, r.push(b), idx + 1),
        token(codes, r.push(b), pos) is None,
{
    reveal(token);
    let s = r.push(b);
    lemma_search_push(codes, r, b, idx);
    assert(s.take(codes[idx].length as int) =~= s);
    lemma_code_value_bound(s);
    if idx == codes.len() - 1 {
        assert(false);
    }
    assert(groups_chain(codes[idx], codes[idx + 1]));
    assert(match_group(codes, s, (idx + 1) as nat) is None);
    lemma_match_group_skip(codes, s, 0, (idx + 1) as nat);
}

/// Bits shorter than group `idx` complete no codeword yet.
proof fn lemma_codeword_short(codes: Seq<HuffmanCode>, r: Seq<bool>, b: bool, idx: int, pos: nat)
    requires
        pos >= 2,
        search_state(codes, r, idx),
        codes[idx].length != r.len() + 1,
    ensures
        search_state(codes, r.push(b), idx),
        token(codes, r.push(b), pos) is None,
{
    reveal(token);
    lemma_search_push(codes, r, b, idx);
}

/// The prediction minus the difference symbol, modulo 255.
fn undo_difference(pred: u8, k: u8) -> (r: u8)
    ensures
        r == apply_difference(pred, k),
{
    let v = (pred as u16 + 510 - k as u16) % 255;
    assert((pred as int + 510 - k as int) % 255 == (pred as int - k as int) % 255);
    v as u8
}

impl FrameProgress {
    /// The fields describe the frame reached after the tokens `t`: the place
    /// in the frame, the frame's shutter value and its pixels so far.
    spec fn matches(&self, t: Seq<nat>) -> bool {
        let pos = t.len() % (FRAME_TOKENS as nat);
        let base = t.len() - pos;
        &&& self.pixels@.len() == FRAME_PIXELS
        &&& self.x < FRAME_SIDE
        &&& self.y < FRAME_SIDE
        &&& pos == 0 ==> self.shutter is None && self.x == 0 && self.y == 0
        &&& pos >= 1 ==> self.shutter == Some(t[base] as u16) && self.y * FRAME_SIDE + self.x
            == pos - 1
        &&& forall|i: int|
            0 <= i < pos - 1 ==> #[trigger] self.pixels@[i] == pixel_value(pixel_tokens(t), i as nat)
    }

    /// Records the shutter value that starts a frame.
    fn set_shutter(&mut self, Ghost(t): Ghost<Seq<nat>>, v: u16)
        requires
            old(self).matches(t),
            t.len() % (FRAME_TOKENS as nat) == 0,
        ensures
            final(self).matches(t.push(v as nat)),
    {
        self.shutter = Some(v);
        assert(t.push(v as nat).len() % (FRAME_TOKENS as nat) == 1);
        assert(t.push(v as nat)[t.len() as int] == v as nat);
    }

    /// The value of the next pixel, whose token `k` has just completed.
    fn next_pixel(&self, Ghost(t): Ghost<Seq<nat>>, k: u8) -> (v: u8)
        requires
            self.matches(t),
            t.len() % (FRAME_TOKENS as nat) >= 1,
        ensures
            v == pixel_value(
                last_tokens(t.push(k as nat), (t.len() % (FRAME_TOKENS as nat)) as int),
                (t.len() % (FRAME_TOKENS as nat) - 1) as nat,
            ),
    {
        let ghost ks = pixel_tokens(t);
        let ghost ks2 = last_tokens(t.push(k as nat), (t.len() % (FRAME_TOKENS as nat)) as int);
        let i = self.y * FRAME_SIDE + self.x;
        proof {
            lemma_pixel_tokens_push(t, k as nat);
            if i > 0 {
                lemma_pixel_prefix(ks, ks2, (i - 1) as nat);
            }
            if i >= FRAME_SIDE {
                lemma_pixel_prefix(ks, ks2, (i - FRAME_SIDE) as nat);
            }
        }
        if self.x == 0 && self.y == 0 {
            k
        } else if self.x == 0 {
            assert(i % 30 == 0);
            undo_difference(self.pixels[i - FRAME_SIDE], k)
        } else if self.y == 0 {
            undo_difference(self.pixels[i - 1], k)
        } else {
            assert(i % 30 != 0);
            undo_difference(
                ((self.pixels[i - FRAME_SIDE] as u16 + self.pixels[i - 1] as u16) / 2) as u8,
                k,
            )
        }
    }

    /// Rebuilds the pixel of a completed token `k`; returns the frame that it
    /// completes.
    fn place_pixel(&mut self, Ghost(t): Ghost<Seq<nat>>, k: u8) -> (res: Option<Frame>)
        requires
            old(self).matches(t),
            t.len() % (FRAME_TOKENS as nat) >= 1,
        ensures
            final(self).matches(t.push(k as nat)),
            frames_of(t.push(k as nat)) == match res {
                Some(f) => frames_of(t).push(f@),
                None => frames_of(t),
            },
    {
        let ghost pos = t.len() % (FRAME_TOKENS as nat);
        let ghost t2 = t.push(k as nat);
        let ghost ks = pixel_tokens(t);
        let ghost ks2 = last_tokens(t2, pos as int);
        let v = self.next_pixel(Ghost(t), k);
        let i = self.y * FRAME_SIDE + self.x;
        self.pixels.set(i, v);
        proof {
            lemma_pixel_tokens_push(t, k as nat);
            assert forall|j: int| 0 <= j < pos implies #[trigger] self.pixels@[j]
                == pixel_value(ks2, j as nat) by {
                if j < i {
                    lemma_pixel_prefix(ks, ks2, j as nat);
                }
            }
            lemma_frames_push(t, k as nat);
        }
        self.x = self.x + 1;
        if self.x == FRAME_SIDE {
            self.x = 0;
            self.y = self.y + 1;
        }
        if self.y == FRAME_SIDE {
            self.y = 0;
            let frame = Frame { shutter: self.shutter.unwrap_or(128), pixels: self.pixels.clone() };
            proof {
                let ft = t2.subrange(t.len() + 1 - FRAME_TOKENS, t.len() + 1 as int);
                assert(ft.skip(1) =~= ks2);
                assert(frame.pixels@ =~= self.pixels@);
                assert(frame.pixels@ =~= frame_of(ft).1);
            }
            self.shutter = None;
            return Some(frame);
        }
        None
    }
}

/// The last `n` tokens of `t`.
spec fn last_tokens(t: Seq<nat>, n: int) -> Seq<nat> {
    t.subrange(t.len() - n, t.len() as int)
}

/// The pixel tokens of the frame that the tokens `t` end in.
spec fn pixel_tokens(t: Seq<nat>) -> Seq<nat> {
    last_tokens(t, t.len() % (FRAME_TOKENS as nat) - 1)
}

/// After one more pixel token, the frame's pixel tokens are the old ones and
/// the new one.
proof fn lemma_pixel_tokens_push(t: Seq<nat>, v: nat)
    requires
        t.len() % (FRAME_TOKENS as nat) >= 1,
    ensures
        ({
            let ks = pixel_tokens(t);
            let ks2 = last_tokens(t.push(v), (t.len() % (FRAME_TOKENS as nat)) as int);
            let pos = t.len() % (FRAME_TOKENS as nat);
            &&& ks.len() == pos - 1
            &&& ks2.len() == pos
            &&& forall|j: int| 0 <= j < ks.len() ==> ks2[j] == ks[j]
            &&& ks2[pos - 1] == v
            &&& (t.len() + 1) % (FRAME_TOKENS as nat) != 0 ==> pixel_tokens(t.push(v)) == ks2
        }),
{
    let pos = t.len() % (FRAME_TOKENS as nat);
    if (t.len() + 1) % (FRAME_TOKENS as nat) != 0 {
        assert((t.len() + 1) % (FRAME_TOKENS as nat) == pos + 1);
    }
}

impl TokenProgress {
    /// The fields describe having read the bits `r` of token `pos` of a
    /// frame, with the groups of the code before `group` ruled out.
    spec fn matches(&self, codes: Seq<HuffmanCode>, pos: nat, r: Seq<bool>) -> bool {
        &&& self.len == r.len()
        &&& self.code == code_value(r)
        &&& pos == 0 ==> r.len() < 16
        &&& pos == 1 ==> r.len() < 8
        &&& pos < 2 ==> self.group == 0
        &&& pos >= 2 ==> search_state(codes, r, self.group as int)
    }

    /// No bits of a token read, no group ruled out.
    spec fn is_reset(&self) -> bool {
        self.len == 0 && self.code == 0 && self.group == 0
    }

    /// Takes in one more bit of the token.
    fn read(&mut self, bitval: u8, Ghost(r): Ghost<Seq<bool>>)
        requires
            bitval <= 1,
            old(self).len == r.len(),
            old(self).code == code_value(r),
            r.len() < 64,
        ensures
            final(self).len == r.len() + 1,
            final(self).code == code_value(r.push(bitval == 1)),
            final(self).group == old(self).group,
    {
        proof {
            lemma_code_value_push(r, bitval == 1);
            lemma_code_value_bound(r);
            lemma_two_pow_64();
            lemma_two_pow_monotone(r.len(), 63);
        }
        self.len = self.len + 1;
        self.code = self.code * 2 + bitval as u64;
    }

    /// Completes the 16-bit shutter value.
    fn finish_shutter(&mut self, Ghost(codes): Ghost<Seq<HuffmanCode>>, Ghost(s): Ghost<Seq<bool>>) -> (res: Option<u16>)
        requires
            old(self).len == s.len(),
            old(self).code == code_value(s),
            old(self).group == 0,
            1 <= s.len() <= 16,
        ensures
            match res {
                None => token(codes, s, 0) is None && final(self).matches(codes, 0, s),
                Some(v) => token(codes, s, 0) == Some((16nat, v as nat)) && final(self).is_reset(),
            },
    {
        proof {
            reveal(token);
        }
        if self.len == 16 {
            assert(s.take(16) =~= s);
            proof {
                lemma_code_value_bound(s);
                lemma_two_pow_64();
            }
            let v = self.code as u16;
            self.code = 0;
            self.len = 0;
            self.group = 0;
            Some(v)
        } else {
            None
        }
    }

    /// Completes the first pixel of a frame, sent as 8 plain bits.
    fn finish_plain(&mut self, Ghost(codes): Ghost<Seq<HuffmanCode>>, Ghost(s): Ghost<Seq<bool>>) -> (res: Option<u8>)
        requires
            old(self).len == s.len(),
            old(self).code == code_value(s),
            old(self).group == 0,
            1 <= s.len() <= 8,
        ensures
            match res {
                None => token(codes, s, 1) is None && final(self).matches(codes, 1, s),
                Some(k) => token(codes, s, 1) == Some((8nat, k as nat)) && final(self).is_reset(),
            },
    {
        proof {
            reveal(token);
        }
        if self.len == 8 {
            assert(s.take(8) =~= s);
            proof {
                lemma_code_value_bound(s);
                lemma_two_pow_64();
            }
            let k = self.code as u8;
            self.code = 0;
            self.len = 0;
            self.group = 0;
            Some(k)
        } else {
            None
        }
    }

    /// Completes a pixel codeword when its last bit has arrived, or rules
    /// out the group of the code it was compared with.
    fn finish_codeword(
        &mut self,
        table: &HuffmanTable,
        Ghost(r): Ghost<Seq<bool>>,
        Ghost(b): Ghost<bool>,
        Ghost(pos): Ghost<nat>,
    ) -> (res: Option<u8>)
        requires
            table.wf(),
            pos >= 2,
            search_state(table@, r, old(self).group as int),
            old(self).len == r.len() + 1,
            old(self).code == code_value(r.push(b)),
        ensures
            match res {
                None => token(table@, r.push(b), pos) is None && final(self).matches(
                    table@,
                    pos,
                    r.push(b),
                ),
                Some(k) => token(table@, r.push(b), pos) == Some((r.len() + 1, k as nat))
                    && final(self).is_reset(),
            },
    {
        let ghost codes = table@;
        let ghost idx = self.group as int;
        let n = table.codes().len();
        let g = &table.codes()[self.group];
        if self.len == g.length {
            if self.code <= g.last_code {
                proof {
                    lemma_codeword_found(codes, r, b, idx, pos);
                }
                let j = self.code - g.first_code;
                assert(j < g.symbols.len());
                let k = g.symbols[j as usize];
                self.code = 0;
                self.len = 0;
                self.group = 0;
                Some(k)
            } else {
                proof {
                    lemma_codeword_rejected(codes, r, b, idx, pos);
                }
                self.group = self.group + 1;
                None
            }
        } else {
            proof {
                lemma_codeword_short(codes, r, b, idx, pos);
            }
            None
        }
    }
}

/// A fresh token is in a state that matches no bits read, at any place.
proof fn lemma_reset_matches(tok: TokenProgress, codes: Seq<HuffmanCode>, pos: nat)
    requires
        tok.is_reset(),
        well_formed(codes),
    ensures
        tok.matches(codes, pos, Seq::<bool>::empty()),
{
    assert(code_value(Seq::<bool>::empty()) == 0);
    assert(codes[0].length >= 1);
}

impl View for FrameDecoder {
    type V = Seq<u8>;

    /// The payload bytes of all packets decoded so far.
    closed spec fn view(&self) -> Seq<u8> {
        self.stream@
    }
}

impl FrameDecoder {
    /// The Huffman code the decoder reads pixel differences with.
    pub closed spec fn codes(&self) -> Seq<HuffmanCode> {
        self.table@
    }

    /// The fields describe the state of reading `bits`.
    closed spec fn bits_state(&self, bits: Seq<bool>) -> bool {
        let (t, r) = parse_tokens(self.table@, bits, 0);
        self.frame.matches(t) && self.token.matches(self.table@, t.len() % (FRAME_TOKENS as nat), r)
    }

    /// The decoder's invariant.
    pub closed spec fn inv(&self) -> bool {
        &&& self.table.wf()
        &&& self.first == (self.stream@.len() == 0)
        &&& self.bits_state(stream_bits(self.stream@))
    }

    /// A decoder at the start of a stream, reading pixel differences with
    /// `table`.
    pub fn new(table: HuffmanTable) -> (d: FrameDecoder)
        ensures
            d.inv(),
            d@ == Seq::<u8>::empty(),
            d.codes() == table@,
    {
        proof {
            use_type_invariant(&table);
        }
        let d = FrameDecoder {
            table,
            frame: FrameProgress { x: 0, y: 0, pixels: vec![0u8; FRAME_PIXELS], shutter: None },
            token: TokenProgress { code: 0, len: 0, group: 0 },
            first: true,
            stream: Ghost(Seq::empty()),
        };
        assert(stream_bits(Seq::<u8>::empty()) =~= Seq::<bool>::empty());
        assert(code_value(Seq::<bool>::empty()) == 0);
        d
    }

    /// Reads one bit of the stream; returns the frame that it completes.
    fn push_bit(&mut self, bitval: u8, Ghost(bits): Ghost<Seq<bool>>) -> (res: Option<Frame>)
        requires
            old(self).table.wf(),
            old(self).bits_state(bits),
            bitval <= 1,
        ensures
            final(self).bits_state(bits.push(bitval == 1)),
            final(self).table == old(self).table,
            final(self).first == old(self).first,
            final(self).stream == old(self).stream,
            frames_of(parse_tokens(final(self).table@, bits.push(bitval == 1), 0).0) == match res {
                Some(f) => frames_of(parse_tokens(old(self).table@, bits, 0).0).push(f@),
                None => frames_of(parse_tokens(old(self).table@, bits, 0).0),
            },
    {
        let ghost codes = self.table@;
        let ghost b = bitval == 1;
        let ghost t = parse_tokens(codes, bits, 0).0;
        let ghost r = parse_tokens(codes, bits, 0).1;
        let ghost s = r.push(b);
        let ghost pos = t.len() % (FRAME_TOKENS as nat);
        proof {
            lemma_parse_push(codes, bits, b);
            if pos >= 2 {
                assert(codes[self.token.group as int].length <= 64);
            }
        }
        self.token.read(bitval, Ghost(r));
        let k: u8;
        if self.frame.shutter.is_none() {
            match self.token.finish_shutter(Ghost(codes), Ghost(s)) {
                Some(v) => {
                    self.frame.set_shutter(Ghost(t), v);
                    proof {
                        lemma_frames_push(t, v as nat);
                        lemma_reset_matches(self.token, codes, 1);
                    }
                },
                None => {},
            }
            return None;
        } else if self.frame.x == 0 && self.frame.y == 0 {
            match self.token.finish_plain(Ghost(codes), Ghost(s)) {
                Some(v) => {
                    k = v;
                },
                None => {
                    return None;
                },
            }
        } else {
            match self.token.finish_codeword(&self.table, Ghost(r), Ghost(b), Ghost(pos)) {
                Some(v) => {
                    k = v;
                },
                None => {
                    return None;
                },
            }
        }
        let res = self.frame.place_pixel(Ghost(t), k);
        proof {
            lemma_reset_matches(self.token, codes, (t.len() + 1) % (FRAME_TOKENS as nat));
        }
        res
    }
}

/// Decodes the packet that arrives next from the sensor. The packet's
/// payload (all but its 8-byte header) continues the bit stream; the very
/// first payload byte of the stream carries nothing and is skipped. Returns
/// the frames completed by this payload, in order: exactly the frames of the
/// whole stream so far that earlier packets had not completed.
pub fn decode(decoder: &mut FrameDecoder, packet: &[u8]) -> (frames: Vec<Frame>)
    requires
        old(decoder).inv(),
        packet@.len() >= PACKET_HEADER,
    ensures
        final(decoder).inv(),
        final(decoder).codes() == old(decoder).codes(),
        final(decoder)@ == old(decoder)@ + packet@.skip(PACKET_HEADER as int),
        stream_frames(old(decoder).codes(), old(decoder)@).len() <= stream_frames(
            old(decoder).codes(),
            final(decoder)@,
        ).len(),
        stream_frames(old(decoder).codes(), final(decoder)@).take(
            stream_frames(old(decoder).codes(), old(decoder)@).len() as int,
        ) == stream_frames(old(decoder).codes(), old(decoder)@),
        frames@.map_values(|f: Frame| f@) == stream_frames(
            old(decoder).codes(),
            final(decoder)@,
        ).skip(stream_frames(old(decoder).codes(), old(decoder)@).len() as int),
{
    let ghost codes = decoder.table@;
    let ghost f0 = stream_frames(codes, decoder.stream@);
    let ghost s0 = decoder.stream@;
    let mut out: Vec<Frame> = Vec::new();
    let mut j: usize = PACKET_HEADER;
    assert(packet@.subrange(PACKET_HEADER as int, PACKET_HEADER as int) =~= Seq::<u8>::empty());
    assert(s0 + Seq::<u8>::empty() =~= s0);
    assert(f0.skip(f0.len() as int) =~= Seq::<(u16, Seq<u8>)>::empty());
    assert(f0.take(f0.len() as int) =~= f0);
    while j < packet.len()
        invariant
            decoder.table@ == codes,
            decoder.table.wf(),
            PACKET_HEADER <= j <= packet@.len(),
            decoder.stream@ == s0 + packet@.subrange(PACKET_HEADER as int, j as int),
            decoder.first == (decoder.stream@.len() == 0),
            decoder.bits_state(stream_bits(decoder.stream@)),
            f0.len() <= stream_frames(codes, decoder.stream@).len(),
            stream_frames(codes, decoder.stream@).take(f0.len() as int) == f0,
            out@.map_values(|f: Frame| f@) == stream_frames(codes, decoder.stream@).skip(
                f0.len() as int,
            ),
        decreases packet@.len() - j,
    {
        let cur_byte = packet[j];
        let ghost st = decoder.stream@;
        let ghost st2 = st.push(cur_byte);
        assert(s0 + packet@.subrange(PACKET_HEADER as int, j + 1) =~= st2);
        if decoder.first {
            // The very first byte of the stream carries nothing.
            decoder.first = false;
            decoder.stream = Ghost(st2);
            assert(st2.drop_first() =~= Seq::<u8>::empty());
            assert(stream_bits(st2) =~= stream_bits(st));
            j = j + 1;
            continue;
        }
        let ghost bits0 = stream_bits(st);
        proof {
            assert(st2.drop_first() =~= st.drop_first().push(cur_byte));
            lemma_bytes_bits_push(st.drop_first(), cur_byte);
            assert(byte_bits(cur_byte).take(0) =~= Seq::<bool>::empty());
            assert(bits0 + Seq::<bool>::empty() =~= bits0);
        }
        let mut bit: u8 = 0;
        while bit < 8
            invariant
                decoder.table@ == codes,
                decoder.table.wf(),
                decoder.stream@ == st,
                decoder.first == (st.len() == 0),
                0 <= bit <= 8,
                decoder.bits_state(bits0 + byte_bits(cur_byte).take(bit as int)),
                f0.len() <= frames_of(
                    parse_tokens(codes, bits0 + byte_bits(cur_byte).take(bit as int), 0).0,
                ).len(),
                frames_of(parse_tokens(codes, bits0 + byte_bits(cur_byte).take(bit as int), 0).0).take(
                    f0.len() as int,
                ) == f0,
                out@.map_values(|f: Frame| f@) == frames_of(
                    parse_tokens(codes, bits0 + byte_bits(cur_byte).take(bit as int), 0).0,
                ).skip(f0.len() as int),
            decreases 8 - bit,
        {
            let ghost bits = bits0 + byte_bits(cur_byte).take(bit as int);
            let ghost fr = frames_of(parse_tokens(codes, bits, 0).0);
            let ghost out0 = out@.map_values(|f: Frame| f@);
            let bv = byte_bit(cur_byte, bit);
            assert(bits.push(bv == 1) =~= bits0 + byte_bits(cur_byte).take(bit + 1));
            match decoder.push_bit(bv, Ghost(bits)) {
                Some(f) => {
                    out.push(f);
                    assert(out@.map_values(|f: Frame| f@) =~= out0.push(f@));
                    assert(fr.push(f@).take(f0.len() as int) =~= fr.take(f0.len() as int));
                    assert(fr.push(f@).skip(f0.len() as int) =~= fr.skip(f0.len() as int).push(f@));
                },
                None => {},
            }
            bit = bit + 1;
        }
        assert(byte_bits(cur_byte).take(8) =~= byte_bits(cur_byte));
        decoder.stream = Ghost(st2);
        j = j + 1;
    }
    assert(packet@.subrange(PACKET_HEADER as int, packet@.len() as int) =~= packet@.skip(
        PACKET_HEADER as int,
    ));
    out
}

/// The payload bytes of a list of packets: each packet after its header.
pub open spec fn payloads(ps: Seq<Seq<u8>>) -> Seq<u8>
    decreases ps.len(),
{
    if ps.len() == 0 {
        Seq::empty()
    } else {
        payloads(ps.drop_last()) + ps.last().skip(PACKET_HEADER as int)
    }
}

/// The frames that `decode` hands out, call after call, for a list of
/// packets given to a fresh decoder: each call's frames are those of the
/// payloads so far that the payloads before it had not completed.
pub open spec fn frames_handed_out(codes: Seq<HuffmanCode>, ps: Seq<Seq<u8>>) -> Seq<
    (u16, Seq<u8>),
>
    decreases ps.len(),
{
    if ps.len() == 0 {
        Seq::empty()
    } else {
        frames_handed_out(codes, ps.drop_last()) + stream_frames(codes, payloads(ps)).skip(
            stream_frames(codes, payloads(ps.drop_last())).len() as int,
        )
    }
}

/// Headers and the split of the stream into packets do not matter: the
/// frames handed out for a list of packets are the frames of their
/// payloads, put together.
pub proof fn lemma_packet_split_irrelevant(codes: Seq<HuffmanCode>, ps: Seq<Seq<u8>>)
    ensures
        frames_handed_out(codes, ps) == stream_frames(codes, payloads(ps)),
    decreases ps.len(),
{
    if ps.len() == 0 {
        reveal(token);
        assert(stream_bits(Seq::<u8>::empty()) =~= Seq::<bool>::empty());
        assert(parse_tokens(codes, Seq::<bool>::empty(), 0).0 =~= Seq::<nat>::empty());
        assert(stream_frames(codes, payloads(ps)) =~= Seq::<(u16, Seq<u8>)>::empty());
    } else {
        let init = ps.drop_last();
        lemma_packet_split_irrelevant(codes, init);
        lemma_stream_frames_grow(codes, payloads(init), ps.last().skip(PACKET_HEADER as int));
    }
}

/// Two lists of packets whose payloads spell the same stream get the same
/// frames handed out, whatever their headers and however they split it.
pub proof fn lemma_same_payloads_same_frames(
    codes: Seq<HuffmanCode>,
    ps: Seq<Seq<u8>>,
    qs: Seq<Seq<u8>>,
)
    requires
        payloads(ps) == payloads(qs),
    ensures
        frames_handed_out(codes, ps) == frames_handed_out(codes, qs),
{
    lemma_packet_split_irrelevant(codes, ps);
    lemma_packet_split_irrelevant(codes, qs);
}

} // verus!
