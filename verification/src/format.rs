//! The compressed frame format, stated over the bit stream.
//!
//! A frame is 901 tokens: a 16-bit shutter value, the first pixel as 8 plain
//! bits, and 899 Huffman codewords, one per further pixel in row order. Each
//! codeword's symbol `k` is a difference from a prediction: the pixel to the
//! left on the first row, the pixel above in the first column, and the mean
//! of both elsewhere; the pixel is the prediction minus `k`, modulo 255.
//! Frames follow each other without gaps.
use vstd::prelude::*;
use crate::bits::{
    byte_bits, bytes_bits, code_value, lemma_byte_bits_value, lemma_bytes_bits_append,
    lemma_bytes_bits_len, lemma_bytes_bits_push, lemma_code_value_append, lemma_two_pow_64,
};
use vstd::arithmetic::div_mod::lemma_mod_multiples_vanish;
use crate::huffman::{
    decode_symbol, groups_chain, lemma_match_group_extend, lemma_match_group_in_range,
    lemma_match_group_push, lemma_match_group_skip, match_group, well_formed, HuffmanCode,
};

verus! {

/// Width and height of a frame, in pixels.
pub const FRAME_SIDE: usize = 30;

/// Pixels in a frame.
pub const FRAME_PIXELS: usize = 900;

/// Tokens in a frame: the shutter value and one per pixel.
pub const FRAME_TOKENS: usize = 901;

/// The token at the front of `bits` when it is token `p` of its frame: its
/// length in bits and its value. `None` while `bits` holds no whole token.
#[verifier::opaque]
pub open spec fn token(codes: Seq<HuffmanCode>, bits: Seq<bool>, p: nat) -> Option<(nat, nat)> {
    if p == 0 {
        if bits.len() >= 16 {
            Some((16nat, code_value(bits.take(16))))
        } else {
            None
        }
    } else if p == 1 {
        if bits.len() >= 8 {
            Some((8nat, code_value(bits.take(8))))
        } else {
            None
        }
    } else {
        match decode_symbol(codes, bits) {
            Some((l, s)) => Some((l, s as nat)),
            None => None,
        }
    }
}

/// The place in a frame of the token after token `p`.
pub open spec fn next_place(p: nat) -> nat {
    if p + 1 >= FRAME_TOKENS {
        0
    } else {
        p + 1
    }
}

/// The whole tokens at the front of `bits`, read from place `p` of a frame,
/// and the bits left over after them.
pub open spec fn parse_tokens(codes: Seq<HuffmanCode>, bits: Seq<bool>, p: nat) -> (
    Seq<nat>,
    Seq<bool>,
)
    decreases bits.len(),
{
    match token(codes, bits, p) {
        Some((l, v)) => if 0 < l <= bits.len() {
            let (t, r) = parse_tokens(codes, bits.skip(l as int), next_place(p));
            (seq![v] + t, r)
        } else {
            (Seq::empty(), bits)
        },
        None => (Seq::empty(), bits),
    }
}

/// The pixel that a prediction and a difference symbol give: the prediction
/// minus the symbol, modulo 255.
pub open spec fn apply_difference(pred: u8, k: u8) -> u8 {
    ((pred as int - k as int) % 255) as u8
}

/// Pixel `i` (in row order) of a frame whose pixel tokens are `ks`.
pub open spec fn pixel_value(ks: Seq<nat>, i: nat) -> u8
    decreases i,
{
    if i == 0 {
        ks[0] as u8
    } else if i < FRAME_SIDE {
        apply_difference(pixel_value(ks, (i - 1) as nat), ks[i as int] as u8)
    } else if i % (FRAME_SIDE as nat) == 0 {
        apply_difference(pixel_value(ks, (i - FRAME_SIDE) as nat), ks[i as int] as u8)
    } else {
        apply_difference(
            ((pixel_value(ks, (i - FRAME_SIDE) as nat) as u16 + pixel_value(ks, (i - 1) as nat) as u16)
                / 2) as u8,
            ks[i as int] as u8,
        )
    }
}

/// The frame that 901 tokens spell: its shutter value and its pixels.
pub open spec fn frame_of(toks: Seq<nat>) -> (u16, Seq<u8>) {
    (
        toks[0] as u16,
        Seq::new(FRAME_PIXELS as nat, |i: int| pixel_value(toks.skip(1), i as nat)),
    )
}

/// The tokens of frame `j` in a token sequence.
pub open spec fn frame_tokens(toks: Seq<nat>, j: int) -> Seq<nat> {
    toks.subrange(FRAME_TOKENS * j, FRAME_TOKENS * j + FRAME_TOKENS)
}

/// The complete frames that a token sequence holds.
pub open spec fn frames_of(toks: Seq<nat>) -> Seq<(u16, Seq<u8>)> {
    Seq::new(toks.len() / (FRAME_TOKENS as nat), |j: int| frame_of(frame_tokens(toks, j)))
}

/// The bits of the stream: the bytes of the packet payloads, after the very
/// first byte, which carries nothing.
pub open spec fn stream_bits(stream: Seq<u8>) -> Seq<bool> {
    if stream.len() == 0 {
        Seq::empty()
    } else {
        bytes_bits(stream.drop_first())
    }
}

/// The complete frames of a stream of payload bytes.
pub open spec fn stream_frames(codes: Seq<HuffmanCode>, stream: Seq<u8>) -> Seq<(u16, Seq<u8>)> {
    frames_of(parse_tokens(codes, stream_bits(stream), 0).0)
}


/// The place in a frame after `n` more tokens, starting at place `p`.
pub open spec fn place_after(p: nat, n: nat) -> nat
    decreases n,
{
    if n == 0 {
        p
    } else {
        place_after(next_place(p), (n - 1) as nat)
    }
}

// ---------------------------------------------------------------------------
// Lemmas on the token grammar.

pub proof fn lemma_place_after(p: nat, n: nat)
    requires
        p < FRAME_TOKENS,
    ensures
        place_after(p, n) == (p + n) % (FRAME_TOKENS as nat),
    decreases n,
{
    if n > 0 {
        lemma_place_after(next_place(p), (n - 1) as nat);
    }
}

/// A group that `match_group` returns is complete within the bits.
pub proof fn lemma_match_group_found(codes: Seq<HuffmanCode>, bits: Seq<bool>, i: nat)
    requires
        match_group(codes, bits, i) is Some,
    ensures
        ({
            let k = match_group(codes, bits, i)->0;
            &&& i <= k < codes.len()
            &&& codes[k as int].length <= bits.len()
            &&& code_value(bits.take(codes[k as int].length as int)) <= codes[k as int].last_code
        }),
    decreases codes.len() - i,
{
    let g = codes[i as int];
    if code_value(bits.take(g.length as int)) > g.last_code {
        lemma_match_group_found(codes, bits, i + 1);
    }
}

/// A whole token at the front of some bits stays the same when bits follow.
pub proof fn lemma_token_extend(codes: Seq<HuffmanCode>, bits: Seq<bool>, e: Seq<bool>, p: nat)
    requires
        token(codes, bits, p) is Some,
    ensures
        token(codes, bits + e, p) == token(codes, bits, p),
{
    reveal(token);
    if p == 0 {
        assert((bits + e).take(16) =~= bits.take(16));
    } else if p == 1 {
        assert((bits + e).take(8) =~= bits.take(8));
    } else {
        lemma_match_group_extend(codes, bits, e, 0);
        lemma_match_group_found(codes, bits, 0);
        let k = match_group(codes, bits, 0)->0;
        let l = codes[k as int].length as int;
        assert((bits + e).take(l) =~= bits.take(l));
    }
}

/// Under a well-formed code a token is never empty and never longer than
/// the bits it is read from.
pub proof fn lemma_token_len(codes: Seq<HuffmanCode>, bits: Seq<bool>, p: nat)
    requires
        well_formed(codes),
        token(codes, bits, p) is Some,
    ensures
        0 < (token(codes, bits, p)->0).0 <= bits.len(),
{
    reveal(token);
    if p >= 2 {
        lemma_match_group_found(codes, bits, 0);
        let k = match_group(codes, bits, 0)->0;
        assert(1 <= codes[k as int].length);
    }
}

/// Parsing bits followed by more bits continues from where parsing the first
/// bits stopped.
pub proof fn lemma_parse_extend(codes: Seq<HuffmanCode>, bits: Seq<bool>, e: Seq<bool>, p: nat)
    ensures
        ({
            let (t, r) = parse_tokens(codes, bits, p);
            let (t2, r2) = parse_tokens(codes, r + e, place_after(p, t.len()));
            parse_tokens(codes, bits + e, p) == (t + t2, r2)
        }),
    decreases bits.len(),
{
    let (t, r) = parse_tokens(codes, bits, p);
    match token(codes, bits, p) {
        Some((l, v)) => {
            lemma_token_extend(codes, bits, e, p);
            if 0 < l <= bits.len() {
                let np = next_place(p);
                assert((bits + e).skip(l as int) =~= bits.skip(l as int) + e);
                lemma_parse_extend(codes, bits.skip(l as int), e, np);
                let (t1, r1) = parse_tokens(codes, bits.skip(l as int), np);
                assert(t == seq![v] + t1);
                assert(r == r1);
                assert(place_after(p, t.len()) == place_after(np, t1.len()));
                let (t2, r2) = parse_tokens(codes, r + e, place_after(p, t.len()));
                assert(seq![v] + (t1 + t2) =~= t + t2);
            } else {
                assert(t =~= Seq::<nat>::empty());
                let (t2, r2) = parse_tokens(codes, r + e, place_after(p, t.len()));
                assert(t + t2 =~= t2);
            }
        },
        None => {
            assert(t =~= Seq::<nat>::empty());
            let (t2, r2) = parse_tokens(codes, r + e, place_after(p, t.len()));
            assert(t + t2 =~= t2);
        },
    }
}

/// Under a well-formed code, the bits left over after parsing hold no whole
/// token.
pub proof fn lemma_parse_rest(codes: Seq<HuffmanCode>, bits: Seq<bool>, p: nat)
    requires
        well_formed(codes),
    ensures
        ({
            let (t, r) = parse_tokens(codes, bits, p);
            token(codes, r, place_after(p, t.len())) is None
        }),
    decreases bits.len(),
{
    match token(codes, bits, p) {
        Some((l, v)) => {
            lemma_token_len(codes, bits, p);
            lemma_parse_rest(codes, bits.skip(l as int), next_place(p));
        },
        None => {},
    }
}

/// One more bit after leftover bits either still holds no whole token, or
/// completes one that spans all of them.
pub proof fn lemma_token_push(codes: Seq<HuffmanCode>, r: Seq<bool>, b: bool, p: nat)
    requires
        well_formed(codes),
        token(codes, r, p) is None,
    ensures
        match token(codes, r.push(b), p) {
            None => true,
            Some((l, v)) => l == r.len() + 1,
        },
{
    reveal(token);
    if p >= 2 {
        lemma_match_group_push(codes, r, b, 0);
    }
}

/// Bits that hold exactly one token parse to that token alone.
pub proof fn lemma_parse_single(codes: Seq<HuffmanCode>, s: Seq<bool>, p: nat)
    requires
        well_formed(codes),
        token(codes, s, p) matches Some((l, v)) && l == s.len() && l > 0,
    ensures
        parse_tokens(codes, s, p) == (seq![(token(codes, s, p)->0).1], Seq::<bool>::empty()),
{
    reveal(token);
    let (l, v) = token(codes, s, p)->0;
    let e = s.skip(l as int);
    assert(e =~= Seq::<bool>::empty());
    let q = next_place(p);
    if q >= 2 {
        assert(codes[0].length >= 1);
        assert(match_group(codes, e, 0) is None);
    }
    assert(token(codes, e, q) is None);
    assert(parse_tokens(codes, e, q) == (Seq::<nat>::empty(), e));
    assert(parse_tokens(codes, s, p) == (seq![v] + Seq::<nat>::empty(), e));
    assert(seq![v] + Seq::<nat>::empty() =~= seq![v]);
}

/// What parsing does with one more bit of the stream.
pub proof fn lemma_parse_push(codes: Seq<HuffmanCode>, bits: Seq<bool>, b: bool)
    requires
        well_formed(codes),
    ensures
        ({
            let (t, r) = parse_tokens(codes, bits, 0);
            let q = t.len() % (FRAME_TOKENS as nat);
            match token(codes, r.push(b), q) {
                None => parse_tokens(codes, bits.push(b), 0) == (t, r.push(b)),
                Some((l, v)) => l == r.len() + 1 && parse_tokens(codes, bits.push(b), 0) == (
                    t.push(v),
                    Seq::<bool>::empty(),
                ),
            }
        }),
{
    let (t, r) = parse_tokens(codes, bits, 0);
    let q = t.len() % (FRAME_TOKENS as nat);
    lemma_place_after(0, t.len());
    lemma_parse_extend(codes, bits, seq![b], 0);
    assert(bits + seq![b] =~= bits.push(b));
    assert(r + seq![b] =~= r.push(b));
    lemma_parse_rest(codes, bits, 0);
    lemma_token_push(codes, r, b, q);
    match token(codes, r.push(b), q) {
        None => {
            assert(t + Seq::<nat>::empty() =~= t);
        },
        Some((l, v)) => {
            lemma_parse_single(codes, r.push(b), q);
            assert(t + seq![v] =~= t.push(v));
        },
    }
}

/// The frames of a token sequence after one more token.
pub proof fn lemma_frames_push(t: Seq<nat>, v: nat)
    ensures
        frames_of(t.push(v)) == if (t.len() + 1) % (FRAME_TOKENS as nat) == 0 {
            frames_of(t).push(
                frame_of(t.push(v).subrange(t.len() + 1 - FRAME_TOKENS, t.len() + 1 as int)),
            )
        } else {
            frames_of(t)
        },
{
    let u = t.push(v);
    let n = t.len() / (FRAME_TOKENS as nat);
    assert forall|j: int| 0 <= j < n implies #[trigger] frame_tokens(u, j) =~= frame_tokens(t, j) by {
        assert(FRAME_TOKENS * j + FRAME_TOKENS <= FRAME_TOKENS * n) by (nonlinear_arith)
            requires
                j < n,
        ;
    }
    if (t.len() + 1) % (FRAME_TOKENS as nat) == 0 {
        assert(u.len() / (FRAME_TOKENS as nat) == n + 1);
        assert(FRAME_TOKENS * n == t.len() + 1 - FRAME_TOKENS);
        assert(frames_of(u) =~= frames_of(t).push(
            frame_of(u.subrange(t.len() + 1 - FRAME_TOKENS, t.len() + 1 as int)),
        ));
    } else {
        assert(u.len() / (FRAME_TOKENS as nat) == n);
        assert(frames_of(u) =~= frames_of(t));
    }
}


/// A pixel depends only on the tokens up to its own.
pub proof fn lemma_pixel_prefix(ks: Seq<nat>, ks2: Seq<nat>, i: nat)
    requires
        i < ks.len() <= ks2.len(),
        forall|j: int| 0 <= j < ks.len() ==> ks2[j] == ks[j],
    ensures
        pixel_value(ks2, i) == pixel_value(ks, i),
    decreases i,
{
    if i > 0 {
        lemma_pixel_prefix(ks, ks2, (i - 1) as nat);
        if i >= FRAME_SIDE {
            lemma_pixel_prefix(ks, ks2, (i - FRAME_SIDE) as nat);
        }
    }
}

/// The frames of a token sequence stay the first frames of any longer one.
pub proof fn lemma_frames_of_prefix(t: Seq<nat>, u: Seq<nat>)
    ensures
        frames_of(t).len() <= frames_of(t + u).len(),
        frames_of(t + u).take(frames_of(t).len() as int) == frames_of(t),
{
    let n = t.len() / (FRAME_TOKENS as nat);
    let m = (t + u).len() / (FRAME_TOKENS as nat);
    assert(n <= m) by (nonlinear_arith)
        requires
            n == t.len() / (FRAME_TOKENS as nat),
            m == (t + u).len() / (FRAME_TOKENS as nat),
            t.len() <= (t + u).len(),
    ;
    assert forall|j: int| 0 <= j < n implies #[trigger] frame_tokens(t + u, j) =~= frame_tokens(t, j) by {
        assert(FRAME_TOKENS * j + FRAME_TOKENS <= FRAME_TOKENS * n) by (nonlinear_arith)
            requires
                j < n,
        ;
        assert(FRAME_TOKENS * n <= t.len());
    }
    assert(frames_of(t + u).take(n as int) =~= frames_of(t));
}

/// The frames of a stream never change as more of the stream arrives: the
/// frames of a stream are the first frames of any stream that continues it,
/// and those, followed by the frames that only the continuation completes,
/// are the frames of the whole.
pub proof fn lemma_stream_frames_grow(codes: Seq<HuffmanCode>, a: Seq<u8>, b: Seq<u8>)
    ensures
        stream_frames(codes, a).len() <= stream_frames(codes, a + b).len(),
        stream_frames(codes, a + b).take(stream_frames(codes, a).len() as int) == stream_frames(
            codes,
            a,
        ),
        stream_frames(codes, a) + stream_frames(codes, a + b).skip(
            stream_frames(codes, a).len() as int,
        ) == stream_frames(codes, a + b),
{
    let ta = parse_tokens(codes, stream_bits(a), 0).0;
    let tab = parse_tokens(codes, stream_bits(a + b), 0).0;
    if a.len() == 0 {
        reveal(token);
        assert(stream_bits(a) =~= Seq::<bool>::empty());
        assert(ta =~= Seq::<nat>::empty());
        assert(ta + tab =~= tab);
        lemma_frames_of_prefix(ta, tab);
    } else {
        assert((a + b).drop_first() =~= a.drop_first() + b);
        lemma_bytes_bits_append(a.drop_first(), b);
        lemma_parse_extend(codes, stream_bits(a), bytes_bits(b), 0);
        let (t, r) = parse_tokens(codes, stream_bits(a), 0);
        let t2 = parse_tokens(codes, r + bytes_bits(b), place_after(0, t.len())).0;
        assert(tab == ta + t2);
        lemma_frames_of_prefix(ta, t2);
    }
    let fa = stream_frames(codes, a);
    let fab = stream_frames(codes, a + b);
    assert(fa + fab.skip(fa.len() as int) =~= fab);
}

/// What the encoder predicts pixel `i` of an image to be: the pixel to the
/// left on the first row, the pixel above in the first column, and the mean
/// of the two elsewhere.
pub open spec fn prediction(img: Seq<u8>, i: int) -> u8 {
    if i < FRAME_SIDE {
        img[i - 1]
    } else if i % (FRAME_SIDE as int) == 0 {
        img[i - FRAME_SIDE]
    } else {
        ((img[i - FRAME_SIDE] as u16 + img[i - 1] as u16) / 2) as u8
    }
}

/// The pixel tokens the encoder sends for an image: the first pixel as is,
/// then for each pixel its prediction minus the pixel, modulo 255.
pub open spec fn difference_tokens(img: Seq<u8>) -> Seq<nat> {
    Seq::new(
        img.len(),
        |i: int|
            if i == 0 {
                img[0] as nat
            } else {
                ((prediction(img, i) as int - img[i] as int) % 255) as nat
            },
    )
}

/// Taking off the difference that the encoder adds gives back the pixel.
pub proof fn lemma_apply_difference_inverts(pred: u8, p: u8)
    requires
        p < 255,
    ensures
        apply_difference(pred, ((pred as int - p as int) % 255) as u8) == p,
{
    let d = pred as int - p as int;
    let k = d % 255;
    if d >= 0 {
        if d == 255 {
            assert(k == 0);
        } else {
            assert(k == d);
        }
    } else {
        assert(k == d + 255);
    }
    assert(((pred as int - k) % 255) == p as int);
}

/// Rebuilding pixels from difference tokens gives back the image, when no
/// pixel after the first is 255 (differences modulo 255 cannot tell 255
/// from 0).
pub proof fn lemma_pixels_invert_differences(img: Seq<u8>, i: nat)
    requires
        i < img.len(),
        forall|j: int| 1 <= j < img.len() ==> #[trigger] img[j] < 255,
    ensures
        pixel_value(difference_tokens(img), i) == img[i as int],
    decreases i,
{
    if i > 0 {
        lemma_pixels_invert_differences(img, (i - 1) as nat);
        if i >= FRAME_SIDE {
            lemma_pixels_invert_differences(img, (i - FRAME_SIDE) as nat);
        }
        let pred = prediction(img, i as int);
        assert(img[i as int] < 255);
        lemma_apply_difference_inverts(pred, img[i as int]);
        let ks = difference_tokens(img);
        assert(ks[i as int] == ((pred as int - img[i as int] as int) % 255) as nat);
        if i < FRAME_SIDE {
            assert(pixel_value(ks, i) == apply_difference(pixel_value(ks, (i - 1) as nat), ks[i as int] as u8));
        } else if i % (FRAME_SIDE as nat) == 0 {
            assert(pixel_value(ks, i) == apply_difference(pixel_value(ks, (i - FRAME_SIDE) as nat), ks[i as int] as u8));
        } else {
            assert(pixel_value(ks, i) == apply_difference(pred, ks[i as int] as u8));
        }
    }
}

/// Decoding inverts the frame format: the tokens that the encoder sends for
/// a shutter value and a 30x30 image decode to that shutter value and image,
/// for every image in which no pixel after the first is 255.
pub proof fn lemma_decode_inverts_encoding(shutter: u16, img: Seq<u8>)
    requires
        img.len() == FRAME_PIXELS,
        forall|j: int| 1 <= j < img.len() ==> #[trigger] img[j] < 255,
    ensures
        frame_of(seq![shutter as nat] + difference_tokens(img)) == (shutter, img),
{
    let toks = seq![shutter as nat] + difference_tokens(img);
    assert(toks.skip(1) =~= difference_tokens(img));
    assert forall|i: int| 0 <= i < FRAME_PIXELS implies #[trigger] frame_of(toks).1[i] == img[i] by {
        lemma_pixels_invert_differences(img, i as nat);
    }
    assert(frame_of(toks).1 =~= img);
}

/// Taking a difference off a prediction leaves a pixel that differs from
/// the prediction by the difference, modulo 255.
pub proof fn lemma_apply_difference_modulo(pred: u8, k: u8)
    ensures
        apply_difference(pred, k) < 255,
        (pred as int - apply_difference(pred, k) as int) % 255 == k as int % 255,
{
    let d = pred as int - k as int;
    let m = d % 255;
    let q = d / 255;
    assert(d == 255 * q + m);
    assert(pred as int - m == 255 * q + k as int);
    lemma_mod_multiples_vanish(q, k as int, 255);
}

/// The rebuilt pixels obey the frame format: the first pixel is the first
/// token; on the first row the pixel to the left, in the first column the
/// pixel above, and elsewhere the mean of the two, minus the pixel, is the
/// pixel's difference symbol, modulo 255; and no pixel after the first is
/// 255.
pub proof fn lemma_pixel_differences(ks: Seq<nat>, i: nat)
    ensures
        i == 0 ==> pixel_value(ks, i) == ks[0] as u8,
        0 < i < 30 ==> (pixel_value(ks, (i - 1) as nat) as int - pixel_value(ks, i) as int) % 255
            == (ks[i as int] as u8) as int % 255,
        i >= 30 && i % 30 == 0 ==> (pixel_value(ks, (i - 30) as nat) as int - pixel_value(ks, i) as int)
            % 255 == (ks[i as int] as u8) as int % 255,
        i >= 30 && i % 30 != 0 ==> ((pixel_value(ks, (i - 30) as nat) as int + pixel_value(
            ks,
            (i - 1) as nat,
        ) as int) / 2 - pixel_value(ks, i) as int) % 255 == (ks[i as int] as u8) as int % 255,
        i > 0 ==> pixel_value(ks, i) < 255,
{
    if i > 0 {
        let k = ks[i as int] as u8;
        if i < 30 {
            lemma_apply_difference_modulo(pixel_value(ks, (i - 1) as nat), k);
        } else if i % 30 == 0 {
            lemma_apply_difference_modulo(pixel_value(ks, (i - 30) as nat), k);
        } else {
            let a = pixel_value(ks, (i - 30) as nat);
            let b = pixel_value(ks, (i - 1) as nat);
            let pred = ((a as u16 + b as u16) / 2) as u8;
            assert(pred as int == (a as int + b as int) / 2);
            lemma_apply_difference_modulo(pred, k);
        }
    }
}

/// The first frame of a stream starts right after the stream's first byte:
/// its shutter value is the next two bytes, high byte first, and its first
/// pixel is the byte after them.
pub proof fn lemma_first_frame_header(codes: Seq<HuffmanCode>, s: Seq<u8>)
    requires
        stream_frames(codes, s).len() >= 1,
    ensures
        s.len() >= 4,
        stream_frames(codes, s)[0].0 == s[1] * 256 + s[2],
        stream_frames(codes, s)[0].1[0] == s[3],
{
    reveal(token);
    let bits = stream_bits(s);
    let (t, r) = parse_tokens(codes, bits, 0);
    assert(t.len() >= FRAME_TOKENS);
    assert(s.len() > 0);
    // The first two tokens: 16 bits, then 8 bits.
    assert(bits.len() >= 16);
    let (t1, r1) = parse_tokens(codes, bits.skip(16), 1);
    assert(t == seq![code_value(bits.take(16))] + t1);
    assert(t1.len() >= 1);
    assert(bits.skip(16).len() >= 8);
    assert(t1[0] == code_value(bits.skip(16).take(8)));
    // Those bits are the second, third and fourth bytes of the stream.
    let u = s.drop_first();
    lemma_bytes_bits_len(u);
    assert(u.len() >= 3);
    let h = u.take(3);
    assert(u =~= h + u.skip(3));
    lemma_bytes_bits_append(h, u.skip(3));
    let e = Seq::<u8>::empty();
    assert(h =~= e.push(u[0]).push(u[1]).push(u[2]));
    lemma_bytes_bits_push(e, u[0]);
    lemma_bytes_bits_push(e.push(u[0]), u[1]);
    lemma_bytes_bits_push(e.push(u[0]).push(u[1]), u[2]);
    let b1 = byte_bits(u[0]);
    let b2 = byte_bits(u[1]);
    let b3 = byte_bits(u[2]);
    assert(bytes_bits(e) =~= Seq::<bool>::empty());
    assert(bytes_bits(e.push(u[0])) =~= b1);
    assert(bytes_bits(h) =~= b1 + b2 + b3);
    assert(bits.take(16) =~= b1 + b2);
    assert(bits.skip(16).take(8) =~= b3);
    lemma_byte_bits_value(u[0]);
    lemma_byte_bits_value(u[1]);
    lemma_byte_bits_value(u[2]);
    lemma_code_value_append(b1, b2);
    lemma_two_pow_64();
    let f = frame_tokens(t, 0);
    assert(f[0] == t[0] && f[1] == t[1]);
    assert(f.skip(1)[0] == t[1]);
}

/// How a codeword is read: the groups of the code are tried in order of
/// length, and the first group whose length the bits reach and whose last
/// codeword the number spelled by that many bits does not pass gives the
/// symbol at that number's place in the group.
pub proof fn lemma_codeword_reading(codes: Seq<HuffmanCode>, bits: Seq<bool>, k: nat)
    requires
        well_formed(codes),
        k < codes.len(),
        codes[k as int].length <= bits.len(),
        code_value(bits.take(codes[k as int].length as int)) <= codes[k as int].last_code,
        forall|j: int|
            0 <= j < k ==> #[trigger] codes[j].length <= bits.len() && code_value(
                bits.take(codes[j].length as int),
            ) > codes[j].last_code,
    ensures
        codes[k as int].first_code <= code_value(bits.take(codes[k as int].length as int)),
        decode_symbol(codes, bits) == Some(
            (
                codes[k as int].length as nat,
                codes[k as int].symbols@[code_value(bits.take(codes[k as int].length as int))
                    - codes[k as int].first_code],
            ),
        ),
{
    let l = codes[k as int].length as int;
    let c = bits.take(l);
    lemma_match_group_skip(codes, bits, 0, k);
    assert forall|j: int| 0 <= j < k implies #[trigger] codes[j].length <= c.len() && code_value(
        c.take(codes[j].length as int),
    ) > codes[j].last_code by {
        lemma_groups_in_order(codes, j, k as int);
        assert(c.take(codes[j].length as int) =~= bits.take(codes[j].length as int));
    }
    lemma_match_group_in_range(codes, c, k);
}

/// In a well-formed code, a group before another is shorter.
proof fn lemma_groups_in_order(codes: Seq<HuffmanCode>, j: int, k: int)
    requires
        well_formed(codes),
        0 <= j < k < codes.len(),
    ensures
        codes[j].length < codes[k].length,
    decreases k - j,
{
    assert(groups_chain(codes[k - 1], codes[(k - 1) + 1]));
    if j < k - 1 {
        lemma_groups_in_order(codes, j, k - 1);
    }
}

} // verus!
