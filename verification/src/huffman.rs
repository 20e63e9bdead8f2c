//! Canonical Huffman code used for the pixel differences of a frame.
//!
//! The code is a list of groups ordered by code length. All codewords of one
//! group have the same length and are consecutive numbers; the group maps the
//! codeword `first_code + j` to `symbols[j]`. A codeword is found by reading
//! bits until the number read so far, at the length of the group under
//! consideration, is no greater than that group's last codeword.
use vstd::prelude::*;
use crate::bits::{code_value, lemma_code_value_prefix, lemma_two_pow_adds, lemma_two_pow_64, lemma_two_pow_monotone, two_pow};

verus! {

/// One group of a canonical Huffman code: the codewords of one length.
pub struct HuffmanCode {
    /// Number of bits of each codeword of the group.
    pub length: u32,
    /// Smallest codeword of the group.
    pub first_code: u64,
    /// Largest codeword of the group.
    pub last_code: u64,
    /// The symbol of each codeword, in codeword order.
    pub symbols: Vec<u8>,
}

/// The group, at or after `i`, that the bits at the front of `bits` select;
/// `None` while the bits read so far do not yet complete a codeword.
pub open spec fn match_group(codes: Seq<HuffmanCode>, bits: Seq<bool>, i: nat) -> Option<nat>
    decreases codes.len() - i,
{
    if i >= codes.len() {
        None
    } else if codes[i as int].length > bits.len() {
        None
    } else if code_value(bits.take(codes[i as int].length as int)) <= codes[i as int].last_code {
        Some(i)
    } else {
        match_group(codes, bits, i + 1)
    }
}

/// The codeword at the front of `bits`: its length and its symbol.
pub open spec fn decode_symbol(codes: Seq<HuffmanCode>, bits: Seq<bool>) -> Option<(nat, u8)> {
    match match_group(codes, bits, 0) {
        Some(i) => {
            let g = codes[i as int];
            let v = code_value(bits.take(g.length as int));
            Some((g.length as nat, g.symbols@[v - g.first_code]))
        },
        None => None,
    }
}

/// The shape of one group on its own: a length of 1 to 64 bits, a range of
/// codewords of that length, and one symbol per codeword.
pub open spec fn group_shape(g: HuffmanCode) -> bool {
    &&& 1 <= g.length <= 64
    &&& g.first_code <= g.last_code
    &&& g.last_code < two_pow(g.length as nat)
    &&& g.symbols@.len() == g.last_code - g.first_code + 1
}

/// Group `b` follows group `a` as in a canonical code: it is longer, and its
/// first codeword is the one after `a`'s last, extended with zero bits to
/// `b`'s length.
pub open spec fn groups_chain(a: HuffmanCode, b: HuffmanCode) -> bool {
    &&& a.length < b.length
    &&& b.first_code == (a.last_code + 1) * two_pow((b.length - a.length) as nat)
}

/// A complete canonical code whose codewords fit in 64 bits: lengths grow
/// strictly from group to group, each group's codewords follow on from the
/// previous group's, the first codeword is zero and the last group ends with
/// the all-ones codeword, so that every run of bits starts with a codeword.
pub open spec fn well_formed(codes: Seq<HuffmanCode>) -> bool {
    &&& codes.len() >= 1
    &&& forall|i: int| 0 <= i < codes.len() ==> group_shape(#[trigger] codes[i])
    &&& codes[0].first_code == 0
    &&& forall|i: int| 0 <= i < codes.len() - 1 ==> #[trigger] groups_chain(codes[i], codes[i + 1])
    &&& codes.last().last_code + 1 == two_pow(codes.last().length as nat)
}

/// Every complete canonical code is well formed, whatever its number of
/// groups: lengths of 1 to 64 bits growing from group to group, one symbol
/// per codeword, the first codeword zero, each group starting with the
/// codeword after the previous group's last, extended with zero bits, and
/// the last group ending with the all-ones codeword.
pub proof fn lemma_canonical_codes_well_formed(codes: Seq<HuffmanCode>)
    ensures
        codes.len() >= 1 && (forall|i: int|
            0 <= i < codes.len() ==> 1 <= #[trigger] codes[i].length <= 64 && codes[i].first_code
                <= codes[i].last_code && codes[i].last_code < two_pow(codes[i].length as nat)
                && codes[i].symbols@.len() == codes[i].last_code - codes[i].first_code + 1)
            && codes[0].first_code == 0 && (forall|i: int|
            0 <= i < codes.len() - 1 ==> #[trigger] codes[i].length < codes[i + 1].length
                && codes[i + 1].first_code == (codes[i].last_code + 1) * two_pow(
                (codes[i + 1].length - codes[i].length) as nat,
            )) && codes.last().last_code + 1 == two_pow(codes.last().length as nat)
            ==> well_formed(codes),
{
    if complete_canonical(codes) {
        assert forall|i: int| 0 <= i < codes.len() implies group_shape(#[trigger] codes[i]) by {
            assert(1 <= codes[i].length);
        }
        assert forall|i: int| 0 <= i < codes.len() - 1 implies #[trigger] groups_chain(
            codes[i],
            codes[i + 1],
        ) by {
            assert(codes[i].length < codes[i + 1].length);
        }
    }
}

/// The numbers of a complete canonical code, as spelled out in
/// `lemma_canonical_codes_well_formed`.
spec fn complete_canonical(codes: Seq<HuffmanCode>) -> bool {
    &&& codes.len() >= 1
    &&& forall|i: int|
        0 <= i < codes.len() ==> 1 <= #[trigger] codes[i].length <= 64 && codes[i].first_code
            <= codes[i].last_code && codes[i].last_code < two_pow(codes[i].length as nat)
            && codes[i].symbols@.len() == codes[i].last_code - codes[i].first_code + 1
    &&& codes[0].first_code == 0
    &&& forall|i: int|
        0 <= i < codes.len() - 1 ==> #[trigger] codes[i].length < codes[i + 1].length
            && codes[i + 1].first_code == (codes[i].last_code + 1) * two_pow(
            (codes[i + 1].length - codes[i].length) as nat,
        )
    &&& codes.last().last_code + 1 == two_pow(codes.last().length as nat)
}

/// A validated canonical Huffman code.
pub struct HuffmanTable {
    codes: Vec<HuffmanCode>,
}

impl View for HuffmanTable {
    type V = Seq<HuffmanCode>;

    closed spec fn view(&self) -> Seq<HuffmanCode> {
        self.codes@
    }
}

/// `2^n` for `n <= 64`, computed.
fn two_pow_exec(n: u32) -> (r: u128)
    requires
        n <= 64,
    ensures
        r == two_pow(n as nat),
        r <= 0x1_0000_0000_0000_0000,
{
    let mut r: u128 = 1;
    let mut i: u32 = 0;
    while i < n
        invariant
            i <= n <= 64,
            r == two_pow(i as nat),
        decreases n - i,
    {
        proof {
            lemma_two_pow_monotone(i as nat, 63);
            lemma_two_pow_64();
        }
        r = r * 2;
        i = i + 1;
    }
    proof {
        lemma_two_pow_monotone(n as nat, 64);
        lemma_two_pow_64();
    }
    r
}

/// Whether one group, on its own, has the shape `well_formed` asks of it.
fn group_ok(g: &HuffmanCode) -> (r: bool)
    ensures
        r == group_shape(*g),
{
    if g.length < 1 || g.length > 64 || g.first_code > g.last_code {
        return false;
    }
    let p = two_pow_exec(g.length);
    if (g.last_code as u128) >= p {
        return false;
    }
    (g.symbols.len() as u128) == ((g.last_code - g.first_code) as u128) + 1
}

/// Whether two consecutive, individually valid groups follow on from each other.
fn groups_follow(a: &HuffmanCode, b: &HuffmanCode) -> (r: bool)
    requires
        1 <= a.length <= 64,
        1 <= b.length <= 64,
        a.last_code < two_pow(a.length as nat),
    ensures
        r == groups_chain(*a, *b),
{
    if a.length >= b.length {
        return false;
    }
    let d = b.length - a.length;
    let p = two_pow_exec(d);
    proof {
        lemma_two_pow_adds(a.length as nat, d as nat);
        lemma_two_pow_monotone(b.length as nat, 64);
        lemma_two_pow_64();
        assert((a.last_code + 1) * two_pow(d as nat) <= two_pow(a.length as nat) * two_pow(
            d as nat,
        )) by (nonlinear_arith)
            requires
                a.last_code + 1 <= two_pow(a.length as nat),
        ;
    }
    (b.first_code as u128) == ((a.last_code as u128) + 1) * p
}

impl HuffmanTable {
    /// The table's invariant: its groups form a complete canonical code.
    #[verifier::type_invariant]
    pub open spec fn wf(&self) -> bool {
        well_formed(self@)
    }

    /// Builds a table from its groups, in order of code length. Returns
    /// `None` unless the groups form a complete canonical code (see
    /// `well_formed`).
    pub fn new(codes: Vec<HuffmanCode>) -> (r: Option<HuffmanTable>)
        ensures
            r is Some <==> well_formed(codes@),
            r matches Some(t) ==> t@ == codes@ && t.wf(),
            // Every complete canonical code is accepted, whatever its number
            // of groups.
            codes@.len() >= 1
                && (forall|i: int|
                0 <= i < codes@.len() ==> 1 <= #[trigger] codes@[i].length <= 64
                    && codes@[i].first_code <= codes@[i].last_code && codes@[i].last_code
                    < two_pow(codes@[i].length as nat) && codes@[i].symbols@.len()
                    == codes@[i].last_code - codes@[i].first_code + 1) && codes@[0].first_code == 0
                && (forall|i: int|
                0 <= i < codes@.len() - 1 ==> #[trigger] codes@[i].length < codes@[i + 1].length
                    && codes@[i + 1].first_code == (codes@[i].last_code + 1) * two_pow(
                    (codes@[i + 1].length - codes@[i].length) as nat,
                )) && codes@.last().last_code + 1 == two_pow(codes@.last().length as nat)
                ==> r is Some,
    {
        proof {
            lemma_canonical_codes_well_formed(codes@);
        }
        let n = codes.len();
        if n == 0 {
            return None;
        }
        let mut i: usize = 0;
        while i < n
            invariant
                n == codes@.len(),
                i <= n,
                forall|j: int| 0 <= j < i ==> group_shape(#[trigger] codes@[j]),
            decreases n - i,
        {
            if !group_ok(&codes[i]) {
                assert(!group_shape(codes@[i as int]));
                return None;
            }
            i = i + 1;
        }
        assert(forall|j: int| 0 <= j < n ==> group_shape(#[trigger] codes@[j]));
        let mut i: usize = 1;
        while i < n
            invariant
                n == codes@.len(),
                1 <= i <= n,
                forall|j: int| 0 <= j < n ==> group_shape(#[trigger] codes@[j]),
                forall|j: int| 0 <= j < i - 1 ==> #[trigger] groups_chain(codes@[j], codes@[j + 1]),
            decreases n - i,
        {
            assert(group_shape(codes@[i - 1]));
            if !groups_follow(&codes[i - 1], &codes[i]) {
                assert(!groups_chain(codes@[i - 1], codes@[(i - 1) + 1]));
                return None;
            }
            i = i + 1;
        }
        if codes[0].first_code != 0 {
            return None;
        }
        let last = &codes[n - 1];
        let p = two_pow_exec(last.length);
        if (last.last_code as u128) + 1 != p {
            return None;
        }
        Some(HuffmanTable { codes })
    }

    /// The groups of the table.
    pub fn codes(&self) -> (r: &Vec<HuffmanCode>)
        ensures
            r@ == self@,
    {
        &self.codes
    }
}

// ---------------------------------------------------------------------------
// How the group search behaves as bits arrive.

/// A codeword found at the front of some bits is still found, unchanged,
/// when more bits follow.
pub proof fn lemma_match_group_extend(codes: Seq<HuffmanCode>, bits: Seq<bool>, e: Seq<bool>, i: nat)
    requires
        match_group(codes, bits, i) is Some,
    ensures
        match_group(codes, bits + e, i) == match_group(codes, bits, i),
    decreases codes.len() - i,
{
    assert(i < codes.len());
    let g = codes[i as int];
    assert(g.length <= bits.len());
    assert((bits + e).take(g.length as int) =~= bits.take(g.length as int));
    if code_value(bits.take(g.length as int)) > g.last_code {
        lemma_match_group_extend(codes, bits, e, i + 1);
    }
}

/// Groups that the bits reject can be skipped.
pub proof fn lemma_match_group_skip(codes: Seq<HuffmanCode>, bits: Seq<bool>, i: nat, k: nat)
    requires
        i <= k <= codes.len(),
        forall|j: int|
            i <= j < k ==> #[trigger] codes[j].length <= bits.len() && code_value(
                bits.take(codes[j].length as int),
            ) > codes[j].last_code,
    ensures
        match_group(codes, bits, i) == match_group(codes, bits, k),
    decreases k - i,
{
    if i < k {
        assert(codes[i as int].length <= bits.len());
        lemma_match_group_skip(codes, bits, i + 1, k);
    }
}

/// If no codeword is complete yet, one more bit either still completes none,
/// or completes one that takes up all the bits.
pub proof fn lemma_match_group_push(codes: Seq<HuffmanCode>, bits: Seq<bool>, b: bool, i: nat)
    requires
        well_formed(codes),
        match_group(codes, bits, i) is None,
    ensures
        match match_group(codes, bits.push(b), i) {
            None => true,
            Some(k) => codes[k as int].length == bits.len() + 1,
        },
    decreases codes.len() - i,
{
    let s = bits.push(b);
    if i < codes.len() {
        let g = codes[i as int];
        if g.length <= bits.len() {
            assert(s.take(g.length as int) =~= bits.take(g.length as int));
            lemma_match_group_push(codes, bits, b, i + 1);
        } else if g.length == s.len() {
            if match_group(codes, s, i) != Some(i) {
                if i + 1 < codes.len() {
                    assert(groups_chain(codes[i as int], codes[i + 1 as int]));
                }
            }
        }
    }
}

/// The symbol a well-formed code reads is within its group.
pub proof fn lemma_match_group_in_range(codes: Seq<HuffmanCode>, bits: Seq<bool>, k: nat)
    requires
        well_formed(codes),
        k < codes.len(),
        codes[k as int].length == bits.len(),
        code_value(bits) <= codes[k as int].last_code,
        forall|j: int|
            0 <= j < k ==> #[trigger] codes[j].length <= bits.len() && code_value(
                bits.take(codes[j].length as int),
            ) > codes[j].last_code,
    ensures
        codes[k as int].first_code <= code_value(bits),
{
    if k > 0 {
        let p = codes[k - 1];
        let g = codes[k as int];
        assert(groups_chain(codes[k - 1], codes[(k - 1) + 1]));
        assert(p.length <= bits.len());
        lemma_code_value_prefix(bits, p.length as nat);
        let v = code_value(bits.take(p.length as int));
        let t = two_pow((bits.len() - p.length) as nat);
        assert(v >= p.last_code + 1);
        assert(v * t >= (p.last_code + 1) * t) by (nonlinear_arith)
            requires
                v >= p.last_code + 1,
        ;
        assert(g.first_code <= (p.last_code + 1) * t);
    }
}

} // verus!
