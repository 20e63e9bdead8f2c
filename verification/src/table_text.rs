//! The text form of a Huffman code table.
//!
//! The text is decimal numbers separated by white space. Each group of the
//! code is written as its code length, its first codeword, its last codeword
//! and then one symbol per codeword, in codeword order; groups follow each
//! other in order of code length.
use vstd::prelude::*;
use crate::huffman::{groups_chain, group_shape, well_formed, HuffmanCode, HuffmanTable};

verus! {

/// A decimal digit.
pub open spec fn is_digit(c: u8) -> bool {
    0x30 <= c <= 0x39
}

/// Space, tab, line feed or carriage return.
pub open spec fn is_space(c: u8) -> bool {
    c == 0x20 || c == 0x09 || c == 0x0a || c == 0x0d
}

/// `a` in front of the numbers of `o`, if there are any.
pub open spec fn prepend<T>(a: Seq<T>, o: Option<Seq<T>>) -> Option<Seq<T>> {
    match o {
        Some(r) => Some(a + r),
        None => None,
    }
}

/// The numbers that the text `t` spells, when the digits just before `t`
/// spell `pending`; `None` if `t` holds a byte that is neither a digit nor
/// white space.
pub open spec fn numbers_from(t: Seq<u8>, pending: Option<nat>) -> Option<Seq<nat>>
    decreases t.len(),
{
    if t.len() == 0 {
        match pending {
            Some(v) => Some(seq![v]),
            None => Some(Seq::empty()),
        }
    } else if is_digit(t[0]) {
        let before: nat = match pending {
            Some(v) => v,
            None => 0,
        };
        numbers_from(t.drop_first(), Some(before * 10 + (t[0] - 0x30) as nat))
    } else if is_space(t[0]) {
        match pending {
            Some(v) => prepend(seq![v], numbers_from(t.drop_first(), None)),
            None => numbers_from(t.drop_first(), None),
        }
    } else {
        None
    }
}

/// The numbers that a text spells.
pub open spec fn text_numbers(t: Seq<u8>) -> Option<Seq<nat>> {
    numbers_from(t, None)
}

/// The groups that a list of numbers spells: length, first codeword, last
/// codeword and the symbols; `None` if the numbers do not divide into groups.
pub open spec fn number_groups(ns: Seq<nat>) -> Option<Seq<(nat, nat, nat, Seq<nat>)>>
    decreases ns.len(),
{
    if ns.len() == 0 {
        Some(Seq::empty())
    } else if ns.len() < 3 || ns[2] < ns[1] || ns.len() - 3 < ns[2] - ns[1] + 1 {
        None
    } else {
        let n = ns[2] - ns[1] + 1;
        prepend(
            seq![(ns[0], ns[1], ns[2], ns.subrange(3, 3 + n))],
            number_groups(ns.skip(3 + n)),
        )
    }
}

/// The groups that a text spells; numbers beyond 64 bits fit no field and
/// are refused.
pub open spec fn text_groups(t: Seq<u8>) -> Option<Seq<(nat, nat, nat, Seq<nat>)>> {
    match text_numbers(t) {
        Some(ns) => if forall|i: int| 0 <= i < ns.len() ==> #[trigger] ns[i] <= u64::MAX {
            number_groups(ns)
        } else {
            None
        },
        None => None,
    }
}

/// Each group's numbers fit the fields they go into.
pub open spec fn groups_fit(gs: Seq<(nat, nat, nat, Seq<nat>)>) -> bool {
    forall|i: int|
        0 <= i < gs.len() ==> {
            &&& #[trigger] gs[i].0 <= u32::MAX
            &&& gs[i].2 <= u64::MAX
            &&& forall|j: int| 0 <= j < gs[i].3.len() ==> gs[i].3[j] <= 255
        }
}

/// One group of a code holds the numbers of a spelled group.
pub open spec fn code_spells(c: HuffmanCode, g: (nat, nat, nat, Seq<nat>)) -> bool {
    &&& c.length == g.0
    &&& c.first_code == g.1
    &&& c.last_code == g.2
    &&& c.symbols@.len() == g.3.len()
    &&& forall|j: int| 0 <= j < g.3.len() ==> c.symbols@[j] == g.3[j]
}

/// The groups of a code hold the numbers of the spelled groups.
pub open spec fn codes_spell(cs: Seq<HuffmanCode>, gs: Seq<(nat, nat, nat, Seq<nat>)>) -> bool {
    &&& cs.len() == gs.len()
    &&& forall|i: int| 0 <= i < gs.len() ==> code_spells(#[trigger] cs[i], gs[i])
}

/// Whether a code is well formed depends only on the numbers it holds.
pub proof fn lemma_well_formed_spelled(
    a: Seq<HuffmanCode>,
    b: Seq<HuffmanCode>,
    gs: Seq<(nat, nat, nat, Seq<nat>)>,
)
    requires
        codes_spell(a, gs),
        codes_spell(b, gs),
        well_formed(a),
    ensures
        well_formed(b),
{
    assert forall|i: int| 0 <= i < b.len() implies group_shape(#[trigger] b[i]) by {
        assert(code_spells(a[i], gs[i]));
        assert(code_spells(b[i], gs[i]));
        assert(group_shape(a[i]));
    }
    assert forall|i: int| 0 <= i < b.len() - 1 implies #[trigger] groups_chain(b[i], b[i + 1]) by {
        assert(code_spells(a[i], gs[i]));
        assert(code_spells(b[i], gs[i]));
        assert(code_spells(a[i + 1], gs[i + 1]));
        assert(code_spells(b[i + 1], gs[i + 1]));
        assert(groups_chain(a[i], a[i + 1]));
    }
    assert(code_spells(a[b.len() - 1], gs[b.len() - 1]));
    assert(code_spells(b[b.len() - 1], gs[b.len() - 1]));
    assert(code_spells(a[0], gs[0]));
    assert(code_spells(b[0], gs[0]));
}

/// A pending number only grows while digits follow it, and is the first
/// number spelled.
proof fn lemma_pending_first(t: Seq<u8>, v: nat)
    requires
        numbers_from(t, Some(v)) is Some,
    ensures
        numbers_from(t, Some(v))->0.len() >= 1,
        numbers_from(t, Some(v))->0[0] >= v,
    decreases t.len(),
{
    if t.len() > 0 && is_digit(t[0]) {
        lemma_pending_first(t.drop_first(), v * 10 + (t[0] - 0x30) as nat);
    }
}

/// A byte other than a decimal digit, space, tab, line feed or carriage
/// return anywhere in a text makes it spell no numbers.
pub proof fn lemma_other_byte_refused(t: Seq<u8>, pending: Option<nat>, i: int)
    requires
        0 <= i < t.len(),
        !(0x30 <= t[i] <= 0x39),
        t[i] != 0x20 && t[i] != 0x09 && t[i] != 0x0a && t[i] != 0x0d,
    ensures
        numbers_from(t, pending) is None,
    decreases t.len(),
{
    if i > 0 {
        assert(t.drop_first()[i - 1] == t[i]);
        lemma_other_byte_refused(t.drop_first(), None, i - 1);
        let before: nat = match pending {
            Some(v) => v,
            None => 0,
        };
        lemma_other_byte_refused(t.drop_first(), Some(before * 10 + (t[0] - 0x30) as nat), i - 1);
    }
}

/// The numbers of a text, each fitting in 64 bits; `None` if the text holds
/// another byte than digits and white space, or a number beyond 64 bits.
fn lex_numbers(t: &[u8]) -> (r: Option<Vec<u64>>)
    ensures
        match r {
            Some(v) => text_numbers(t@) == Some(v@.map_values(|x: u64| x as nat)),
            None => match text_numbers(t@) {
                None => true,
                Some(ns) => exists|i: int| 0 <= i < ns.len() && ns[i] > u64::MAX,
            },
        },
{
    let mut out: Vec<u64> = Vec::new();
    let mut cur: Option<u64> = None;
    let mut i: usize = 0;
    assert(t@.skip(0) =~= t@);
    assert(out@.map_values(|x: u64| x as nat) =~= Seq::<nat>::empty());
    while i < t.len()
        invariant
            0 <= i <= t@.len(),
            text_numbers(t@) == prepend(
                out@.map_values(|x: u64| x as nat),
                numbers_from(
                    t@.skip(i as int),
                    match cur {
                        Some(c) => Some(c as nat),
                        None => None,
                    },
                ),
            ),
        decreases t@.len() - i,
    {
        let c = t[i];
        let ghost rest = t@.skip(i as int);
        let ghost outn = out@.map_values(|x: u64| x as nat);
        assert(rest[0] == c);
        assert(rest.drop_first() =~= t@.skip(i + 1));
        if 0x30 <= c && c <= 0x39 {
            let before: u64 = match cur {
                Some(v) => v,
                None => 0,
            };
            let d = (c - 0x30) as u64;
            if before > (u64::MAX - d) / 10 {
                proof {
                    let big = before as nat * 10 + d as nat;
                    assert(big > u64::MAX);
                    if let Some(r) = numbers_from(rest.drop_first(), Some(big)) {
                        lemma_pending_first(rest.drop_first(), big);
                        let ns = outn + r;
                        assert(ns[outn.len() as int] == r[0]);
                    }
                }
                return None;
            }
            cur = Some(before * 10 + d);
        } else if c == 0x20 || c == 0x09 || c == 0x0a || c == 0x0d {
            match cur {
                Some(v) => {
                    out.push(v);
                    proof {
                        assert(out@.map_values(|x: u64| x as nat) =~= outn.push(v as nat));
                        if let Some(r) = numbers_from(rest.drop_first(), None) {
                            assert(outn + (seq![v as nat] + r) =~= outn.push(v as nat) + r);
                        }
                    }
                },
                None => {},
            }
            cur = None;
        } else {
            return None;
        }
        i = i + 1;
    }
    let ghost outn = out@.map_values(|x: u64| x as nat);
    assert(t@.skip(i as int) =~= Seq::<u8>::empty());
    match cur {
        Some(v) => {
            out.push(v);
            assert(out@.map_values(|x: u64| x as nat) =~= outn + seq![v as nat]);
        },
        None => {
            assert(outn + Seq::<nat>::empty() =~= outn);
        },
    }
    Some(out)
}

/// The code groups that a list of numbers spells; `None` if the numbers do
/// not divide into groups or a number does not fit its field.
fn group_numbers(ns: &Vec<u64>) -> (r: Option<Vec<HuffmanCode>>)
    ensures
        match r {
            Some(cs) => number_groups(ns@.map_values(|x: u64| x as nat)) matches Some(gs)
                && groups_fit(gs) && codes_spell(cs@, gs),
            None => !(number_groups(ns@.map_values(|x: u64| x as nat)) matches Some(gs)
                && groups_fit(gs)),
        },
{
    let ghost nn = ns@.map_values(|x: u64| x as nat);
    let mut codes: Vec<HuffmanCode> = Vec::new();
    let ghost mut done: Seq<(nat, nat, nat, Seq<nat>)> = Seq::empty();
    let mut i: usize = 0;
    let n = ns.len();
    assert(nn.skip(0) =~= nn);
    while i < n
        invariant
            n == ns@.len() == nn.len(),
            nn == ns@.map_values(|x: u64| x as nat),
            0 <= i <= n,
            number_groups(nn) == prepend(done, number_groups(nn.skip(i as int))),
            groups_fit(done),
            codes_spell(codes@, done),
        decreases n - i,
    {
        let ghost rest = nn.skip(i as int);
        if n - i < 3 {
            return None;
        }
        let length = ns[i];
        let first = ns[i + 1];
        let last = ns[i + 2];
        assert(rest[0] == length && rest[1] == first && rest[2] == last);
        if last < first || last - first >= (n - i - 3) as u64 {
            return None;
        }
        let count = (last - first) as usize + 1;
        let ghost g = (rest[0], rest[1], rest[2], rest.subrange(3, 3 + count));
        assert(rest.skip(3 + count) =~= nn.skip(i + 3 + count));
        proof {
            assert(number_groups(rest) == prepend(seq![g], number_groups(rest.skip(3 + count))));
            if let Some(gs) = number_groups(nn) {
                let r2 = number_groups(rest.skip(3 + count))->0;
                assert(gs == done + (seq![g] + r2));
                assert(gs[done.len() as int] == g);
            }
        }
        if length > u32::MAX as u64 {
            proof {
                if let Some(gs) = number_groups(nn) {
                    assert(gs[done.len() as int].0 > u32::MAX);
                }
            }
            return None;
        }
        let mut symbols: Vec<u8> = Vec::new();
        let mut j: usize = 0;
        while j < count
            invariant
                0 <= j <= count,
                i + 3 + count <= n,
                n == ns@.len() == nn.len(),
                nn == ns@.map_values(|x: u64| x as nat),
                g.3 =~= nn.subrange(i + 3, i + 3 + count),
                number_groups(nn) matches Some(gs) ==> gs.len() > done.len() && gs[done.len() as int]
                    == g,
                symbols@.len() == j,
                forall|k: int| 0 <= k < j ==> symbols@[k] == nn[i + 3 + k],
            decreases count - j,
        {
            let s = ns[i + 3 + j];
            if s > 255 {
                proof {
                    assert(g.3[j as int] == s);
                    if let Some(gs) = number_groups(nn) {
                        let k = done.len() as int;
                        assert(gs[k].0 == g.0);
                        assert(gs[k].3[j as int] > 255);
                        assert(!groups_fit(gs));
                    }
                }
                return None;
            }
            symbols.push(s as u8);
            j = j + 1;
        }
        let code = HuffmanCode { length: length as u32, first_code: first, last_code: last, symbols };
        proof {
            assert(code_spells(code, g));
            let done2 = done.push(g);
            assert forall|k: int| 0 <= k < done2.len() implies code_spells(
                #[trigger] codes@.push(code)[k],
                done2[k],
            ) by {
                if k < done.len() {
                    assert(code_spells(codes@[k], done[k]));
                }
            }
            if let Some(r) = number_groups(rest.skip(3 + count)) {
                assert(done + (seq![g] + r) =~= done2 + r);
            }
            done = done2;
        }
        codes.push(code);
        i = i + 3 + count;
    }
    assert(nn.skip(i as int) =~= Seq::<nat>::empty());
    assert(done + Seq::<(nat, nat, nat, Seq<nat>)>::empty() =~= done);
    Some(codes)
}

/// Reads a Huffman code table from its text form. Returns `None` unless the
/// text spells groups whose numbers fit their fields and form a complete
/// canonical code.
pub fn parse_huffman_text(text: &[u8]) -> (r: Option<HuffmanTable>)
    ensures
        r is Some <==> (text_groups(text@) matches Some(gs) && groups_fit(gs) && exists|
            cs: Seq<HuffmanCode>,
        | codes_spell(cs, gs) && well_formed(cs)),
        r matches Some(t) ==> (text_groups(text@) matches Some(gs) && codes_spell(t@, gs)),
        (exists|i: int|
            0 <= i < text@.len() && !(0x30 <= #[trigger] text@[i] <= 0x39) && text@[i] != 0x20
                && text@[i] != 0x09 && text@[i] != 0x0a && text@[i] != 0x0d) ==> r is None,
{
    proof {
        if exists|i: int|
            0 <= i < text@.len() && !(0x30 <= #[trigger] text@[i] <= 0x39) && text@[i] != 0x20
                && text@[i] != 0x09 && text@[i] != 0x0a && text@[i] != 0x0d {
            let i = choose|i: int|
                0 <= i < text@.len() && !(0x30 <= #[trigger] text@[i] <= 0x39) && text@[i] != 0x20
                    && text@[i] != 0x09 && text@[i] != 0x0a && text@[i] != 0x0d;
            lemma_other_byte_refused(text@, None, i);
        }
    }
    let ns = match lex_numbers(text) {
        Some(ns) => ns,
        None => {
            return None;
        },
    };
    proof {
        let nn = ns@.map_values(|x: u64| x as nat);
        assert(forall|i: int| 0 <= i < nn.len() ==> #[trigger] nn[i] <= u64::MAX);
        assert(text_groups(text@) == number_groups(nn));
    }
    let codes = match group_numbers(&ns) {
        Some(cs) => cs,
        None => {
            return None;
        },
    };
    let ghost gs = text_groups(text@)->0;
    let ghost cs = codes@;
    let r = HuffmanTable::new(codes);
    proof {
        if r is None {
            if exists|c: Seq<HuffmanCode>| codes_spell(c, gs) && well_formed(c) {
                let c = choose|c: Seq<HuffmanCode>| codes_spell(c, gs) && well_formed(c);
                lemma_well_formed_spelled(c, cs, gs);
            }
        }
    }
    r
}

} // verus!
