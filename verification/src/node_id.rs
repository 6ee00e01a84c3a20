//! 48-bit LCC node identifiers and their text forms.

use vstd::prelude::*;
use crate::text::{chars_of, char_is_hex, is_hex_char, hex_value, hex_digit_upper, byte_hex_upper, push_byte_hex, hex_char_value, push_char, remove_char};

verus! {

/// A 48-bit LCC node identifier.
#[derive(Clone, Copy, Debug, PartialEq, Eq)]
pub struct NodeId {
    pub bytes: [u8; 6],
}

/// Canonical text: twelve uppercase hex digits, no separators.
pub open spec fn canonical_text(b: Seq<u8>) -> Seq<char> {
    byte_hex_upper(b[0]) + byte_hex_upper(b[1]) + byte_hex_upper(b[2])
        + byte_hex_upper(b[3]) + byte_hex_upper(b[4]) + byte_hex_upper(b[5])
}

/// Dotted text: six two-digit uppercase hex groups joined by dots.
pub open spec fn dotted_text(b: Seq<u8>) -> Seq<char> {
    byte_hex_upper(b[0]) + seq!['.'] + byte_hex_upper(b[1]) + seq!['.'] + byte_hex_upper(b[2]) + seq!['.']
        + byte_hex_upper(b[3]) + seq!['.'] + byte_hex_upper(b[4]) + seq!['.'] + byte_hex_upper(b[5])
}

/// The byte whose two hex digits start at position `2 * i` of `t`.
pub open spec fn hex_byte_at(t: Seq<char>, i: int) -> nat {
    hex_value(t[2 * i]) * 16 + hex_value(t[2 * i + 1])
}

/// Text accepted as a node ID: twelve hex digits once dots are removed.
pub open spec fn parses_as_node_id(s: Seq<char>) -> bool {
    let t = remove_char(s, '.');
    t.len() == 12 && forall|i: int| 0 <= i < 12 ==> is_hex_char(#[trigger] t[i])
}

impl NodeId {
    /// A node ID from its six bytes.
    pub fn new(bytes: [u8; 6]) -> (r: NodeId)
        ensures
            r.bytes@ == bytes@,
    {
        NodeId { bytes }
    }

    /// Canonical form: twelve uppercase hex digits (e.g. `050201020300`).
    pub fn to_canonical(&self) -> (r: String)
        ensures
            r@ == canonical_text(self.bytes@),
    {
        let mut s = String::new();
        let mut i: usize = 0;
        while i < 6
            invariant
                i <= 6,
                s@ == canonical_prefix(self.bytes@, i as int),
            decreases 6 - i,
        {
            push_byte_hex(&mut s, self.bytes[i]);
            i = i + 1;
        }
        proof { reveal_with_fuel(canonical_prefix, 7); }
        assert(s@ =~= canonical_text(self.bytes@));
        s
    }

    /// Dotted form (e.g. `05.02.01.02.03.00`).
    pub fn to_hex_string(&self) -> (r: String)
        ensures
            r@ == dotted_text(self.bytes@),
    {
        let mut s = String::new();
        push_byte_hex(&mut s, self.bytes[0]);
        let mut i: usize = 1;
        while i < 6
            invariant
                1 <= i <= 6,
                s@ == dotted_prefix(self.bytes@, i as int),
            decreases 6 - i,
        {
            push_char(&mut s, '.');
            push_byte_hex(&mut s, self.bytes[i]);
            i = i + 1;
        }
        proof { reveal_with_fuel(dotted_prefix, 7); }
        assert(s@ =~= dotted_text(self.bytes@));
        s
    }

    /// Parses twelve hex digits, ignoring dots (`05.02.01.02.03.00` or `050201020300`).
    pub fn from_hex_string(s: &str) -> (r: Option<NodeId>)
        ensures
            r is Some <==> parses_as_node_id(s@),
            r matches Some(id) ==> forall|i: int| 0 <= i < 6 ==> #[trigger] id.bytes@[i] as nat == hex_byte_at(remove_char(s@, '.'), i),
    {
        let c = chars_of(s);
        let mut t: Vec<char> = Vec::new();
        let mut i: usize = 0;
        while i < c.len()
            invariant
                c@ == s@,
                i <= c@.len(),
                t@ == remove_char(c@.subrange(0, i as int), '.'),
            decreases c.len() - i,
        {
            assert(c@.subrange(0, i + 1).drop_last() =~= c@.subrange(0, i as int));
            if c[i] != '.' {
                t.push(c[i]);
            }
            i = i + 1;
        }
        assert(c@.subrange(0, c@.len() as int) =~= c@);
        if t.len() != 12 {
            return None;
        }
        let mut k: usize = 0;
        while k < 12
            invariant
                t@ == remove_char(s@, '.'),
                t@.len() == 12,
                k <= 12,
                forall|j: int| 0 <= j < k ==> is_hex_char(#[trigger] t@[j]),
            decreases 12 - k,
        {
            if !char_is_hex(t[k]) {
                return None;
            }
            k = k + 1;
        }
        let mut bytes: [u8; 6] = [0u8; 6];
        let mut b: usize = 0;
        while b < 6
            invariant
                t@ == remove_char(s@, '.'),
                t@.len() == 12,
                forall|j: int| 0 <= j < 12 ==> is_hex_char(#[trigger] t@[j]),
                b <= 6,
                forall|j: int| 0 <= j < b ==> #[trigger] bytes@[j] as nat == hex_byte_at(t@, j),
            decreases 6 - b,
        {
            let hi = hex_char_value(t[2 * b]);
            let lo = hex_char_value(t[2 * b + 1]);
            bytes[b] = hi * 16 + lo;
            b = b + 1;
        }
        Some(NodeId { bytes })
    }
}

/// Canonical digits of the first `i` bytes.
pub open spec fn canonical_prefix(b: Seq<u8>, i: int) -> Seq<char>
    decreases i,
{
    if i <= 0 { Seq::empty() } else { canonical_prefix(b, i - 1) + byte_hex_upper(b[i - 1]) }
}

/// Dotted digits of the first `i` bytes (`i >= 1`).
pub open spec fn dotted_prefix(b: Seq<u8>, i: int) -> Seq<char>
    decreases i,
{
    if i <= 1 { byte_hex_upper(b[0]) } else { dotted_prefix(b, i - 1) + seq!['.'] + byte_hex_upper(b[i - 1]) }
}

proof fn lemma_remove_char_concat(a: Seq<char>, b: Seq<char>, c: char)
    ensures
        remove_char(a + b, c) == remove_char(a, c) + remove_char(b, c),
    decreases b.len(),
{
    if b.len() == 0 {
        assert(a + b =~= a);
        assert(remove_char(a, c) + remove_char(b, c) =~= remove_char(a, c));
    } else {
        lemma_remove_char_concat(a, b.drop_last(), c);
        assert((a + b).drop_last() =~= a + b.drop_last());
        assert((a + b).last() == b.last());
        if b.last() != c {
            assert(remove_char(a, c) + remove_char(b.drop_last(), c).push(b.last())
                =~= (remove_char(a, c) + remove_char(b.drop_last(), c)).push(b.last()));
        }
    }
}

proof fn lemma_hex_digit(v: nat)
    requires
        v < 16,
    ensures
        is_hex_char(hex_digit_upper(v)),
        hex_value(hex_digit_upper(v)) == v,
        hex_digit_upper(v) != '.',
{
}

proof fn lemma_byte_text(x: u8)
    ensures
        byte_hex_upper(x).len() == 2,
        is_hex_char(byte_hex_upper(x)[0]),
        is_hex_char(byte_hex_upper(x)[1]),
        hex_value(byte_hex_upper(x)[0]) * 16 + hex_value(byte_hex_upper(x)[1]) == x as nat,
        remove_char(byte_hex_upper(x), '.') == byte_hex_upper(x),
{
    lemma_hex_digit(x as nat / 16);
    lemma_hex_digit(x as nat % 16);
    let t = byte_hex_upper(x);
    assert(t.drop_last() =~= seq![t[0]]);
    assert(seq![t[0]].drop_last() =~= Seq::<char>::empty());
    reveal_with_fuel(remove_char, 3);
    assert(remove_char(Seq::<char>::empty(), '.') =~= Seq::<char>::empty());
    assert(remove_char(seq![t[0]], '.') =~= seq![t[0]]);
    assert(remove_char(t, '.') =~= t);
}

/// Law: the text forms of a node ID parse back to it. The dotted form
/// ([`NodeId::to_hex_string`]) with its dots removed is the canonical form
/// ([`NodeId::to_canonical`]); both are accepted by
/// [`NodeId::from_hex_string`], whose bytes are the node ID's own.
pub proof fn law_node_id_text_round_trip(b: Seq<u8>)
    requires
        b.len() == 6,
    ensures
        remove_char(dotted_text(b), '.') == canonical_text(b),
        remove_char(canonical_text(b), '.') == canonical_text(b),
        parses_as_node_id(dotted_text(b)),
        parses_as_node_id(canonical_text(b)),
        forall|i: int| 0 <= i < 6 ==> #[trigger] hex_byte_at(canonical_text(b), i) == b[i] as nat,
{
    let h0 = byte_hex_upper(b[0]);
    let h1 = byte_hex_upper(b[1]);
    let h2 = byte_hex_upper(b[2]);
    let h3 = byte_hex_upper(b[3]);
    let h4 = byte_hex_upper(b[4]);
    let h5 = byte_hex_upper(b[5]);
    lemma_byte_text(b[0]);
    lemma_byte_text(b[1]);
    lemma_byte_text(b[2]);
    lemma_byte_text(b[3]);
    lemma_byte_text(b[4]);
    lemma_byte_text(b[5]);
    let d = seq!['.'];
    assert(remove_char(d, '.') =~= Seq::<char>::empty()) by {
        assert(d.drop_last() =~= Seq::<char>::empty());
        reveal_with_fuel(remove_char, 2);
    }
    let e = Seq::<char>::empty();
    lemma_remove_char_concat(h0, d, '.');
    lemma_remove_char_concat(h0 + d, h1, '.');
    lemma_remove_char_concat(h0 + d + h1, d, '.');
    lemma_remove_char_concat(h0 + d + h1 + d, h2, '.');
    lemma_remove_char_concat(h0 + d + h1 + d + h2, d, '.');
    lemma_remove_char_concat(h0 + d + h1 + d + h2 + d, h3, '.');
    lemma_remove_char_concat(h0 + d + h1 + d + h2 + d + h3, d, '.');
    lemma_remove_char_concat(h0 + d + h1 + d + h2 + d + h3 + d, h4, '.');
    lemma_remove_char_concat(h0 + d + h1 + d + h2 + d + h3 + d + h4, d, '.');
    lemma_remove_char_concat(h0 + d + h1 + d + h2 + d + h3 + d + h4 + d, h5, '.');
    assert(dotted_text(b) == h0 + d + h1 + d + h2 + d + h3 + d + h4 + d + h5);
    assert(remove_char(dotted_text(b), '.') =~= canonical_text(b));
    lemma_remove_char_concat(h0, h1, '.');
    lemma_remove_char_concat(h0 + h1, h2, '.');
    lemma_remove_char_concat(h0 + h1 + h2, h3, '.');
    lemma_remove_char_concat(h0 + h1 + h2 + h3, h4, '.');
    lemma_remove_char_concat(h0 + h1 + h2 + h3 + h4, h5, '.');
    let t = canonical_text(b);
    assert(t == h0 + h1 + h2 + h3 + h4 + h5);
    assert(remove_char(t, '.') =~= t);
    assert(t.len() == 12);
    assert forall|i: int| 0 <= i < 6 implies #[trigger] hex_byte_at(t, i) == b[i] as nat by {
        let h = byte_hex_upper(b[i]);
        assert(t[2 * i] == h[0] && t[2 * i + 1] == h[1]);
    }
    assert forall|i: int| 0 <= i < 12 implies is_hex_char(#[trigger] t[i]) by {
        let h = byte_hex_upper(b[i / 2]);
        assert(t[i] == h[i % 2]);
    }
}

} // verus!
