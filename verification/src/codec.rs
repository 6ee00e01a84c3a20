//! Byte-level codecs of configuration memory: big-endian integers, text
//! fields and dotted-hex event IDs.

use vstd::prelude::*;
use crate::text::{
    all_digits, all_hex, byte_hex_upper, char_is_digit, char_is_hex, chars_of, digits_value, hex_char_value,
    hex_digits_value, is_digit_char, is_hex_char, push_byte_hex, push_char,
};

verus! {

/// Big-endian encoding of the low `n` bytes of `x`.
pub open spec fn be_bytes(x: nat, n: nat) -> Seq<u8>
    decreases n,
{
    if n == 0 {
        Seq::empty()
    } else {
        be_bytes(x / 256, (n - 1) as nat).push((x % 256) as u8)
    }
}

/// The two's-complement bit pattern of a signed 64-bit value.
pub open spec fn twos_complement(v: int) -> nat {
    if v >= 0 { v as nat } else { (v + 0x1_0000_0000_0000_0000) as nat }
}

/// Unsigned value of big-endian bytes.
pub open spec fn be_value(s: Seq<u8>) -> nat
    decreases s.len(),
{
    if s.len() == 0 {
        0
    } else {
        be_value(s.drop_last()) * 256 + s.last() as nat
    }
}

/// Signed value of `n` big-endian bytes (two's complement).
pub open spec fn be_signed(s: Seq<u8>) -> int {
    let u = be_value(s);
    let half = pow256(s.len()) / 2;
    if u >= half { u - pow256(s.len()) } else { u as int }
}

/// 256 to the power `n`.
pub open spec fn pow256(n: nat) -> nat
    decreases n,
{
    if n == 0 { 1 } else { 256 * pow256((n - 1) as nat) }
}

/// The bit pattern of an `i64` as a `u64`.
pub fn twos_complement_u64(v: i64) -> (r: u64)
    ensures
        r == twos_complement(v as int),
{
    if v >= 0 {
        v as u64
    } else {
        ((v as i128) + 0x1_0000_0000_0000_0000i128) as u64
    }
}

/// Big-endian bytes of the low `n` bytes of `x`.
pub fn be_bytes_of(x: u64, n: usize) -> (r: Vec<u8>)
    requires
        n <= 8,
    ensures
        r@ == be_bytes(x as nat, n as nat),
    decreases n,
{
    if n == 0 {
        Vec::new()
    } else {
        let mut v = be_bytes_of(x / 256, n - 1);
        v.push((x % 256) as u8);
        v
    }
}

proof fn lemma_pow256_facts()
    ensures
        pow256(0) == 1,
        pow256(1) == 0x100,
        pow256(2) == 0x1_0000,
        pow256(4) == 0x1_0000_0000,
        pow256(8) == 0x1_0000_0000_0000_0000,
{
    reveal_with_fuel(pow256, 9);
}

proof fn lemma_be_value_bound(s: Seq<u8>)
    ensures
        be_value(s) < pow256(s.len()),
    decreases s.len(),
{
    if s.len() > 0 {
        lemma_be_value_bound(s.drop_last());
        let p = pow256((s.len() - 1) as nat);
        let v = be_value(s.drop_last());
        assert(v * 256 + s.last() < 256 * p) by (nonlinear_arith)
            requires v < p, s.last() < 256;
    }
}

/// Signed value of the first `n` bytes of `data` read big-endian.
pub fn be_signed_of(data: &[u8], n: usize) -> (r: i64)
    requires
        n == 1 || n == 2 || n == 4 || n == 8,
        n <= data@.len(),
    ensures
        r == be_signed(data@.subrange(0, n as int)),
{
    let mut u: u64 = 0;
    let mut i: usize = 0;
    proof { lemma_pow256_facts(); }
    while i < n
        invariant
            n <= 8,
            n <= data@.len(),
            i <= n,
            u == be_value(data@.subrange(0, i as int)),
            u < pow256(i as nat),
            pow256(8) == 0x1_0000_0000_0000_0000,
        decreases n - i,
    {
        proof {
            assert(data@.subrange(0, i + 1).drop_last() =~= data@.subrange(0, i as int));
            lemma_be_value_bound(data@.subrange(0, i + 1));
            lemma_pow256_mono((i + 1) as nat, 8);
            assert(pow256((i + 1) as nat) == 256 * pow256(i as nat));
            assert(u * 256 + data@[i as int] < 256 * pow256(i as nat)) by (nonlinear_arith)
                requires u < pow256(i as nat), data@[i as int] < 256;
        }
        u = u * 256 + data[i] as u64;
        i = i + 1;
    }
    let ghost s = data@.subrange(0, n as int);
    proof { lemma_pow256_facts(); }
    if n == 8 {
        if u >= 0x8000_0000_0000_0000 {
            ((u - 0x8000_0000_0000_0000) as i64) - 0x4000_0000_0000_0000 - 0x4000_0000_0000_0000
        } else {
            u as i64
        }
    } else {
        let full: u64 = if n == 1 { 0x100 } else if n == 2 { 0x1_0000 } else { 0x1_0000_0000 };
        if u >= full / 2 {
            (u as i64) - (full as i64)
        } else {
            u as i64
        }
    }
}

proof fn lemma_pow256_mono(a: nat, b: nat)
    requires
        a <= b,
    ensures
        pow256(a) <= pow256(b),
    decreases b,
{
    if a < b {
        lemma_pow256_mono(a, (b - 1) as nat);
    }
}

/// Uppercase hex bytes joined by dots (`01.02.0A`).
pub open spec fn dotted_hex(b: Seq<u8>) -> Seq<char>
    decreases b.len(),
{
    if b.len() == 0 {
        Seq::empty()
    } else if b.len() == 1 {
        byte_hex_upper(b[0])
    } else {
        dotted_hex(b.drop_last()) + seq!['.'] + byte_hex_upper(b.last())
    }
}

/// Uppercase hex bytes joined by dots.
pub fn dotted_hex_string(b: &[u8]) -> (r: String)
    ensures
        r@ == dotted_hex(b@),
{
    let mut s = String::new();
    let mut i: usize = 0;
    while i < b.len()
        invariant
            i <= b@.len(),
            s@ == dotted_hex(b@.subrange(0, i as int)),
        decreases b.len() - i,
    {
        let ghost pre = s@;
        if i > 0 {
            push_char(&mut s, '.');
        }
        push_byte_hex(&mut s, b[i]);
        proof {
            let nxt = b@.subrange(0, i + 1);
            assert(nxt.drop_last() =~= b@.subrange(0, i as int));
            if i == 0 {
                assert(s@ =~= dotted_hex(nxt));
            } else {
                assert(s@ =~= dotted_hex(nxt));
            }
        }
        i = i + 1;
    }
    assert(b@.subrange(0, b@.len() as int) =~= b@);
    s
}

/// The signed number a decimal text denotes (optional sign, then digits),
/// when it fits in 64 bits.
pub open spec fn parse_i64_spec(s: Seq<char>) -> Option<i64> {
    let neg = s.len() > 0 && s[0] == '-';
    let d = if s.len() > 0 && (s[0] == '-' || s[0] == '+') { s.drop_first() } else { s };
    if d.len() > 0 && all_digits(d) {
        let v: int = if neg { -(digits_value(d) as int) } else { digits_value(d) as int };
        if i64::MIN <= v <= i64::MAX { Some(v as i64) } else { None }
    } else {
        None
    }
}

proof fn lemma_digits_value_grows(s: Seq<char>, i: int)
    requires
        0 <= i <= s.len(),
        all_digits(s),
    ensures
        digits_value(s.subrange(0, i)) <= digits_value(s),
    decreases s.len() - i,
{
    if i < s.len() {
        lemma_digits_value_grows(s, i + 1);
        assert(s.subrange(0, i + 1).drop_last() =~= s.subrange(0, i));
    } else {
        assert(s.subrange(0, i) =~= s);
    }
}

/// Parses a signed decimal integer, as `str::parse::<i64>` does.
pub fn parse_i64(s: &str) -> (r: Option<i64>)
    ensures
        r == parse_i64_spec(s@),
{
    let c = chars_of(s);
    let mut start: usize = 0;
    let mut neg = false;
    if c.len() > 0 && (c[0] == '-' || c[0] == '+') {
        neg = c[0] == '-';
        start = 1;
    }
    let ghost d = if s@.len() > 0 && (s@[0] == '-' || s@[0] == '+') { s@.drop_first() } else { s@ };
    assert(d =~= c@.subrange(start as int, c@.len() as int));
    if start >= c.len() {
        return None;
    }
    let limit: u64 = if neg { 0x8000_0000_0000_0000 } else { 0x7FFF_FFFF_FFFF_FFFF };
    let mut m: u64 = 0;
    let mut i: usize = start;
    while i < c.len()
        invariant
            c@ == s@,
            d == c@.subrange(start as int, c@.len() as int),
            d.len() > 0,
            start <= i <= c@.len(),
            all_digits(c@.subrange(start as int, i as int)),
            m == digits_value(c@.subrange(start as int, i as int)),
            m <= limit,
            limit == (if neg { 0x8000_0000_0000_0000u64 } else { 0x7FFF_FFFF_FFFF_FFFFu64 }),
            d == (if s@.len() > 0 && (s@[0] == '-' || s@[0] == '+') { s@.drop_first() } else { s@ }),
            neg == (s@.len() > 0 && s@[0] == '-'),
        decreases c.len() - i,
    {
        let ghost pre = c@.subrange(start as int, i as int);
        let ghost nxt = c@.subrange(start as int, i + 1);
        assert(nxt.drop_last() =~= pre);
        if !char_is_digit(c[i]) {
            assert(d[i - start] == c@[i as int]);
            assert(!all_digits(d));
            return None;
        }
        let dv = hex_char_value(c[i]) as u64;
        assert(nxt.last() == c@[i as int]);
        if m > (limit - dv) / 10 {
            proof {
                assert forall|k: int| 0 <= k < nxt.len() implies is_digit_char(#[trigger] nxt[k]) by {
                    if k < nxt.len() - 1 { assert(nxt[k] == pre[k]); }
                }
                assert(digits_value(nxt) == m * 10 + dv);
                assert(m * 10 + dv > limit) by (nonlinear_arith)
                    requires m > (limit - dv) / 10, dv <= 9, limit >= 9;
                if all_digits(d) {
                    assert(d.subrange(0, i + 1 - start) =~= nxt);
                    lemma_digits_value_grows(d, i + 1 - start);
                }
            }
            return None;
        }
        proof {
            assert(m * 10 + dv <= limit) by (nonlinear_arith)
                requires m <= (limit - dv) / 10, dv <= 9, limit >= 9;
        }
        m = m * 10 + dv;
        proof {
            assert forall|k: int| 0 <= k < nxt.len() implies is_digit_char(#[trigger] nxt[k]) by {
                if k < nxt.len() - 1 { assert(nxt[k] == pre[k]); }
            }
        }
        i = i + 1;
    }
    assert(c@.subrange(start as int, i as int) =~= d);
    if neg {
        if m == 0x8000_0000_0000_0000 {
            Some(i64::MIN)
        } else {
            Some(-(m as i64))
        }
    } else {
        Some(m as i64)
    }
}

/// The byte a hex part denotes (optional `+`, then hex digits), when it fits in a byte.
pub open spec fn parse_hex_byte_spec(p: Seq<char>) -> Option<u8> {
    let d = if p.len() > 0 && p[0] == '+' { p.drop_first() } else { p };
    if d.len() > 0 && all_hex(d) && hex_digits_value(d) <= 255 { Some(hex_digits_value(d) as u8) } else { None }
}

proof fn lemma_hex_value_grows(s: Seq<char>, i: int)
    requires
        0 <= i <= s.len(),
        all_hex(s),
    ensures
        hex_digits_value(s.subrange(0, i)) <= hex_digits_value(s),
    decreases s.len() - i,
{
    if i < s.len() {
        lemma_hex_value_grows(s, i + 1);
        assert(s.subrange(0, i + 1).drop_last() =~= s.subrange(0, i));
    } else {
        assert(s.subrange(0, i) =~= s);
    }
}

/// Parses one byte written in hex, as `u8::from_str_radix(_, 16)` does.
pub fn parse_hex_byte(p: &[char]) -> (r: Option<u8>)
    ensures
        r == parse_hex_byte_spec(p@),
{
    let mut start: usize = 0;
    if p.len() > 0 && p[0] == '+' {
        start = 1;
    }
    let ghost d = if p@.len() > 0 && p@[0] == '+' { p@.drop_first() } else { p@ };
    assert(d =~= p@.subrange(start as int, p@.len() as int));
    if start >= p.len() {
        return None;
    }
    let mut v: u32 = 0;
    let mut i: usize = start;
    while i < p.len()
        invariant
            d == p@.subrange(start as int, p@.len() as int),
            d == (if p@.len() > 0 && p@[0] == '+' { p@.drop_first() } else { p@ }),
            d.len() > 0,
            start <= i <= p@.len(),
            all_hex(p@.subrange(start as int, i as int)),
            v == hex_digits_value(p@.subrange(start as int, i as int)),
            v <= 255,
        decreases p.len() - i,
    {
        let ghost pre = p@.subrange(start as int, i as int);
        let ghost nxt = p@.subrange(start as int, i + 1);
        assert(nxt.drop_last() =~= pre);
        if !char_is_hex(p[i]) {
            assert(d[i - start] == p@[i as int]);
            assert(!all_hex(d));
            return None;
        }
        v = v * 16 + hex_char_value(p[i]) as u32;
        assert(nxt.last() == p@[i as int]);
        assert(v == hex_digits_value(nxt));
        proof {
            assert forall|k: int| 0 <= k < nxt.len() implies is_hex_char(#[trigger] nxt[k]) by {
                if k < nxt.len() - 1 { assert(nxt[k] == pre[k]); }
            }
        }
        if v > 255 {
            proof {
                if all_hex(d) {
                    assert(d.subrange(0, i + 1 - start) =~= nxt);
                    lemma_hex_value_grows(d, i + 1 - start);
                }
            }
            return None;
        }
        i = i + 1;
    }
    assert(p@.subrange(start as int, i as int) =~= d);
    Some(v as u8)
}

/// The parts of `s` between occurrences of `sep`, as `str::split` gives them.
pub open spec fn split_on(s: Seq<char>, sep: char) -> Seq<Seq<char>>
    decreases s.len(),
{
    if s.len() == 0 {
        seq![Seq::empty()]
    } else {
        let p = split_on(s.drop_last(), sep);
        if s.last() == sep {
            p.push(Seq::empty())
        } else {
            p.update(p.len() - 1, p.last().push(s.last()))
        }
    }
}

proof fn lemma_split_nonempty(s: Seq<char>, sep: char)
    ensures
        split_on(s, sep).len() >= 1,
    decreases s.len(),
{
    if s.len() > 0 {
        lemma_split_nonempty(s.drop_last(), sep);
    }
}

/// Splits a character sequence at every `sep`.
pub fn split_chars(s: &[char], sep: char) -> (r: Vec<Vec<char>>)
    ensures
        r@.map_values(|v: Vec<char>| v@) == split_on(s@, sep),
{
    let mut parts: Vec<Vec<char>> = Vec::new();
    let mut cur: Vec<char> = Vec::new();
    let mut i: usize = 0;
    while i < s.len()
        invariant
            i <= s@.len(),
            parts@.map_values(|v: Vec<char>| v@).push(cur@) == split_on(s@.subrange(0, i as int), sep),
        decreases s.len() - i,
    {
        let ghost pv = parts@.map_values(|v: Vec<char>| v@);
        let ghost prev = split_on(s@.subrange(0, i as int), sep);
        assert(s@.subrange(0, i + 1).drop_last() =~= s@.subrange(0, i as int));
        assert(s@.subrange(0, i + 1).last() == s@[i as int]);
        proof { lemma_split_nonempty(s@.subrange(0, i as int), sep); }
        if s[i] == sep {
            let mut done: Vec<char> = Vec::new();
            std::mem::swap(&mut done, &mut cur);
            let ghost dv = done@;
            parts.push(done);
            assert(parts@.map_values(|v: Vec<char>| v@) =~= pv.push(dv));
            assert(parts@.map_values(|v: Vec<char>| v@).push(cur@) =~= prev.push(Seq::empty()));
        } else {
            let ghost cv = cur@;
            cur.push(s[i]);
            assert(prev.last() == cv);
            assert(parts@.map_values(|v: Vec<char>| v@).push(cur@) =~= prev.update(prev.len() - 1, prev.last().push(s@[i as int])));
        }
        i = i + 1;
    }
    assert(s@.subrange(0, s@.len() as int) =~= s@);
    let ghost pv = parts@.map_values(|v: Vec<char>| v@);
    let ghost cv = cur@;
    parts.push(cur);
    assert(parts@.map_values(|v: Vec<char>| v@) =~= pv.push(cv));
    parts
}

/// The unsigned number a decimal text denotes (optional `+`, then digits),
/// when it is at most `max`.
pub open spec fn parse_unsigned_spec(s: Seq<char>, max: int) -> Option<nat> {
    let d = if s.len() > 0 && s[0] == '+' { s.drop_first() } else { s };
    if d.len() > 0 && all_digits(d) && digits_value(d) <= max { Some(digits_value(d)) } else { None }
}

/// Parses an unsigned decimal number no larger than `max`, as `str::parse`
/// does for unsigned integer types.
pub fn parse_unsigned(p: &[char], max: u64) -> (r: Option<u64>)
    ensures
        r matches Some(v) ==> parse_unsigned_spec(p@, max as int) == Some(v as nat),
        r is None ==> parse_unsigned_spec(p@, max as int) is None,
{
    let mut start: usize = 0;
    if p.len() > 0 && p[0] == '+' {
        start = 1;
    }
    let ghost d = if p@.len() > 0 && p@[0] == '+' { p@.drop_first() } else { p@ };
    assert(d =~= p@.subrange(start as int, p@.len() as int));
    if start >= p.len() {
        return None;
    }
    let mut v: u64 = 0;
    let mut i: usize = start;
    while i < p.len()
        invariant
            d == p@.subrange(start as int, p@.len() as int),
            d == (if p@.len() > 0 && p@[0] == '+' { p@.drop_first() } else { p@ }),
            d.len() > 0,
            start <= i <= p@.len(),
            all_digits(p@.subrange(start as int, i as int)),
            v == digits_value(p@.subrange(start as int, i as int)),
            v <= max,
        decreases p.len() - i,
    {
        let ghost pre = p@.subrange(start as int, i as int);
        let ghost nxt = p@.subrange(start as int, i + 1);
        assert(nxt.drop_last() =~= pre);
        if !char_is_digit(p[i]) {
            assert(d[i - start] == p@[i as int]);
            assert(!all_digits(d));
            return None;
        }
        let dv = hex_char_value(p[i]) as u64;
        assert(nxt.last() == p@[i as int]);
        proof {
            assert forall|k: int| 0 <= k < nxt.len() implies is_digit_char(#[trigger] nxt[k]) by {
                if k < nxt.len() - 1 { assert(nxt[k] == pre[k]); }
            }
        }
        if dv > max || v > (max - dv) / 10 {
            proof {
                assert(digits_value(nxt) == v * 10 + dv);
                if dv <= max {
                    assert(v * 10 + dv > max) by (nonlinear_arith)
                        requires v > (max - dv) / 10, dv <= max;
                }
                if all_digits(d) {
                    assert(d.subrange(0, i + 1 - start) =~= nxt);
                    lemma_digits_value_grows(d, i + 1 - start);
                }
            }
            return None;
        }
        proof {
            assert(v * 10 + dv <= max) by (nonlinear_arith)
                requires v <= (max - dv) / 10, dv <= max;
        }
        v = v * 10 + dv;
        i = i + 1;
    }
    assert(p@.subrange(start as int, i as int) =~= d);
    Some(v)
}

proof fn lemma_mod_step(q: int, r: int, m: int)
    requires
        m > 0,
        0 <= q,
        0 <= r < 256,
    ensures
        (q % m) * 256 + r == (256 * q + r) % (256 * m),
{
    let a = q / m;
    let b = q % m;
    assert(q == a * m + b && 0 <= b < m) by (nonlinear_arith)
        requires
            m > 0,
            a == q / m,
            b == q % m,
    ;
    assert(256 * q + r == a * (256 * m) + (256 * b + r)) by (nonlinear_arith)
        requires
            q == a * m + b,
    ;
    assert(0 <= 256 * b + r < 256 * m) by (nonlinear_arith)
        requires
            0 <= b < m,
            0 <= r < 256,
    ;
    assert((256 * q + r) % (256 * m) == 256 * b + r) by (nonlinear_arith)
        requires
            256 * q + r == a * (256 * m) + (256 * b + r),
            0 <= 256 * b + r < 256 * m,
            m > 0,
    ;
}

proof fn lemma_be_bytes_value(x: nat, n: nat)
    ensures
        be_bytes(x, n).len() == n,
        be_value(be_bytes(x, n)) == x % pow256(n),
        pow256(n) > 0,
    decreases n,
{
    if n > 0 {
        lemma_be_bytes_value(x / 256, (n - 1) as nat);
        let s = be_bytes(x, n);
        assert(s.drop_last() == be_bytes(x / 256, (n - 1) as nat));
        assert(s.last() as nat == x % 256);
        lemma_mod_step((x / 256) as int, (x % 256) as int, pow256((n - 1) as nat) as int);
        assert(x == 256 * (x / 256) + x % 256);
    }
}

/// Law: an integer written big-endian into a field of 1, 2, 4 or 8 bytes
/// (two's complement) reads back as the same integer, when it fits the field.
pub proof fn law_int_bytes_round_trip(v: int, n: nat)
    requires
        n == 1 || n == 2 || n == 4 || n == 8,
        -(pow256(n) / 2) <= v < pow256(n) / 2,
        i64::MIN <= v <= i64::MAX,
    ensures
        be_bytes(twos_complement(v), n).len() == n,
        be_signed(be_bytes(twos_complement(v), n)) == v,
{
    lemma_be_bytes_value(twos_complement(v), n);
    reveal_with_fuel(pow256, 9);
    let p: int = pow256(n) as int;
    assert(p == 256 || p == 65536 || p == 4294967296 || p == 18446744073709551616);
    if v < 0 {
        let t: int = v + 18446744073709551616;
        assert((t % p) == v + p) by (nonlinear_arith)
            requires
                p == 256 || p == 65536 || p == 4294967296 || p == 18446744073709551616,
                -(p / 2) <= v < 0,
                t == v + 18446744073709551616,
        {
            assert(18446744073709551616int % p == 0);
            let k: int = 18446744073709551616int / p;
            assert(t == k * p + (v + p) - p);
            assert(t == (k - 1) * p + (v + p));
        }
    }
}

} // verus!
