use vstd::prelude::*;

use crate::error::DbError;

verus! {

/// 256 to the power `n`.
pub open spec fn pow256(n: nat) -> nat
    decreases n,
{
    if n == 0 {
        1
    } else {
        256 * pow256((n - 1) as nat)
    }
}

/// 128 to the power `n`.
pub open spec fn pow128(n: nat) -> nat
    decreases n,
{
    if n == 0 {
        1
    } else {
        128 * pow128((n - 1) as nat)
    }
}

/// Unsigned big-endian value of a byte sequence.
pub open spec fn be_uint(s: Seq<u8>) -> nat
    decreases s.len(),
{
    if s.len() == 0 {
        0
    } else {
        be_uint(s.drop_last()) * 256 + s.last() as nat
    }
}

/// Two's-complement big-endian value of a byte sequence.
pub open spec fn be_int(s: Seq<u8>) -> int {
    if s.len() > 0 && s[0] >= 128 {
        be_uint(s) - pow256(s.len())
    } else {
        be_uint(s) as int
    }
}

/// A 64-bit pattern read as a signed integer.
pub open spec fn to_signed(v: nat) -> int {
    if v < 0x8000_0000_0000_0000 {
        v as int
    } else {
        v - 0x1_0000_0000_0000_0000
    }
}

/// The low seven bits of each byte, most significant group first.
pub open spec fn groups7(s: Seq<u8>) -> nat
    decreases s.len(),
{
    if s.len() == 0 {
        0
    } else {
        groups7(s.drop_last()) * 128 + (s.last() % 128) as nat
    }
}

/// Length of the varint that starts `k` bytes after `pos`, counting those `k`
/// bytes, or `None` when it runs past the end of `s`.
pub open spec fn varint_len_from(s: Seq<u8>, pos: int, k: nat) -> Option<nat>
    decreases 9 - k,
{
    if k >= 9 || pos < 0 || pos + k >= s.len() {
        None
    } else if k == 8 || s[pos + k] < 128 {
        Some(k + 1)
    } else {
        varint_len_from(s, pos, k + 1)
    }
}

/// The unsigned value of the `n`-byte varint at `pos`: seven bits from each of
/// the first eight bytes, all eight bits of a ninth.
pub open spec fn varint_bits(s: Seq<u8>, pos: int, n: nat) -> nat {
    if n == 9 {
        groups7(s.subrange(pos, pos + 8)) * 256 + s[pos + 8] as nat
    } else {
        groups7(s.subrange(pos, pos + n))
    }
}

/// The varint at `pos`: its signed value and its length in bytes.
pub open spec fn varint(s: Seq<u8>, pos: int) -> Option<(i64, nat)> {
    match varint_len_from(s, pos, 0) {
        Some(n) => Some((to_signed(varint_bits(s, pos, n)) as i64, n)),
        None => None,
    }
}

proof fn lemma_pow256_bound(n: nat)
    requires
        n <= 8,
    ensures
        pow256(n) <= pow256(8),
        pow256(8) == 0x1_0000_0000_0000_0000,
    decreases 8 - n,
{
    reveal_with_fuel(pow256, 9);
    if n < 8 {
        lemma_pow256_bound(n + 1);
    }
}

/// The spans of two and four bytes.
pub proof fn lemma_pow256_small()
    ensures
        pow256(2) == 0x1_0000,
        pow256(4) == 0x1_0000_0000,
{
    reveal_with_fuel(pow256, 5);
}

proof fn lemma_pow128_bound(n: nat)
    requires
        n <= 8,
    ensures
        pow128(n) <= pow128(8),
        pow128(8) == 0x100_0000_0000_0000,
    decreases 8 - n,
{
    reveal_with_fuel(pow128, 9);
    if n < 8 {
        lemma_pow128_bound(n + 1);
    }
}

/// Reads the first `n` bytes of `buff` as an unsigned big-endian integer.
pub fn get_u64_from_size_n(buff: &[u8], n: usize) -> (r: u64)
    requires
        n <= 8,
        n <= buff@.len(),
    ensures
        r as nat == be_uint(buff@.subrange(0, n as int)),
        (r as nat) < pow256(n as nat),
{
    let mut my_num: u64 = 0;
    let mut i: usize = 0;
    while i < n
        invariant
            n <= 8,
            n <= buff@.len(),
            i <= n,
            my_num as nat == be_uint(buff@.subrange(0, i as int)),
            (my_num as nat) < pow256(i as nat),
        decreases n - i,
    {
        proof {
            assert(buff@.subrange(0, i + 1).drop_last() == buff@.subrange(0, i as int));
            lemma_pow256_bound((i + 1) as nat);
            assert(my_num * 256 + 255 < pow256((i + 1) as nat)) by (nonlinear_arith)
                requires
                    (my_num as nat) < pow256(i as nat),
                    pow256((i + 1) as nat) == 256 * pow256(i as nat),
            ;
        }
        my_num = my_num * 256 + buff[i] as u64;
        i = i + 1;
    }
    my_num
}

/// A 64-bit pattern read as a signed integer.
pub fn as_signed(v: u64) -> (r: i64)
    ensures
        r as int == to_signed(v as nat),
{
    if v < 0x8000_0000_0000_0000 {
        v as i64
    } else {
        ((v - 0x8000_0000_0000_0000) as i64) - 0x7fff_ffff_ffff_ffff - 1
    }
}

proof fn lemma_pow256_mono(a: nat, b: nat)
    requires
        a <= b,
    ensures
        pow256(a) <= pow256(b),
    decreases b - a,
{
    if a < b {
        lemma_pow256_mono(a, (b - 1) as nat);
        assert(pow256(b) == 256 * pow256((b - 1) as nat));
    }
}

/// Reads the first `n` bytes of `buff` as a two's-complement big-endian integer.
pub fn read_be_int(buff: &[u8], n: usize) -> (r: i64)
    requires
        1 <= n <= 8,
        n <= buff@.len(),
    ensures
        r as int == be_int(buff@.subrange(0, n as int)),
{
    let u = get_u64_from_size_n(buff, n);
    proof {
        reveal_with_fuel(pow256, 9);
        lemma_pow256_bound(n as nat);
    }
    proof {
        lemma_be_uint_lead(buff@, n as nat);
        let c = buff@[0] as nat;
        let p = pow256((n - 1) as nat);
        assert(pow256(n as nat) == 256 * p);
        if n == 8 {
            assert(c < 128 ==> (c + 1) * p <= 128 * p) by (nonlinear_arith);
            assert(c >= 128 ==> c * p >= 128 * p) by (nonlinear_arith);
        } else {
            assert(p <= pow256(7)) by {
                lemma_pow256_bound((n - 1) as nat);
                lemma_pow256_mono((n - 1) as nat, 7);
            }
            assert((c + 1) * p <= 256 * p) by (nonlinear_arith) requires c < 256;
        }
    }
    if buff[0] < 128 {
        u as i64
    } else if n == 8 {
        as_signed(u)
    } else {
        let full: i64 = if n == 1 {
            256
        } else if n == 2 {
            65536
        } else if n == 3 {
            16777216
        } else if n == 4 {
            4294967296
        } else if n == 5 {
            1099511627776
        } else if n == 6 {
            281474976710656
        } else {
            72057594037927936
        };
        (u as i64) - full
    }
}

/// The first byte of a big-endian number fixes its range.
proof fn lemma_be_uint_lead(s: Seq<u8>, n: nat)
    requires
        1 <= n <= s.len(),
    ensures
        be_uint(s.subrange(0, n as int)) >= s[0] as nat * pow256((n - 1) as nat),
        be_uint(s.subrange(0, n as int)) < (s[0] as nat + 1) * pow256((n - 1) as nat),
    decreases n,
{
    let t = s.subrange(0, n as int);
    if n == 1 {
        assert(t.drop_last().len() == 0);
        assert(be_uint(t.drop_last()) == 0);
        assert(be_uint(t) == be_uint(t.drop_last()) * 256 + t.last() as nat);
        assert(pow256(0) == 1);
    } else {
        lemma_be_uint_lead(s, (n - 1) as nat);
        assert(pow256((n - 1) as nat) == 256 * pow256((n - 2) as nat));
        assert(t.drop_last() == s.subrange(0, n - 1));
        let a = be_uint(s.subrange(0, n - 1));
        let p = pow256((n - 2) as nat);
        let c = s[0] as nat;
        let l = t.last() as nat;
        assert(a * 256 + l >= c * (256 * p) && a * 256 + l < (c + 1) * (256 * p)) by (nonlinear_arith)
            requires
                a >= c * p,
                a < (c + 1) * p,
                l < 256,
        ;
    }
}

/// Decodes the varint at `*current_offset` and moves the offset past it.
pub fn get_varint(data: &[u8], current_offset: &mut usize) -> (r: Result<i64, DbError>)
    ensures
        match varint(data@, *old(current_offset) as int) {
            Some((v, n)) => r == Ok::<i64, DbError>(v) && *final(current_offset) == *old(
                current_offset,
            ) + n,
            None => r == Err::<i64, DbError>(DbError::MalformedVarint) && *final(current_offset)
                == *old(current_offset),
        },
{
    let start = *current_offset;
    if start >= data.len() {
        return Err(DbError::MalformedVarint);
    }
    let mut out: u64 = 0;
    let mut k: usize = 0;
    assert(data@.subrange(start as int, start as int).len() == 0);
    loop
        invariant
            k <= 8,
            start == *old(current_offset),
            *current_offset == start,
            start + k <= data@.len(),
            out as nat == groups7(data@.subrange(start as int, start + k)),
            (out as nat) < pow128(k as nat),
            varint_len_from(data@, start as int, 0) == varint_len_from(data@, start as int, k as nat),
        decreases 8 - k,
    {
        if k >= data.len() - start {
            return Err(DbError::MalformedVarint);
        }
        let b = data[start + k];
        let ghost prev = data@.subrange(start as int, start + k);
        proof {
            lemma_pow128_bound(k as nat);
            assert(data@.subrange(start as int, start + k + 1).drop_last() == prev);
        }
        if k == 8 {
            assert(out * 256 + 255 < 0x1_0000_0000_0000_0000) by (nonlinear_arith)
                requires
                    (out as nat) < 0x100_0000_0000_0000,
            ;
            let v = out * 256 + b as u64;
            *current_offset = start + 9;
            return Ok(as_signed(v));
        }
        assert(out * 128 + 127 < pow128((k + 1) as nat)) by (nonlinear_arith)
            requires
                (out as nat) < pow128(k as nat),
                pow128((k + 1) as nat) == 128 * pow128(k as nat),
        ;
        proof {
            lemma_pow128_bound((k + 1) as nat);
        }
        if b < 128 {
            let v = out * 128 + b as u64;
            *current_offset = start + k + 1;
            return Ok(as_signed(v));
        }
        out = out * 128 + (b - 128) as u64;
        k = k + 1;
    }
}

/// The number of body bytes that serial type `t` takes (for the reserved
/// types 10 and 11 the type number itself).
pub open spec fn serial_size(t: int) -> int {
    if t == 5 {
        6
    } else if t == 6 || t == 7 {
        8
    } else if t == 8 || t == 9 {
        0
    } else if t < 12 {
        t
    } else if t % 2 == 0 {
        (t - 12) / 2
    } else {
        (t - 13) / 2
    }
}

/// The class of serial type `t`: `t` itself below 12, then 12 for blobs and 13
/// for text.
pub open spec fn serial_class(t: int) -> int {
    if t < 12 {
        t
    } else if t % 2 == 0 {
        12
    } else {
        13
    }
}

/// NULL, the constants 0 and 1, the empty blob and the empty text take no
/// body bytes; longer blobs and texts take `(t - 12) / 2` and `(t - 13) / 2`.
pub proof fn lemma_serial_sizes(t: int)
    ensures
        serial_size(0) == 0,
        serial_size(8) == 0,
        serial_size(9) == 0,
        serial_size(12) == 0,
        serial_size(13) == 0,
        t >= 12 && t % 2 == 0 ==> serial_size(t) == (t - 12) / 2,
        t >= 13 && t % 2 == 1 ==> serial_size(t) == (t - 13) / 2,
{
}

/// Body size of serial type `ctype`.
pub fn get_column_size(ctype: i64) -> (r: usize)
    requires
        ctype >= 0,
        serial_size(ctype as int) <= usize::MAX,
    ensures
        r as int == serial_size(ctype as int),
{
    if ctype < 12 {
        if ctype == 5 {
            6
        } else if ctype == 6 || ctype == 7 {
            8
        } else if ctype == 8 || ctype == 9 {
            0
        } else {
            ctype as usize
        }
    } else if ctype % 2 == 0 {
        ((ctype - 12) / 2) as usize
    } else {
        ((ctype - 13) / 2) as usize
    }
}

/// Class of serial type `ctype` (see `serial_class`).
pub fn get_column_type(ctype: i64) -> (r: u8)
    requires
        ctype >= 0,
    ensures
        r as int == serial_class(ctype as int),
{
    if ctype < 12 {
        ctype as u8
    } else if ctype % 2 == 0 {
        12
    } else {
        13
    }
}

/// `k` bytes with the high bit set, holding the low `7k` bits of `w`, most
/// significant group first.
pub open spec fn high_groups(w: nat, k: nat) -> Seq<u8>
    decreases k,
{
    if k == 0 {
        seq![]
    } else {
        high_groups(w / 128, (k - 1) as nat).push((128 + w % 128) as u8)
    }
}

/// How many seven-bit groups `v` needs (at least one).
pub open spec fn groups_needed(v: nat) -> nat
    decreases v,
{
    if v < 128 {
        1
    } else {
        1 + groups_needed(v / 128)
    }
}

/// The shortest varint of the 64-bit pattern `v`: seven-bit groups when they
/// fit in eight bytes, else eight groups and a last byte of eight bits.
pub open spec fn varint_encode(v: nat) -> Seq<u8> {
    if v < 0x100_0000_0000_0000 {
        high_groups(v / 128, (groups_needed(v) - 1) as nat).push((v % 128) as u8)
    } else {
        high_groups(v / 256, 8).push((v % 256) as u8)
    }
}

/// The 64-bit pattern of a signed integer.
pub open spec fn to_unsigned(n: i64) -> nat {
    if n >= 0 {
        n as nat
    } else {
        (n + 0x1_0000_0000_0000_0000) as nat
    }
}

proof fn lemma_high_groups(w: nat, k: nat)
    ensures
        high_groups(w, k).len() == k,
        forall|j: int| 0 <= j < k ==> #[trigger] high_groups(w, k)[j] >= 128,
        groups7(high_groups(w, k)) == w % pow128(k),
    decreases k,
{
    if k > 0 {
        let q = w / 128;
        let r = w % 128;
        lemma_high_groups(q, (k - 1) as nat);
        let hg = high_groups(w, k);
        assert(hg.drop_last() =~= high_groups(q, (k - 1) as nat));
        let p = pow128((k - 1) as nat);
        assert(pow128(k) == 128 * p);
        assert(p > 0) by {
            lemma_pow128_pos((k - 1) as nat);
        }
        let a = q / p;
        let b = q % p;
        vstd::arithmetic::div_mod::lemma_fundamental_div_mod(q as int, p as int);
        vstd::arithmetic::div_mod::lemma_mod_pos_bound(q as int, p as int);
        assert(w == a * (128 * p) + (128 * b + r) && 0 <= 128 * b + r < 128 * p) by (nonlinear_arith)
            requires
                w == 128 * q + r,
                q == p * a + b,
                0 <= r < 128,
                0 <= b < p,
        ;
        vstd::arithmetic::div_mod::lemma_fundamental_div_mod_converse(w as int, (128 * p) as int, a as int, (128 * b + r) as int);
        assert(groups7(hg) == groups7(hg.drop_last()) * 128 + (hg.last() % 128) as nat);
    }
}

proof fn lemma_pow128_pos(k: nat)
    ensures
        pow128(k) > 0,
    decreases k,
{
    if k > 0 {
        lemma_pow128_pos((k - 1) as nat);
    }
}

proof fn lemma_groups_needed(v: nat, m: nat)
    requires
        m >= 1,
        v < pow128(m),
    ensures
        groups_needed(v) <= m,
        v < pow128(groups_needed(v)),
    decreases v,
{
    reveal_with_fuel(pow128, 2);
    if v >= 128 {
        assert(m >= 2) by {
            if m == 1 {
                assert(pow128(1) == 128);
            }
        }
        let pm = pow128((m - 1) as nat);
        assert(v / 128 < pm) by (nonlinear_arith)
            requires
                v < 128 * pm,
        ;
        lemma_groups_needed(v / 128, (m - 1) as nat);
        let pg = pow128(groups_needed(v / 128));
        assert(v < 128 * pg) by (nonlinear_arith)
            requires
                v / 128 < pg,
        ;
    }
}

/// Bytes `k`, ... of `s` from 0 carry the high bit up to `n - 1`, whose byte
/// ends the varint.
proof fn lemma_len_from(s: Seq<u8>, n: nat, k: nat)
    requires
        1 <= n <= 9,
        n <= s.len(),
        k < n,
        forall|j: int| 0 <= j < n - 1 ==> s[j] >= 128,
        n == 9 || s[n - 1] < 128,
    ensures
        varint_len_from(s, 0, k) == Some(n),
    decreases n - k,
{
    if k < n - 1 {
        lemma_len_from(s, n, k + 1);
    }
}

/// Decoding the shortest varint of a signed 64-bit integer gives it back,
/// consuming the whole encoding.
pub proof fn lemma_varint_round_trip(n: i64)
    ensures
        varint(varint_encode(to_unsigned(n)), 0) == Some((n, varint_encode(to_unsigned(n)).len())),
        1 <= varint_encode(to_unsigned(n)).len() <= 9,
{
    let v = to_unsigned(n);
    let e = varint_encode(v);
    lemma_pow128_bound(8);
    if v < 0x100_0000_0000_0000 {
        lemma_groups_needed(v, 8);
        let g = groups_needed(v);
        let w = v / 128;
        lemma_high_groups(w, (g - 1) as nat);
        let hg = high_groups(w, (g - 1) as nat);
        assert(e.len() == g);
        lemma_len_from(e, g, 0);
        assert(e.subrange(0, g as int) =~= e);
        assert(e.drop_last() =~= hg);
        let p = pow128((g - 1) as nat);
        assert(pow128(g) == 128 * p);
        assert(w < p) by (nonlinear_arith)
            requires
                v < 128 * p,
                w == v / 128,
        ;
        vstd::arithmetic::div_mod::lemma_small_mod(w, p);
        assert(groups7(e) == groups7(hg) * 128 + (e.last() % 128) as nat);
        assert(groups7(e) == v);
    } else {
        let w = v / 256;
        lemma_high_groups(w, 8);
        let hg = high_groups(w, 8);
        lemma_len_from(e, 9, 0);
        assert(e.subrange(0, 8) =~= hg);
        assert(w < 0x100_0000_0000_0000);
        vstd::arithmetic::div_mod::lemma_small_mod(w, pow128(8));
    }
}

} // verus!
