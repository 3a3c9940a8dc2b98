use vstd::prelude::*;

verus! {

/// The reflected CRC-32 polynomial (IEEE 802.3).
pub const CRC32_POLYNOMIAL: u32 = 0xEDB8_8320;

/// One bit step of the reflected CRC-32 register: shift right, and fold in
/// the polynomial when the bit shifted out was set.
pub open spec fn crc_shift(crc: u32) -> u32 {
    if crc & 1 == 1 {
        (crc >> 1) ^ CRC32_POLYNOMIAL
    } else {
        crc >> 1
    }
}

/// `n` bit steps of the register.
pub open spec fn crc_shift_n(crc: u32, n: nat) -> u32
    decreases n,
{
    if n == 0 {
        crc
    } else {
        crc_shift_n(crc_shift(crc), (n - 1) as nat)
    }
}

/// The register after one more byte: the byte is xored into the low bits,
/// then eight bit steps follow.
pub open spec fn crc_byte(crc: u32, byte: u8) -> u32 {
    crc_shift_n(crc ^ (byte as u32), 8)
}

/// The register after all of `data`, starting from `init`.
pub open spec fn crc_run(init: u32, data: Seq<u8>) -> u32
    decreases data.len(),
{
    if data.len() == 0 {
        init
    } else {
        crc_byte(crc_run(init, data.drop_last()), data.last())
    }
}

/// The register after all of `data`, starting from all ones.
pub open spec fn crc_register(data: Seq<u8>) -> u32 {
    crc_run(0xFFFF_FFFFu32, data)
}

/// CRC-32 of `data`: the complement of the final register.
pub open spec fn crc32_spec(data: Seq<u8>) -> u32 {
    !crc_register(data)
}

/// The register step that the implementation computes without a branch:
/// the mask is all ones exactly when the low bit is set.
proof fn lemma_masked_shift(crc: u32, mask: u32)
    requires
        (crc & 1 == 1 ==> mask == 0xFFFF_FFFFu32),
        (crc & 1 != 1 ==> mask == 0u32),
    ensures
        (crc >> 1) ^ (CRC32_POLYNOMIAL & mask) == crc_shift(crc),
{
    if crc & 1 == 1 {
        assert((crc >> 1) ^ (0xEDB8_8320u32 & 0xFFFF_FFFFu32) == (crc >> 1) ^ 0xEDB8_8320u32)
            by (bit_vector);
    } else {
        assert((crc >> 1) ^ (0xEDB8_8320u32 & 0u32) == crc >> 1) by (bit_vector);
    }
}

/// CRC-32 (reflected, polynomial 0xEDB88320, initial value and final xor
/// all ones), computed bit by bit.
pub fn crc32(data: &[u8]) -> (crc: u32)
    ensures
        crc == crc32_spec(data@),
{
    let mut crc: u32 = 0xFFFF_FFFF;
    let mut i: usize = 0;
    while i < data.len()
        invariant
            i <= data.len(),
            crc == crc_register(data@.take(i as int)),
        decreases data.len() - i,
    {
        let byte = data[i];
        let ghost before = crc;
        crc = crc ^ (byte as u32);
        let mut j: usize = 0;
        while j < 8
            invariant
                j <= 8,
                crc_shift_n(crc, (8 - j) as nat) == crc_byte(before, byte),
            decreases 8 - j,
        {
            let low = crc & 1;
            assert(low == 0 || low == 1) by (bit_vector)
                requires
                    low == crc & 1,
            ;
            let mask = 0u32.wrapping_sub(low);
            proof {
                lemma_masked_shift(crc, mask);
            }
            crc = (crc >> 1) ^ (CRC32_POLYNOMIAL & mask);
            j = j + 1;
        }
        assert(data@.take(i + 1).drop_last() =~= data@.take(i as int));
        i = i + 1;
    }
    assert(data@.take(data.len() as int) =~= data@);
    !crc
}


/* Laws of CRC-32 */

/// The CRC-32 of no data is zero.
pub proof fn lemma_crc32_empty()
    ensures
        crc32_spec(Seq::empty()) == 0,
{
    assert(!0xFFFF_FFFFu32 == 0u32) by (bit_vector);
}

/// CRC-32 runs along the data: the CRC-32 of `data` followed by one more
/// byte is the previous CRC-32, uncomplemented, stepped over that byte and
/// complemented again, whatever the length of `data`.
pub proof fn lemma_crc32_append_byte(data: Seq<u8>, byte: u8)
    ensures
        crc32_spec(data.push(byte)) == !crc_byte(!crc32_spec(data), byte),
{
    assert(data.push(byte).drop_last() =~= data);
    let r = crc_register(data);
    assert(!!r == r) by (bit_vector);
}


proof fn lemma_shift_xor(u: u32, v: u32)
    ensures
        crc_shift(u ^ v) == crc_shift(u) ^ crc_shift(v),
{
    assert((if (u ^ v) & 1 == 1 { ((u ^ v) >> 1) ^ 0xEDB8_8320u32 } else { (u ^ v) >> 1 }) == (if u
        & 1 == 1 {
        (u >> 1) ^ 0xEDB8_8320u32
    } else {
        u >> 1
    }) ^ (if v & 1 == 1 {
        (v >> 1) ^ 0xEDB8_8320u32
    } else {
        v >> 1
    })) by (bit_vector);
}

proof fn lemma_shift_nonzero(c: u32)
    requires
        c != 0,
    ensures
        crc_shift(c) != 0,
{
    assert(c != 0 ==> (if c & 1 == 1 { (c >> 1) ^ 0xEDB8_8320u32 } else { c >> 1 }) != 0)
        by (bit_vector);
}

proof fn lemma_shift_n_xor(u: u32, v: u32, n: nat)
    ensures
        crc_shift_n(u ^ v, n) == crc_shift_n(u, n) ^ crc_shift_n(v, n),
    decreases n,
{
    if n > 0 {
        lemma_shift_xor(u, v);
        lemma_shift_n_xor(crc_shift(u), crc_shift(v), (n - 1) as nat);
    }
}

proof fn lemma_shift_n_nonzero(c: u32, n: nat)
    requires
        c != 0,
    ensures
        crc_shift_n(c, n) != 0,
    decreases n,
{
    if n > 0 {
        lemma_shift_nonzero(c);
        lemma_shift_n_nonzero(crc_shift(c), (n - 1) as nat);
    }
}

/// The register is affine: running three sequences of equal length from
/// three initial values and xoring the results is running their bytewise
/// xor from the xor of the initial values.
pub proof fn lemma_crc_run_xor3(
    ia: u32,
    ib: u32,
    ic: u32,
    a: Seq<u8>,
    b: Seq<u8>,
    c: Seq<u8>,
    x: Seq<u8>,
)
    requires
        a.len() == b.len() == c.len() == x.len(),
        forall|i: int| 0 <= i < x.len() ==> #[trigger] x[i] == a[i] ^ b[i] ^ c[i],
    ensures
        crc_run(ia ^ ib ^ ic, x) == crc_run(ia, a) ^ crc_run(ib, b) ^ crc_run(ic, c),
    decreases x.len(),
{
    if x.len() > 0 {
        lemma_crc_run_xor3(ia, ib, ic, a.drop_last(), b.drop_last(), c.drop_last(), x.drop_last());
        let ra = crc_run(ia, a.drop_last());
        let rb = crc_run(ib, b.drop_last());
        let rc = crc_run(ic, c.drop_last());
        let (al, bl, cl, xl) = (a.last(), b.last(), c.last(), x.last());
        assert(xl == al ^ bl ^ cl);
        assert((ra ^ rb ^ rc) ^ (xl as u32) == ((ra ^ (al as u32)) ^ (rb ^ (bl as u32))) ^ (rc ^ (
        cl as u32))) by (bit_vector)
            requires
                xl == al ^ bl ^ cl,
        ;
        lemma_shift_n_xor((ra ^ (al as u32)) ^ (rb ^ (bl as u32)), rc ^ (cl as u32), 8);
        lemma_shift_n_xor(ra ^ (al as u32), rb ^ (bl as u32), 8);
    }
}

/// CRC-32 is affine: for three inputs of equal length, the CRC-32 of their
/// bytewise xor is the xor of their CRC-32s.
pub proof fn lemma_crc32_xor3(a: Seq<u8>, b: Seq<u8>, c: Seq<u8>, x: Seq<u8>)
    requires
        a.len() == b.len() == c.len() == x.len(),
        forall|i: int| 0 <= i < x.len() ==> #[trigger] x[i] == a[i] ^ b[i] ^ c[i],
    ensures
        crc32_spec(x) == crc32_spec(a) ^ crc32_spec(b) ^ crc32_spec(c),
{
    let f = 0xFFFF_FFFFu32;
    lemma_crc_run_xor3(f, f, f, a, b, c, x);
    assert(f ^ f ^ f == f) by (bit_vector)
        requires
            f == 0xFFFF_FFFFu32,
    ;
    let (ra, rb, rc) = (crc_run(f, a), crc_run(f, b), crc_run(f, c));
    assert(!(ra ^ rb ^ rc) == !ra ^ !rb ^ !rc) by (bit_vector);
}

proof fn lemma_crc_run_zeros(data: Seq<u8>)
    requires
        forall|i: int| 0 <= i < data.len() ==> #[trigger] data[i] == 0,
    ensures
        crc_run(0, data) == 0,
    decreases data.len(),
{
    if data.len() > 0 {
        lemma_crc_run_zeros(data.drop_last());
        lemma_crc_shift_n_zero(8);
        assert(0u32 ^ (0u8 as u32) == 0u32) by (bit_vector);
    }
}

proof fn lemma_crc_shift_n_zero(n: nat)
    ensures
        crc_shift_n(0, n) == 0,
    decreases n,
{
    if n > 0 {
        assert((if 0u32 & 1 == 1 { (0u32 >> 1) ^ 0xEDB8_8320u32 } else { 0u32 >> 1 }) == 0u32)
            by (bit_vector);
        lemma_crc_shift_n_zero((n - 1) as nat);
    }
}

/// Running from zero over a sequence that is zero but for one set bit in
/// byte `k` leaves a register that is not zero.
proof fn lemma_crc_run_single_bit(e: Seq<u8>, k: int, j: u8, p: int)
    requires
        0 <= k < p <= e.len(),
        j < 8,
        e[k] == 1u8 << j,
        forall|i: int| 0 <= i < e.len() && i != k ==> #[trigger] e[i] == 0,
    ensures
        crc_run(0, e.take(p)) != 0,
    decreases p,
{
    let t = e.take(p);
    assert(t.drop_last() =~= e.take(p - 1));
    if p == k + 1 {
        lemma_crc_run_zeros(e.take(k));
        let bit = e[k];
        assert(0u32 ^ (bit as u32) != 0) by (bit_vector)
            requires
                bit == 1u8 << j,
                j < 8,
        ;
        lemma_shift_n_nonzero(0u32 ^ (bit as u32), 8);
    } else {
        lemma_crc_run_single_bit(e, k, j, p - 1);
        let r = crc_run(0, e.take(p - 1));
        assert(r ^ (0u8 as u32) == r) by (bit_vector);
        lemma_shift_n_nonzero(r, 8);
    }
}

/// CRC-32 detects every single-bit error: changing one bit of one byte
/// changes the CRC-32.
pub proof fn lemma_crc32_detects_single_bit_errors(a: Seq<u8>, b: Seq<u8>, k: int, j: u8)
    requires
        a.len() == b.len(),
        0 <= k < a.len(),
        j < 8,
        b[k] == a[k] ^ (1u8 << j),
        forall|i: int| 0 <= i < a.len() && i != k ==> #[trigger] b[i] == a[i],
    ensures
        crc32_spec(b) != crc32_spec(a),
{
    let n = a.len();
    let z = Seq::new(n, |i: int| 0u8);
    let e = Seq::new(n, |i: int| if i == k { 1u8 << j } else { 0u8 });
    let f = 0xFFFF_FFFFu32;
    // b = a ^ e ^ z
    assert forall|i: int| 0 <= i < n implies #[trigger] b[i] == a[i] ^ e[i] ^ z[i] by {
        let (ai, bi, ei) = (a[i], b[i], e[i]);
        if i == k {
            assert(bi == ai ^ ei ^ 0u8) by (bit_vector)
                requires
                    bi == ai ^ ei,
            ;
        } else {
            assert(bi == ai ^ 0u8 ^ 0u8) by (bit_vector)
                requires
                    bi == ai,
            ;
        }
    }
    lemma_crc32_xor3(a, e, z, b);
    // the register of e differs from that of z by a register run from zero
    assert forall|i: int| 0 <= i < n implies #[trigger] e[i] == z[i] ^ e[i] ^ z[i] by {
        let (ei, zi) = (e[i], z[i]);
        assert(ei == 0u8 ^ ei ^ 0u8) by (bit_vector);
    }
    lemma_crc_run_xor3(f, 0, 0, z, e, z, e);
    assert(f ^ 0u32 ^ 0u32 == f) by (bit_vector)
        requires
            f == 0xFFFF_FFFFu32,
    ;
    lemma_crc_run_zeros(z);
    lemma_crc_run_single_bit(e, k, j, n as int);
    assert(e.take(n as int) =~= e);
    let (re, rz, r0, ca) = (crc_run(f, e), crc_run(f, z), crc_run(0, e), crc32_spec(a));
    assert(re == rz ^ r0 ^ 0u32 && r0 != 0 ==> ca ^ !re ^ !rz != ca) by (bit_vector);
}

} // verus!
