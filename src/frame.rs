//! Framing of a bit stream with a trailing 32-bit byte-sum checksum.
//!
//! The checksum is an approximate-integrity check, not a cryptographic one:
//! the payload is padded with zero bits up to a multiple of 8, read as 8-bit
//! groups (least significant bit first), the groups are summed modulo 2^32,
//! and the sum is appended least significant bit first. The frame is the
//! padded payload followed by that field. The pad length follows from the
//! payload length, which both ends of the link agree on beforehand; the
//! receiver strips the pad together with the field.
use vstd::prelude::*;
use vstd::arithmetic::div_mod::*;
use vstd::arithmetic::mul::*;

verus! {

/// Number of bits in the checksum field that closes every frame.
pub const CHECKSUM_BITS: usize = 32;

/// Shortest frame that is ever accepted: one byte of payload and the checksum.
pub const MIN_FRAME_BITS: usize = 40;

/// The checksum is kept modulo this value.
pub const CHECKSUM_MODULUS: u64 = 0x1_0000_0000;

/// The numeric value of one transmitted bit: any non-zero entry counts as a one.
pub open spec fn bit_val(b: u32) -> nat {
    if b == 0 {
        0
    } else {
        1
    }
}

/// The bit with the opposite value.
pub open spec fn flip(b: u32) -> u32 {
    if b == 0 {
        1
    } else {
        0
    }
}

pub open spec fn two_to(k: nat) -> nat
    decreases k,
{
    if k == 0 {
        1
    } else {
        2 * two_to((k - 1) as nat)
    }
}

/// Sum of the 8-bit groups of `s`, each group read least significant bit first.
pub open spec fn byte_sum(s: Seq<u32>) -> nat
    decreases s.len(),
{
    if s.len() == 0 {
        0
    } else {
        byte_sum(s.drop_last()) + bit_val(s.last()) * two_to(((s.len() - 1) % 8) as nat)
    }
}

/// The 32-bit checksum of a payload.
pub open spec fn checksum_of(s: Seq<u32>) -> nat {
    byte_sum(s) % (CHECKSUM_MODULUS as nat)
}

/// The lowest `n` bits of `v`, least significant first.
pub open spec fn to_bits(v: nat, n: nat) -> Seq<u32>
    decreases n,
{
    if n == 0 {
        Seq::empty()
    } else {
        seq![(v % 2) as u32] + to_bits(v / 2, (n - 1) as nat)
    }
}

/// The number whose bits, least significant first, are `s`.
pub open spec fn from_bits(s: Seq<u32>) -> nat
    decreases s.len(),
{
    if s.len() == 0 {
        0
    } else {
        bit_val(s[0]) + 2 * from_bits(s.drop_first())
    }
}

/// How many zero bits bring a payload of `n` bits up to a multiple of 8.
pub open spec fn pad_of(n: nat) -> nat {
    ((8 - n % 8) % 8) as nat
}

/// `k` zero bits.
pub open spec fn zeros(k: nat) -> Seq<u32> {
    Seq::new(k, |i: int| 0u32)
}

/// A payload padded with zero bits to a multiple of 8.
pub open spec fn padded(s: Seq<u32>) -> Seq<u32> {
    s + zeros(pad_of(s.len()))
}

/// A padded payload followed by its checksum field.
pub open spec fn framed(s: Seq<u32>) -> Seq<u32> {
    padded(s) + to_bits(checksum_of(s), CHECKSUM_BITS as nat)
}

/// A frame without its checksum field and the last `pad` bits before it.
pub open spec fn unframed(f: Seq<u32>, pad: nat) -> Seq<u32> {
    f.take(f.len() - CHECKSUM_BITS - pad)
}

/// A fidelity score, the fraction `num / den`.
#[derive(Clone, Copy, Debug, PartialEq, Eq, Structural)]
pub struct Fidelity {
    pub num: u64,
    pub den: u64,
}

impl Fidelity {
    /// True when the score is exactly one.
    pub fn is_full(&self) -> (r: bool)
        ensures
            r == (self.num == self.den),
    {
        self.num == self.den
    }
}

/// The acceptance threshold `num / den`: a frame is valid when its fidelity exceeds it.
#[derive(Clone, Copy, Debug, PartialEq, Eq, Structural)]
pub struct Threshold {
    pub num: u64,
    pub den: u64,
}

impl Threshold {
    /// A threshold strictly between zero and one.
    pub open spec fn wf(&self) -> bool {
        0 < self.num < self.den
    }

    /// The threshold of 0.995.
    pub fn standard() -> (r: Threshold)
        ensures
            r.wf(),
            r.num == 995 && r.den == 1000,
    {
        Threshold { num: 995, den: 1000 }
    }
}

/// What `validate` reports on a received frame.
#[derive(Clone, Copy, Debug, PartialEq, Eq, Structural)]
pub struct Validation {
    pub is_valid: bool,
    pub fidelity: Fidelity,
}

/// Fidelity of a recomputed sum against a received checksum:
/// one where they agree, else the smaller over the larger.
pub open spec fn fidelity_of(sum: nat, chk: nat) -> Fidelity {
    if sum == chk {
        Fidelity { num: 1, den: 1 }
    } else if sum < chk {
        Fidelity { num: sum as u64, den: chk as u64 }
    } else {
        Fidelity { num: chk as u64, den: sum as u64 }
    }
}

/// Whether a fidelity exceeds a threshold.
pub open spec fn exceeds(f: Fidelity, th: Threshold) -> bool {
    f.num * th.den > th.num * f.den
}

/// The payload of a frame: everything but the checksum field.
pub open spec fn payload_of(f: Seq<u32>) -> Seq<u32> {
    f.take(f.len() - CHECKSUM_BITS)
}

/// The checksum field of a frame: its last 32 bits.
pub open spec fn field_of(f: Seq<u32>) -> Seq<u32> {
    f.skip(f.len() - CHECKSUM_BITS)
}

/// What a frame validates to.
pub open spec fn validation_of(f: Seq<u32>, th: Threshold) -> Validation {
    if f.len() < MIN_FRAME_BITS {
        Validation { is_valid: false, fidelity: Fidelity { num: 0, den: 1 } }
    } else {
        let fid = fidelity_of(checksum_of(payload_of(f)), from_bits(field_of(f)));
        Validation { is_valid: exceeds(fid, th), fidelity: fid }
    }
}

proof fn lemma_from_bits_bound(s: Seq<u32>)
    ensures
        from_bits(s) < two_to(s.len()),
    decreases s.len(),
{
    if s.len() > 0 {
        lemma_from_bits_bound(s.drop_first());
    }
}

proof fn lemma_from_to_bits(v: nat, n: nat)
    ensures
        from_bits(to_bits(v, n)) == v % two_to(n),
        to_bits(v, n).len() == n,
    decreases n,
{
    if n > 0 {
        let t = to_bits(v, n);
        lemma_from_to_bits(v / 2, (n - 1) as nat);
        assert(t.drop_first() =~= to_bits(v / 2, (n - 1) as nat));
        lemma_two_to_pos((n - 1) as nat);
        lemma_mod_breakdown(v as int, 2, two_to((n - 1) as nat) as int);
        assert(bit_val(t[0]) == v % 2);
    } else {
        assert(v % 1 == 0);
    }
}

proof fn lemma_two_to_pos(k: nat)
    ensures
        two_to(k) > 0,
    decreases k,
{
    if k > 0 {
        lemma_two_to_pos((k - 1) as nat);
    }
}

proof fn lemma_two_to_values()
    ensures
        two_to(7) == 128,
        two_to(31) == 0x8000_0000,
        two_to(32) == CHECKSUM_MODULUS,
{
    reveal_with_fuel(two_to, 33);
}

proof fn lemma_byte_sum_step(s: Seq<u32>, i: int)
    requires
        0 <= i < s.len(),
    ensures
        byte_sum(s.take(i + 1)) == byte_sum(s.take(i)) + bit_val(s[i]) * two_to((i % 8) as nat),
{
    assert(s.take(i + 1).drop_last() =~= s.take(i));
}

/// The checksum of the first `n` bits of `bits`.
fn checksum_prefix(bits: &Vec<u32>, n: usize) -> (r: u64)
    requires
        n <= bits@.len(),
    ensures
        r == checksum_of(bits@.take(n as int)),
        r < CHECKSUM_MODULUS,
{
    let mut sum: u64 = 0;
    let mut weight: u64 = 1;
    let mut i: usize = 0;
    while i < n
        invariant
            n <= bits@.len(),
            i <= n,
            sum == checksum_of(bits@.take(i as int)),
            sum < CHECKSUM_MODULUS,
            weight == two_to((i % 8) as nat),
            weight <= 128,
        decreases n - i,
    {
        let b: u64 = if bits[i] == 0 { 0 } else { 1 };
        proof {
            lemma_byte_sum_step(bits@, i as int);
            let prev = byte_sum(bits@.take(i as int));
            let add = bit_val(bits@[i as int]) * two_to((i % 8) as nat);
            lemma_add_mod_noop(prev as int, add as int, CHECKSUM_MODULUS as int);
            lemma_small_mod(add, CHECKSUM_MODULUS as nat);
            lemma_small_mod(sum as nat, CHECKSUM_MODULUS as nat);
        }
        sum = (sum + b * weight) % CHECKSUM_MODULUS;
        if i % 8 == 7 {
            weight = 1;
        } else {
            proof {
                assert(((i + 1) % 8) as nat == (i % 8) as nat + 1);
            }
            weight = weight * 2;
        }
        i = i + 1;
        proof {
            if i % 8 == 0 {
                assert(two_to(0) == 1);
            }
            lemma_two_to_values();
            if (i % 8) as nat <= 7 {
                lemma_two_to_le((i % 8) as nat, 7);
            }
        }
    }
    sum
}

proof fn lemma_two_to_le(a: nat, b: nat)
    requires
        a <= b,
    ensures
        two_to(a) <= two_to(b),
    decreases b,
{
    if a < b {
        lemma_two_to_le(a, (b - 1) as nat);
    }
}

/// Appends to `bits` the checksum field of its payload.
pub fn add_checksum(bits: &Vec<u32>) -> (r: Vec<u32>)
    ensures
        r@ == framed(bits@),
{
    let sum = checksum_prefix(bits, bits.len());
    assert(bits@.take(bits@.len() as int) =~= bits@);
    let mut out: Vec<u32> = bits.clone();
    let pad = pad_len(bits.len());
    let mut z: usize = 0;
    while z < pad
        invariant
            z <= pad,
            pad == pad_of(bits@.len()),
            out@ == bits@ + zeros(z as nat),
        decreases pad - z,
    {
        out.push(0);
        z = z + 1;
        assert(out@ =~= bits@ + zeros(z as nat));
    }
    assert(out@ == padded(bits@));
    let mut cur: u64 = sum;
    let mut k: usize = 0;
    while k < CHECKSUM_BITS
        invariant
            k <= CHECKSUM_BITS,
            out@ + to_bits(cur as nat, (CHECKSUM_BITS - k) as nat) == framed(bits@),
        decreases CHECKSUM_BITS - k,
    {
        let ghost before = out@;
        out.push((cur % 2) as u32);
        proof {
            let rest = to_bits(cur as nat / 2, (CHECKSUM_BITS - k - 1) as nat);
            assert(to_bits(cur as nat, (CHECKSUM_BITS - k) as nat) == seq![(cur % 2) as u32]
                + rest);
            assert(before + (seq![(cur % 2) as u32] + rest) =~= out@ + rest);
        }
        cur = cur / 2;
        k = k + 1;
    }
    assert(out@ + to_bits(cur as nat, 0) =~= out@);
    out
}

/// The number whose bits, least significant first, are the last 32 of `f`.
fn field_value(f: &Vec<u32>) -> (r: u64)
    requires
        f@.len() >= CHECKSUM_BITS,
    ensures
        r == from_bits(field_of(f@)),
{
    let n = f.len();
    let mut acc: u64 = 0;
    let mut j: usize = n;
    while j > n - CHECKSUM_BITS
        invariant
            n == f@.len(),
            n >= CHECKSUM_BITS,
            n - CHECKSUM_BITS <= j <= n,
            acc == from_bits(f@.subrange(j as int, n as int)),
        decreases j,
    {
        j = j - 1;
        let b: u64 = if f[j] == 0 { 0 } else { 1 };
        proof {
            let s = f@.subrange(j as int, n as int);
            assert(s.drop_first() =~= f@.subrange(j + 1, n as int));
            lemma_from_bits_bound(f@.subrange(j + 1, n as int));
            lemma_two_to_le((n - j - 1) as nat, 31);
            lemma_two_to_values();
        }
        acc = b + 2 * acc;
    }
    assert(f@.subrange((n - CHECKSUM_BITS) as int, n as int) =~= field_of(f@));
    acc
}

/// Checks a received frame against its checksum field.
///
/// A frame shorter than 40 bits is invalid with fidelity zero. Otherwise the
/// fidelity compares the recomputed sum with the received field, and the frame
/// is valid when that fidelity exceeds the threshold.
pub fn validate(f: &Vec<u32>, th: &Threshold) -> (r: Validation)
    ensures
        r == validation_of(f@, *th),
        f@.len() < MIN_FRAME_BITS ==> !r.is_valid,
{
    if f.len() < MIN_FRAME_BITS {
        return Validation { is_valid: false, fidelity: Fidelity { num: 0, den: 1 } };
    }
    let sum = checksum_prefix(f, f.len() - CHECKSUM_BITS);
    let chk = field_value(f);
    proof {
        lemma_from_bits_bound(field_of(f@));
        lemma_two_to_values();
    }
    let fid = if sum == chk {
        Fidelity { num: 1, den: 1 }
    } else if sum < chk {
        Fidelity { num: sum, den: chk }
    } else {
        Fidelity { num: chk, den: sum }
    };
    proof {
        let m = u64::MAX as int;
        lemma_mul_upper_bound(fid.num as int, m, th.den as int, m);
        lemma_mul_upper_bound(th.num as int, m, fid.den as int, m);
        assert(m * m <= u128::MAX) by (nonlinear_arith)
            requires
                m == u64::MAX as int,
        ;
    }
    let is_valid = (fid.num as u128) * (th.den as u128) > (th.num as u128) * (fid.den as u128);
    Validation { is_valid, fidelity: fid }
}

/// How many zero bits pad a payload of `n` bits to a multiple of 8.
pub fn pad_len(n: usize) -> (r: usize)
    ensures
        r == pad_of(n as nat),
        r < 8,
{
    (8 - n % 8) % 8
}

/// The payload of a frame: the checksum field and the `pad` bits before it removed.
pub fn strip_checksum(f: &Vec<u32>, pad: usize) -> (r: Vec<u32>)
    requires
        f@.len() >= CHECKSUM_BITS + pad,
    ensures
        r@ == unframed(f@, pad as nat),
{
    let n = f.len() - CHECKSUM_BITS - pad;
    let mut out: Vec<u32> = Vec::new();
    let mut i: usize = 0;
    while i < n
        invariant
            n == f@.len() - CHECKSUM_BITS - pad,
            i <= n,
            out@ == f@.take(i as int),
        decreases n - i,
    {
        out.push(f[i]);
        i = i + 1;
        assert(out@ =~= f@.take(i as int));
    }
    out
}

proof fn lemma_byte_sum_update(s: Seq<u32>, i: int, x: u32)
    requires
        0 <= i < s.len(),
    ensures
        byte_sum(s.update(i, x)) + bit_val(s[i]) * two_to((i % 8) as nat) == byte_sum(s) + bit_val(
            x,
        ) * two_to((i % 8) as nat),
    decreases s.len(),
{
    let u = s.update(i, x);
    if i == s.len() - 1 {
        assert(u.drop_last() =~= s.drop_last());
    } else {
        lemma_byte_sum_update(s.drop_last(), i, x);
        assert(u.drop_last() =~= s.drop_last().update(i, x));
    }
}

proof fn lemma_mod_shift_differs(a: int, d: int, m: int)
    requires
        0 <= a,
        0 < d < m,
    ensures
        (a + d) % m != a % m,
{
    lemma_fundamental_div_mod(a, m);
    lemma_fundamental_div_mod(a + d, m);
    if (a + d) % m == a % m {
        let k = (a + d) / m - a / m;
        assert(d == m * k) by (nonlinear_arith)
            requires
                a == m * (a / m) + a % m,
                a + d == m * ((a + d) / m) + (a + d) % m,
                (a + d) % m == a % m,
                k == (a + d) / m - a / m,
        ;
        assert(false) by (nonlinear_arith)
            requires
                d == m * k,
                0 < d < m,
        ;
    }
}

proof fn lemma_byte_sum_zeros(s: Seq<u32>, k: nat)
    ensures
        byte_sum(s + zeros(k)) == byte_sum(s),
    decreases k,
{
    if k == 0 {
        assert(s + zeros(0) =~= s);
    } else {
        let t = s + zeros(k);
        lemma_byte_sum_zeros(s, (k - 1) as nat);
        assert(t.drop_last() =~= s + zeros((k - 1) as nat));
        let w = two_to(((t.len() - 1) % 8) as nat);
        assert(bit_val(t.last()) * w == 0) by (nonlinear_arith)
            requires
                bit_val(t.last()) == 0,
        ;
    }
}

proof fn lemma_padded(s: Seq<u32>)
    ensures
        checksum_of(padded(s)) == checksum_of(s),
        padded(s).len() % 8 == 0,
        s.len() <= padded(s).len() < s.len() + 8,
        s.len() > 0 ==> padded(s).len() >= 8,
{
    lemma_byte_sum_zeros(s, pad_of(s.len()));
}

/// Stripping the checksum field and the pad from a framed payload gives the
/// payload back.
pub proof fn lemma_unframe_framed(bits: Seq<u32>)
    ensures
        unframed(framed(bits), pad_of(bits.len())) == bits,
{
    lemma_from_to_bits(checksum_of(bits), CHECKSUM_BITS as nat);
    assert(unframed(framed(bits), pad_of(bits.len())) =~= bits);
}

/// Framing a non-empty payload and validating the frame as it was sent gives
/// a valid frame whose fidelity is exactly one.
pub proof fn lemma_framed_validates(bits: Seq<u32>, th: Threshold)
    requires
        bits.len() >= 1,
        th.wf(),
    ensures
        validation_of(framed(bits), th) == (Validation {
            is_valid: true,
            fidelity: Fidelity { num: 1, den: 1 },
        }),
{
    let f = framed(bits);
    lemma_from_to_bits(checksum_of(bits), CHECKSUM_BITS as nat);
    lemma_padded(bits);
    assert(payload_of(f) =~= padded(bits));
    assert(field_of(f) =~= to_bits(checksum_of(bits), CHECKSUM_BITS as nat));
    lemma_two_to_values();
    lemma_small_mod(checksum_of(bits), two_to(32));
}

/// Flipping any one payload bit of a framed payload leaves a fidelity below one.
pub proof fn lemma_flipped_bit_lowers_fidelity(bits: Seq<u32>, i: int, th: Threshold)
    requires
        0 <= i < bits.len(),
    ensures
        validation_of(framed(bits).update(i, flip(bits[i])), th).fidelity.num < validation_of(
            framed(bits).update(i, flip(bits[i])),
            th,
        ).fidelity.den,
{
    let f = framed(bits);
    let g = f.update(i, flip(bits[i]));
    let b2 = bits.update(i, flip(bits[i]));
    lemma_from_to_bits(checksum_of(bits), CHECKSUM_BITS as nat);
    if g.len() >= MIN_FRAME_BITS {
        lemma_padded(b2);
        assert(payload_of(g) =~= padded(b2));
        assert(field_of(g) =~= to_bits(checksum_of(bits), CHECKSUM_BITS as nat));
        lemma_two_to_values();
        lemma_small_mod(checksum_of(bits), two_to(32));
        lemma_byte_sum_update(bits, i, flip(bits[i]));
        let w = two_to((i % 8) as nat);
        lemma_two_to_pos((i % 8) as nat);
        lemma_two_to_le((i % 8) as nat, 7);
        let m = CHECKSUM_MODULUS as int;
        if bits[i] == 0 {
            assert(byte_sum(b2) == byte_sum(bits) + w);
            lemma_mod_shift_differs(byte_sum(bits) as int, w as int, m);
        } else {
            assert(bit_val(flip(bits[i])) * w == 0) by (nonlinear_arith)
                requires
                    bit_val(flip(bits[i])) == 0,
            ;
            assert(bit_val(bits[i]) * w == w) by (nonlinear_arith)
                requires
                    bit_val(bits[i]) == 1,
            ;
            assert(byte_sum(bits) == byte_sum(b2) + w);
            lemma_mod_shift_differs(byte_sum(b2) as int, w as int, m);
        }
        assert(checksum_of(b2) != checksum_of(bits));
        assert(checksum_of(payload_of(g)) == checksum_of(b2));
    }
}

} // verus!
