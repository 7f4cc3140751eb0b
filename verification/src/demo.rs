//! The demo traffic tool's computing core: its deterministic random stream,
//! value-size ranges and their parsing, the per-database write shape, key
//! and value generation, and the write decisions of the seeding and churn
//! loops. Opening databases, writing, sleeping and printing happen around
//! these functions.

use vstd::prelude::*;
use vstd::arithmetic::power2::{pow2, lemma_pow2_unfold, lemma_pow2_pos, lemma_pow2_adds, lemma2_to64};
use vstd::arithmetic::div_mod::{lemma_mod_mod, lemma_mul_mod_noop, lemma_fundamental_div_mod,
    lemma_mod_multiples_basic, lemma_mod_equivalence};
use vstd::string::StringSliceAdditionalSpecFns;
use crate::text::{dec, pad_zeros, push_dec_padded, push_str, string_from, chars_of, is_digit, digits_value};

verus! {

/// Multiplier of the demo's linear congruential generator.
pub const LCG_MUL: u64 = 6364136223846793005;

/// Increment of the demo's linear congruential generator.
pub const LCG_INC: u64 = 1442695040888963407;

/// The generator state after one step.
#[verifier::opaque]
pub open spec fn lcg_step(s: u64) -> u64 {
    s.wrapping_mul(LCG_MUL).wrapping_add(LCG_INC)
}

/// The value drawn by the step from state `s`.
pub open spec fn lcg_out(s: u64) -> u64 {
    lcg_step(s) >> 16
}

/// The generator state after `n` steps from `s`.
pub open spec fn lcg_steps(s: u64, n: nat) -> u64
    decreases n,
{
    if n == 0 {
        s
    } else {
        lcg_steps(lcg_step(s), (n - 1) as nat)
    }
}

/// Deterministic pseudo-random stream, so runs are reproducible.
pub struct Lcg(pub u64);

impl Lcg {
    pub fn next(&mut self) -> (r: u64)
        ensures
            final(self).0 == lcg_step(old(self).0),
            r == lcg_out(old(self).0),
    {
        proof {
            reveal(lcg_step);
        }
        self.0 = self.0.wrapping_mul(LCG_MUL).wrapping_add(LCG_INC);
        self.0 >> 16
    }
}

/// Inclusive byte-size range, parsed from "512" or "4KiB..64KiB".
#[derive(Clone, Copy, Debug, PartialEq, Eq, Structural)]
pub struct ByteRange {
    pub min: u64,
    pub max: u64,
}

impl ByteRange {
    /// The size drawn from a generator value `r`.
    pub open spec fn pick(self, r: u64) -> int {
        self.min + (r as int) % (self.max - self.min + 1)
    }

    /// A size in the range, drawn from the next value of `rng`.
    pub fn sample(&self, rng: &mut Lcg) -> (r: usize)
        requires
            self.min <= self.max <= usize::MAX,
            self.max - self.min + 1 <= u64::MAX,
        ensures
            final(rng).0 == lcg_step(old(rng).0),
            r == self.pick(lcg_out(old(rng).0)),
            self.min <= r <= self.max,
    {
        let x = rng.next();
        (self.min + x % (self.max - self.min + 1)) as usize
    }
}

/// Demo value sizes: 64 + r % 512 bytes.
pub const DEMO_VALUE_MIN: u64 = 64;

pub const DEMO_VALUE_MAX: u64 = 575;

/// Bulk-seeding value sizes: 4KiB..64KiB.
pub const BULK_VALUE_MIN: u64 = 4096;

pub const BULK_VALUE_MAX: u64 = 65536;

pub open spec fn demo_range() -> ByteRange {
    ByteRange { min: DEMO_VALUE_MIN, max: DEMO_VALUE_MAX }
}

pub open spec fn bulk_range() -> ByteRange {
    ByteRange { min: BULK_VALUE_MIN, max: BULK_VALUE_MAX }
}

/// The demo value sizes.
pub fn demo_values() -> (r: ByteRange)
    ensures
        r == demo_range(),
{
    ByteRange { min: DEMO_VALUE_MIN, max: DEMO_VALUE_MAX }
}

/// The bulk-seeding value sizes.
pub fn bulk_values() -> (r: ByteRange)
    ensures
        r == bulk_range(),
{
    ByteRange { min: BULK_VALUE_MIN, max: BULK_VALUE_MAX }
}

pub const DEMO_SST_BYTES: u64 = 131072;

pub const BULK_SST_BYTES: u64 = 33554432;

/// The smallest key-scatter domain: 2^26 ids.
pub const MIN_SCATTER_DOMAIN: u64 = 67108864;

/// Odd multiplier of the insert scatter.
pub const SCATTER_MUL: u64 = 0x9E37_79B1;

/// Traffic inserts scatter across a power-of-two key domain via a
/// multiplicative bijection (odd constant, power-of-two modulus) instead of
/// appending ever-increasing ids, so newer SSTs do not always cover higher
/// key ranges. The bijection keeps inserts collision-free while letting
/// updates re-derive any existing key from its insertion index.
pub fn scatter(i: u64, mask: u64) -> (r: u64)
    ensures
        r == i.wrapping_mul(SCATTER_MUL) & mask,
{
    i.wrapping_mul(SCATTER_MUL) & mask
}

/// FNV-1a over `bytes`.
pub open spec fn fnv1a(bytes: Seq<u8>) -> u64
    decreases bytes.len(),
{
    if bytes.len() == 0 {
        0xcbf29ce484222325u64
    } else {
        (fnv1a(bytes.drop_last()) ^ (bytes.last() as u64)).wrapping_mul(0x100000001b3u64)
    }
}

/// Segment count for a database named by `name_bytes`: the explicit
/// choice, or a stable pseudo-random one from the name (about half
/// unsegmented, the rest 2 to 6 segments).
pub open spec fn segments_for(explicit: Option<usize>, name_bytes: Seq<u8>) -> usize {
    match explicit {
        Some(n) => n,
        None => {
            let h = fnv1a(name_bytes);
            if h % 2 == 0 {
                0
            } else {
                (2 + (h >> 8u64) % 5) as usize
            }
        },
    }
}

/// Position after the first '/' of `bytes`: the segment prefix of a key.
pub open spec fn slash_prefix(bytes: Seq<u8>) -> Option<usize> {
    if exists|i: int| 0 <= i < bytes.len() && bytes[i] == 47u8 {
        let i = choose|i: int|
            0 <= i < bytes.len() && bytes[i] == 47u8 && forall|j: int| 0 <= j < i ==> bytes[j] != 47u8;
        Some((i + 1) as usize)
    } else {
        None
    }
}

/// Segments keys at the first '/': "t03/user:00000042" has the segment
/// "t03/"; keys without a '/' have no segment.
pub fn first_slash_prefix_len(bytes: &[u8]) -> (r: Option<usize>)
    ensures
        r == slash_prefix(bytes@),
{
    let mut i: usize = 0;
    while i < bytes.len()
        invariant
            i <= bytes@.len(),
            forall|j: int| 0 <= j < i ==> bytes@[j] != 47u8,
        decreases bytes@.len() - i,
    {
        if bytes[i] == 47u8 {
            proof {
                let k = choose|k: int|
                    0 <= k < bytes@.len() && bytes@[k] == 47u8 && forall|j: int| 0 <= j < k ==> bytes@[j] != 47u8;
                if k < i {
                } else if k > i {
                    assert(bytes@[i as int] != 47u8);
                }
            }
            return Some(i + 1);
        }
        i = i + 1;
    }
    None
}

/// The text of the key for logical id `k`: "user:" and the zero-padded id,
/// prefixed by its segment "tNN/" when keys are segmented.
pub open spec fn key_text(segments: usize, width: usize, k: u64) -> Seq<char> {
    if segments == 0 {
        "user:"@ + pad_zeros(dec(k as nat), width as nat)
    } else {
        "t"@ + pad_zeros(dec((k % segments as u64) as nat), 2) + "/user:"@ + pad_zeros(dec(k as nat), width as nat)
    }
}

/// Key for logical id `k`: plain, or segment-prefixed when segmented.
pub fn key_for(segments: usize, width: usize, k: u64) -> (r: String)
    ensures
        r@ == key_text(segments, width, k),
{
    let mut v: Vec<char> = Vec::new();
    if segments == 0 {
        push_str(&mut v, "user:");
        push_dec_padded(&mut v, k, width);
    } else {
        push_str(&mut v, "t");
        push_dec_padded(&mut v, k % (segments as u64), 2);
        push_str(&mut v, "/user:");
        push_dec_padded(&mut v, k, width);
    }
    assert(v@ =~= key_text(segments, width, k));
    string_from(&v)
}


/// The flags of the traffic tool.
pub struct TrafficArgs {
    /// Directory backing the local object store.
    pub dir: String,
    /// Base DB root path; DBs are named {path}-1..N (just {path} for one DB).
    pub path: String,
    /// How many DBs to seed and churn concurrently.
    pub dbs: Option<usize>,
    /// Seed waves when creating a fresh demo DB.
    pub waves: usize,
    /// Keys written per seed wave.
    pub keys_per_wave: usize,
    /// Seconds to run the compactor between the seed write phases.
    pub compact_secs: u64,
    /// Average operations per second for the busiest DB.
    pub rate: u64,
    /// Seconds between short-lived checkpoints (0 disables).
    pub checkpoint_secs: u64,
    /// Delete the entire directory first.
    pub clean: bool,
    /// Partition keys into this many segments; unset lets each DB decide.
    pub segments: Option<usize>,
    /// Seed each DB up to this much live data instead of the demo shape.
    pub target_size: Option<u64>,
    /// Value sizes.
    pub value_bytes: Option<ByteRange>,
    /// Target SST size.
    pub sst_bytes: Option<u64>,
    /// Exit after seeding.
    pub seed_only: bool,
    /// Seed without a WAL.
    pub no_wal: bool,
    /// Bulk seeding pauses while non-live bytes exceed this budget.
    pub max_garbage: u64,
}

/// Per-DB write-shape parameters, derived once from the flags. Every run
/// against the same DB must use the same flags: the key space and widths
/// are not persisted.
#[derive(Clone, Copy, Debug, PartialEq, Eq, Structural)]
pub struct Shape {
    pub segments: usize,
    /// Distinct logical key ids the seeder draws from.
    pub key_space: u64,
    /// Zero-pad width of the numeric key part; at least 8, so demo DBs keep
    /// their historical "user:00000042" format.
    pub key_width: usize,
    /// Power-of-two-minus-one domain for the churn loop's insert
    /// bijection; covers the seeded key space with room above it.
    pub scatter_mask: u64,
    /// Seed-phase value sizes.
    pub values: ByteRange,
    pub sst_bytes: u64,
}

/// The smallest power of two, from `p` upward by doubling at most `fuel`
/// times, that is at least `x`.
pub open spec fn pow2_ceil_from(x: nat, p: nat, fuel: nat) -> Option<nat>
    decreases fuel,
{
    if p >= x {
        Some(p)
    } else if fuel == 0 {
        None
    } else {
        pow2_ceil_from(x, 2 * p, (fuel - 1) as nat)
    }
}

/// The smallest power of two at least `x`, when it fits in a `u64`.
pub open spec fn next_pow2(x: u64) -> Option<u64> {
    match pow2_ceil_from(x as nat, 1, 63) {
        Some(p) => Some(p as u64),
        None => None,
    }
}

/// `x.checked_next_power_of_two()`.
pub fn checked_next_power_of_two(x: u64) -> (r: Option<u64>)
    ensures
        r == next_pow2(x),
{
    let mut p: u64 = 1;
    let mut k: u64 = 0;
    proof {
        lemma2_to64();
    }
    while p < x
        invariant
            k <= 63,
            p as nat == pow2(k as nat),
            pow2_ceil_from(x as nat, 1, 63) == pow2_ceil_from(x as nat, p as nat, (63 - k) as nat),
        decreases 63 - k,
    {
        if k == 63 {
            return None;
        }
        proof {
            vstd::arithmetic::power2::lemma_pow2_unfold((k + 1) as nat);
            vstd::arithmetic::power2::lemma_pow2_strictly_increases((k + 1) as nat, 64);
            lemma2_to64();
        }
        p = p * 2;
        k = k + 1;
    }
    proof {
        vstd::arithmetic::power2::lemma_pow2_pos(k as nat);
    }
    Some(p)
}

/// Number of decimal digits of `n`.
pub fn decimal_len(n: u64) -> (r: usize)
    ensures
        r == dec(n as nat).len(),
    decreases n,
{
    if n < 10 {
        1
    } else {
        let r = decimal_len(n / 10);
        proof {
            crate::text::lemma_dec_len((n / 10) as nat);
        }
        assert(r <= 20) by {
            lemma_dec_len_bound(n as nat);
        }
        r + 1
    }
}

/// 10 to the power `k`.
pub open spec fn ten_pow(k: nat) -> nat
    decreases k,
{
    if k == 0 {
        1
    } else {
        10 * ten_pow((k - 1) as nat)
    }
}

proof fn lemma_dec_len_pow(n: nat, k: nat)
    requires
        1 <= k,
        n < ten_pow(k),
    ensures
        dec(n).len() <= k,
    decreases k,
{
    if n >= 10 {
        if k == 1 {
            assert(ten_pow(1) == 10 * ten_pow(0));
        } else {
            assert(n / 10 < ten_pow((k - 1) as nat));
            lemma_dec_len_pow(n / 10, (k - 1) as nat);
        }
    }
}

proof fn lemma_dec_len_bound(n: nat)
    requires
        n <= u64::MAX,
    ensures
        dec(n).len() <= 20,
{
    reveal_with_fuel(ten_pow, 21);
    assert(ten_pow(20) == 100000000000000000000);
    lemma_dec_len_pow(n, 20);
}

/// `2 * x`, saturating at `u64::MAX`.
pub open spec fn sat_double(x: u64) -> u64 {
    if 2 * x > u64::MAX {
        u64::MAX
    } else {
        (2 * x) as u64
    }
}

/// `x.saturating_mul(2)`.
pub fn saturating_double(x: u64) -> (r: u64)
    ensures
        r == sat_double(x),
{
    match x.checked_mul(2) {
        Some(y) => y,
        None => u64::MAX,
    }
}

pub open spec fn max_u64(a: u64, b: u64) -> u64 {
    if a >= b {
        a
    } else {
        b
    }
}

/// Value sizes of the seed phase: the flag, else by mode.
pub open spec fn shape_values(a: TrafficArgs) -> ByteRange {
    match a.value_bytes {
        Some(v) => v,
        None => if a.target_size is Some {
            bulk_range()
        } else {
            demo_range()
        },
    }
}

/// Key ids the seeder draws from: twice the keys the bulk target needs
/// (so random draws keep finding fresh keys), else every key the demo
/// waves write; at least one.
pub open spec fn shape_key_space(a: TrafficArgs) -> u64 {
    match a.target_size {
        Some(target) => {
            let v = shape_values(a);
            let avg = max_u64(((v.min + v.max) / 2) as u64, 1);
            max_u64(sat_double(target / avg), 1)
        },
        None => max_u64((a.waves * a.keys_per_wave) as u64, 1),
    }
}

/// The key width: the digits of the largest key id, at least 8.
pub open spec fn shape_key_width(key_space: u64) -> usize {
    let digits = dec(max_u64(key_space.saturating_sub(1), 1) as nat).len();
    if digits >= 8 {
        digits as usize
    } else {
        8
    }
}

/// The scatter mask: one below the smallest power of two covering twice
/// the key space (at least 2^26); `u64::MAX - 1` when no such power fits.
pub open spec fn shape_scatter_mask(key_space: u64) -> u64 {
    let p = match next_pow2(sat_double(key_space)) {
        Some(p) => p,
        None => u64::MAX,
    };
    (max_u64(p, MIN_SCATTER_DOMAIN) - 1) as u64
}

/// The inputs on which deriving a shape cannot overflow.
pub open spec fn shape_args_ok(a: TrafficArgs) -> bool {
    match a.target_size {
        Some(_) => shape_values(a).min + shape_values(a).max <= u64::MAX,
        None => a.waves * a.keys_per_wave <= usize::MAX,
    }
}

/// Segment count for one DB: the explicit flag, or a stable pseudo-random
/// per-name choice. Stability across restarts matters because a DB's
/// extractor is fixed at creation and every reopen must make the same
/// choice.
pub fn db_segments(args: &TrafficArgs, db_path: &str) -> (r: usize)
    ensures
        r == segments_for(args.segments, db_path.spec_bytes()),
{
    match args.segments {
        Some(n) => n,
        None => {
            let bytes = db_path.as_bytes();
            let mut h: u64 = 0xcbf29ce484222325u64;
            let mut i: usize = 0;
            while i < bytes.len()
                invariant
                    i <= bytes@.len(),
                    h == fnv1a(bytes@.take(i as int)),
                decreases bytes@.len() - i,
            {
                proof {
                    assert(bytes@.take(i + 1).drop_last() =~= bytes@.take(i as int));
                }
                h = (h ^ (bytes[i] as u64)).wrapping_mul(0x100000001b3u64);
                i = i + 1;
            }
            assert(bytes@.take(bytes@.len() as int) =~= bytes@);
            if h % 2 == 0 {
                0
            } else {
                (2 + (h >> 8u64) % 5) as usize
            }
        },
    }
}

/// The write shape for one DB.
pub fn shape_for(args: &TrafficArgs, db_path: &str) -> (r: Shape)
    requires
        shape_args_ok(*args),
    ensures
        r.segments == segments_for(args.segments, db_path.spec_bytes()),
        r.values == shape_values(*args),
        r.sst_bytes == (match args.sst_bytes {
            Some(b) => b,
            None => if args.target_size is Some {
                BULK_SST_BYTES
            } else {
                DEMO_SST_BYTES
            },
        }),
        r.key_space == shape_key_space(*args),
        r.key_width == shape_key_width(r.key_space),
        r.scatter_mask == shape_scatter_mask(r.key_space),
{
    let bulk = args.target_size.is_some();
    let values = match args.value_bytes {
        Some(v) => v,
        None => if bulk {
            bulk_values()
        } else {
            demo_values()
        },
    };
    let sst_bytes = match args.sst_bytes {
        Some(b) => b,
        None => if bulk {
            BULK_SST_BYTES
        } else {
            DEMO_SST_BYTES
        },
    };
    let key_space = match args.target_size {
        Some(target) => {
            let mut avg = (values.min + values.max) / 2;
            if avg < 1 {
                avg = 1;
            }
            let mut ks = saturating_double(target / avg);
            if ks < 1 {
                ks = 1;
            }
            ks
        },
        None => {
            let mut ks = (args.waves * args.keys_per_wave) as u64;
            if ks < 1 {
                ks = 1;
            }
            ks
        },
    };
    let mut top = key_space.saturating_sub(1);
    if top < 1 {
        top = 1;
    }
    let digits = decimal_len(top);
    let key_width = if digits >= 8 {
        digits
    } else {
        8
    };
    let mut p = match checked_next_power_of_two(saturating_double(key_space)) {
        Some(p) => p,
        None => u64::MAX,
    };
    if p < MIN_SCATTER_DOMAIN {
        p = MIN_SCATTER_DOMAIN;
    }
    Shape { segments: db_segments(args, db_path), key_space, key_width, scatter_mask: p - 1, values, sst_bytes }
}


/// An odd factor does not change which powers of two divide a product.
proof fn lemma_odd_factor_divides(x: int, c: int, n: nat)
    requires
        c % 2 == 1,
        (x * c) % (pow2(n) as int) == 0,
    ensures
        x % (pow2(n) as int) == 0,
    decreases n,
{
    if n == 0 {
        lemma2_to64();
    } else {
        let h = pow2((n - 1) as nat) as int;
        lemma_pow2_unfold(n);
        lemma_pow2_pos((n - 1) as nat);
        lemma_mod_mod(x * c, 2, h);
        assert(((x * c) % (2 * h)) % 2 == 0);
        assert((x * c) % 2 == 0);
        lemma_mul_mod_noop(x, c, 2);
        assert(((x % 2) * 1) % 2 == 0);
        assert(x % 2 == 0);
        lemma_fundamental_div_mod(x, 2);
        let y = x / 2;
        assert(x == 2 * y);
        lemma_fundamental_div_mod(x * c, 2 * h);
        let q = (x * c) / (2 * h);
        assert(x * c == (2 * h) * q);
        assert(y * c == q * h) by (nonlinear_arith)
            requires
                x * c == (2 * h) * q,
                x == 2 * y,
        ;
        lemma_mod_multiples_basic(q, h);
        lemma_odd_factor_divides(y, c, (n - 1) as nat);
        lemma_fundamental_div_mod(y, h);
        let r = y / h;
        assert(y == h * r);
        assert(x == r * (2 * h)) by (nonlinear_arith)
            requires
                x == 2 * y,
                y == h * r,
        ;
        lemma_mod_multiples_basic(r, 2 * h);
    }
}

/// A multiple of `m` strictly between `-m` and `m` is zero.
proof fn lemma_small_multiple_zero(x: int, m: int)
    requires
        m > 0,
        -m < x < m,
        x % m == 0,
    ensures
        x == 0,
{
    lemma_fundamental_div_mod(x, m);
    let q = x / m;
    assert(x == m * q);
    if q >= 1 {
        assert(m * q >= m) by (nonlinear_arith)
            requires
                q >= 1,
                m > 0,
        ;
    } else if q <= -1 {
        assert(m * q <= -m) by (nonlinear_arith)
            requires
                q <= -1,
                m > 0,
        ;
    } else {
        assert(m * q == 0) by (nonlinear_arith)
            requires
                q == 0,
        ;
    }
}

/// Scattering id `i` into the domain `0..=mask`.
pub open spec fn scattered(i: u64, mask: u64) -> u64 {
    i.wrapping_mul(SCATTER_MUL) & mask
}

/// The scatter of `i` with the `n`-bit mask is the product with the
/// multiplier, modulo 2^n.
proof fn lemma_scattered_mod(i: u64, n: nat)
    requires
        n <= 64,
    ensures
        scattered(i, (pow2(n) - 1) as u64) as int == (i as int * SCATTER_MUL as int) % (pow2(n) as int),
{
    lemma2_to64();
    let w = i.wrapping_mul(SCATTER_MUL);
    assert(w as int == (i as int * SCATTER_MUL as int) % 0x10000000000000000);
    let mask = (pow2(n) - 1) as u64;
    if n == 64 {
        assert(w & 0xffff_ffff_ffff_ffffu64 == w) by (bit_vector);
        assert(mask == 0xffff_ffff_ffff_ffffu64);
        assert(scattered(i, mask) == w);
    } else {
        lemma_pow2_pos(n);
        vstd::arithmetic::power2::lemma_pow2_strictly_increases(n, 64);
        vstd::bits::lemma_u64_low_bits_mask_is_mod(w, n);
        assert(vstd::bits::low_bits_mask(n) == pow2(n) - 1);
        assert(scattered(i, mask) == w % (pow2(n) as u64));
        assert(scattered(i, mask) as int == (w as int) % (pow2(n) as int));
        lemma_pow2_pos((64 - n) as nat);
        lemma_pow2_adds(n, (64 - n) as nat);
        assert(pow2(n) * pow2((64 - n) as nat) == 0x10000000000000000);
        lemma_mod_mod(i as int * SCATTER_MUL as int, pow2(n) as int, pow2((64 - n) as nat) as int);
    }
}

/// Scattering is a bijection on the mask domain: with an `n`-bit mask, it
/// maps `0..=mask` into itself and never maps two ids to one.
pub proof fn lemma_scatter_bijective(n: nat, i: u64, j: u64)
    requires
        n <= 64,
        i < pow2(n),
        j < pow2(n),
    ensures
        scattered(i, (pow2(n) - 1) as u64) < pow2(n),
        scattered(i, (pow2(n) - 1) as u64) == scattered(j, (pow2(n) - 1) as u64) ==> i == j,
{
    lemma_pow2_pos(n);
    lemma_scattered_mod(i, n);
    lemma_scattered_mod(j, n);
    let m = pow2(n) as int;
    let c = SCATTER_MUL as int;
    if scattered(i, (pow2(n) - 1) as u64) == scattered(j, (pow2(n) - 1) as u64) {
        lemma_mod_equivalence(i as int * c, j as int * c, m);
        assert((i as int * c - j as int * c) % m == 0);
        assert(i as int * c - j as int * c == (i as int - j as int) * c) by (nonlinear_arith);
        lemma_odd_factor_divides(i as int - j as int, c, n);
        lemma_small_multiple_zero(i as int - j as int, m);
    }
}


/// Unicode White_Space, as `char::is_whitespace` tests it.
pub open spec fn is_ws(c: char) -> bool {
    let u = c as u32;
    (9 <= u <= 13) || u == 32 || u == 0x85 || u == 0xA0 || u == 0x1680 || (0x2000 <= u <= 0x200A) || u == 0x2028
        || u == 0x2029 || u == 0x202F || u == 0x205F || u == 0x3000
}

fn char_is_ws(c: char) -> (r: bool)
    ensures
        r == is_ws(c),
{
    let u = c as u32;
    (9 <= u && u <= 13) || u == 32 || u == 0x85 || u == 0xA0 || u == 0x1680 || (0x2000 <= u && u <= 0x200A) || u
        == 0x2028 || u == 0x2029 || u == 0x202F || u == 0x205F || u == 0x3000
}

/// `s` without leading whitespace.
pub open spec fn trim_start(s: Seq<char>) -> Seq<char>
    decreases s.len(),
{
    if s.len() > 0 && is_ws(s[0]) {
        trim_start(s.drop_first())
    } else {
        s
    }
}

/// `s` without trailing whitespace.
pub open spec fn trim_end(s: Seq<char>) -> Seq<char>
    decreases s.len(),
{
    if s.len() > 0 && is_ws(s.last()) {
        trim_end(s.drop_last())
    } else {
        s
    }
}

/// `s` without leading and trailing whitespace (`str::trim`).
pub open spec fn trim(s: Seq<char>) -> Seq<char> {
    trim_end(trim_start(s))
}

proof fn lemma_trim_start_from(s: Seq<char>, i: int)
    requires
        0 <= i <= s.len(),
        forall|j: int| 0 <= j < i ==> is_ws(#[trigger] s[j]),
    ensures
        trim_start(s) == trim_start(s.subrange(i, s.len() as int)),
    decreases i,
{
    if i > 0 {
        assert(is_ws(s[0]));
        let t = s.drop_first();
        assert forall|j: int| 0 <= j < i - 1 implies is_ws(#[trigger] t[j]) by {
            assert(t[j] == s[j + 1]);
        }
        lemma_trim_start_from(t, i - 1);
        assert(t.subrange(i - 1, t.len() as int) =~= s.subrange(i, s.len() as int));
    } else {
        assert(s.subrange(0, s.len() as int) =~= s);
    }
}

proof fn lemma_trim_end_to(s: Seq<char>, k: int)
    requires
        0 <= k <= s.len(),
        forall|j: int| k <= j < s.len() ==> is_ws(#[trigger] s[j]),
    ensures
        trim_end(s) == trim_end(s.subrange(0, k)),
    decreases s.len() - k,
{
    if k < s.len() {
        assert(is_ws(s.last()));
        let t = s.drop_last();
        assert forall|j: int| k <= j < t.len() implies is_ws(#[trigger] t[j]) by {
            assert(t[j] == s[j]);
        }
        lemma_trim_end_to(t, k);
        assert(t.subrange(0, k) =~= s.subrange(0, k));
    } else {
        assert(s.subrange(0, k) =~= s);
    }
}

/// The characters of `s` without leading and trailing whitespace.
pub fn trimmed(s: &Vec<char>) -> (r: Vec<char>)
    ensures
        r@ == trim(s@),
{
    let mut lo: usize = 0;
    while lo < s.len() && char_is_ws(s[lo])
        invariant
            lo <= s@.len(),
            forall|j: int| 0 <= j < lo ==> is_ws(#[trigger] s@[j]),
        decreases s@.len() - lo,
    {
        lo = lo + 1;
    }
    let ghost t = s@.subrange(lo as int, s@.len() as int);
    proof {
        lemma_trim_start_from(s@, lo as int);
        if t.len() > 0 {
            assert(t[0] == s@[lo as int]);
        }
        assert(trim_start(t) == t);
    }
    let mut hi: usize = s.len();
    while hi > lo && char_is_ws(s[hi - 1])
        invariant
            lo <= hi <= s@.len(),
            forall|j: int| hi <= j < s@.len() ==> is_ws(#[trigger] s@[j]),
        decreases hi,
    {
        hi = hi - 1;
    }
    proof {
        assert forall|j: int| hi - lo <= j < t.len() implies is_ws(#[trigger] t[j]) by {
            assert(t[j] == s@[lo + j]);
        }
        lemma_trim_end_to(t, hi - lo);
        let u = t.subrange(0, hi - lo);
        if u.len() > 0 {
            assert(u.last() == s@[hi - 1]);
        }
        assert(trim_end(u) == u);
    }
    let mut out: Vec<char> = Vec::new();
    let mut k: usize = lo;
    while k < hi
        invariant
            lo <= k <= hi <= s@.len(),
            out@ == s@.subrange(lo as int, k as int),
        decreases hi - k,
    {
        out.push(s[k]);
        k = k + 1;
        assert(out@ =~= s@.subrange(lo as int, k as int));
    }
    assert(out@ =~= t.subrange(0, hi - lo));
    out
}

/// Length of the leading run of ASCII digits of `s`.
pub open spec fn digit_run(s: Seq<char>) -> nat
    decreases s.len(),
{
    if s.len() > 0 && is_digit(s[0]) {
        1 + digit_run(s.drop_first())
    } else {
        0
    }
}

/// ASCII lowercase of a character.
pub open spec fn ascii_lower(c: char) -> char {
    if 'A' <= c <= 'Z' {
        ((c as u32) + 32) as char
    } else {
        c
    }
}

/// `s` without any trailing run of `c`.
pub open spec fn strip_trailing(s: Seq<char>, c: char) -> Seq<char>
    decreases s.len(),
{
    if s.len() > 0 && s.last() == c {
        strip_trailing(s.drop_last(), c)
    } else {
        s
    }
}

/// The multiplier of a size unit: binary units, the "i" and "B" parts
/// optional, any case.
pub open spec fn unit_multiplier(unit: Seq<char>) -> Option<u64> {
    let u = strip_trailing(strip_trailing(trim(unit).map_values(|c: char| ascii_lower(c)), 'b'), 'i');
    if u.len() == 0 {
        Some(1)
    } else if u == seq!['k'] {
        Some(1024)
    } else if u == seq!['m'] {
        Some(1048576)
    } else if u == seq!['g'] {
        Some(1073741824)
    } else if u == seq!['t'] {
        Some(1099511627776)
    } else {
        None
    }
}

/// "{prefix}'{s}'{suffix}".
pub open spec fn quoted(prefix: Seq<char>, s: Seq<char>, suffix: Seq<char>) -> Seq<char> {
    prefix + seq!['\''] + s + seq!['\''] + suffix
}

/// Size like "1024", "128KiB" or "50gb" in bytes, or the error message.
#[verifier::opaque]
pub open spec fn size_of_text(s: Seq<char>) -> Result<u64, Seq<char>> {
    let t = trim(s);
    let d = digit_run(t);
    let num = t.take(d as int);
    let unit = t.skip(d as int);
    if d == 0 || digits_value(num) > u64::MAX {
        Err(quoted("invalid size "@, s, ""@))
    } else {
        match unit_multiplier(unit) {
            None => Err(quoted("invalid unit in size "@, s, ""@)),
            Some(m) => if digits_value(num) * m > u64::MAX {
                Err(quoted("size "@, s, " overflows u64"@))
            } else {
                Ok((digits_value(num) * m) as u64)
            },
        }
    }
}

/// A result with its error as text.
pub open spec fn text_result<T>(r: Result<T, String>) -> Result<T, Seq<char>> {
    match r {
        Ok(v) => Ok(v),
        Err(e) => Err(e@),
    }
}


proof fn lemma_digit_run(t: Seq<char>, d: int)
    requires
        0 <= d <= t.len(),
        forall|j: int| 0 <= j < d ==> is_digit(#[trigger] t[j]),
        d == t.len() || !is_digit(t[d]),
    ensures
        digit_run(t) == d,
    decreases d,
{
    if d > 0 {
        let u = t.drop_first();
        assert forall|j: int| 0 <= j < d - 1 implies is_digit(#[trigger] u[j]) by {
            assert(u[j] == t[j + 1]);
        }
        if d < t.len() {
            assert(u[d - 1] == t[d]);
        }
        lemma_digit_run(u, d - 1);
    } else if t.len() > 0 {
        assert(!is_digit(t[0]));
    }
}

proof fn lemma_digits_value_mono(t: Seq<char>, k: int, d: int)
    requires
        0 <= k <= d <= t.len(),
    ensures
        digits_value(t.take(k)) <= digits_value(t.take(d)),
    decreases d - k,
{
    if k < d {
        lemma_digits_value_mono(t, k, d - 1);
        assert(t.take(d).drop_last() =~= t.take(d - 1));
    }
}

/// `"{prefix}'{s}'{suffix}"`.
fn quote_msg(prefix: &str, s: &str, suffix: &str) -> (r: String)
    ensures
        r@ == quoted(prefix@, s@, suffix@),
{
    let mut v: Vec<char> = Vec::new();
    push_str(&mut v, prefix);
    v.push('\'');
    push_str(&mut v, s);
    v.push('\'');
    push_str(&mut v, suffix);
    assert(v@ =~= quoted(prefix@, s@, suffix@));
    string_from(&v)
}

/// `v` without its trailing run of `c`.
fn strip_trailing_chars(v: &mut Vec<char>, c: char)
    ensures
        final(v)@ == strip_trailing(old(v)@, c),
{
    while v.len() > 0 && v[v.len() - 1] == c
        invariant
            strip_trailing(v@, c) == strip_trailing(old(v)@, c),
        decreases v.len(),
    {
        let ghost before = v@;
        v.pop();
        assert(v@ =~= before.drop_last());
    }
}

/// The unit text reduced to its letter: trimmed, lowercased, without the
/// trailing "b" and "i" parts.
fn unit_letters(unit: &Vec<char>) -> (r: Vec<char>)
    ensures
        r@ == strip_trailing(strip_trailing(trim(unit@).map_values(|c: char| ascii_lower(c)), 'b'), 'i'),
{
    let t = trimmed(unit);
    let mut low: Vec<char> = Vec::new();
    let mut i: usize = 0;
    while i < t.len()
        invariant
            i <= t@.len(),
            low@ == t@.take(i as int).map_values(|c: char| ascii_lower(c)),
        decreases t@.len() - i,
    {
        let c = t[i];
        let l = if 'A' <= c && c <= 'Z' {
            ((c as u32) + 32) as u8 as char
        } else {
            c
        };
        assert(l == ascii_lower(c)) by {
            if 'A' <= c && c <= 'Z' {
                assert(((c as u32) + 32) as u8 as char == ((c as u32) + 32) as char);
            }
        }
        low.push(l);
        i = i + 1;
        assert(low@ =~= t@.take(i as int).map_values(|c: char| ascii_lower(c)));
    }
    assert(t@.take(t@.len() as int) =~= t@);
    strip_trailing_chars(&mut low, 'b');
    strip_trailing_chars(&mut low, 'i');
    low
}

/// The multiplier of a unit, or `None` for an unknown unit.
fn unit_mult(unit: &Vec<char>) -> (r: Option<u64>)
    ensures
        r == unit_multiplier(unit@),
{
    let u = unit_letters(unit);
    if u.len() == 0 {
        Some(1)
    } else if u.len() == 1 {
        let c = u[0];
        proof {
            assert(u@ == seq![c]) by {
                assert(u@ =~= seq![c]);
            }
        }
        if c == 'k' {
            Some(1024)
        } else if c == 'm' {
            Some(1048576)
        } else if c == 'g' {
            Some(1073741824)
        } else if c == 't' {
            Some(1099511627776)
        } else {
            proof {
                assert(u@ != seq!['k'] && u@ != seq!['m'] && u@ != seq!['g'] && u@ != seq!['t']) by {
                    assert(seq!['k'][0] == 'k');
                    assert(seq!['m'][0] == 'm');
                    assert(seq!['g'][0] == 'g');
                    assert(seq!['t'][0] == 't');
                }
            }
            None
        }
    } else {
        proof {
            assert(u@.len() != seq!['k'].len());
        }
        None
    }
}

/// Size like "1024", "128KiB" or "50gb" in bytes. Units are binary
/// (KB == KiB); the "i" and "B" suffix parts are optional, any case.
pub fn parse_size(s: &str) -> (r: Result<u64, String>)
    ensures
        text_result(r) == size_of_text(s@),
{
    reveal(size_of_text);
    let cs = chars_of(s);
    let t = trimmed(&cs);
    let mut d: usize = 0;
    while d < t.len() && '0' <= t[d] && t[d] <= '9'
        invariant
            d <= t@.len(),
            forall|j: int| 0 <= j < d ==> is_digit(#[trigger] t@[j]),
        decreases t@.len() - d,
    {
        d = d + 1;
    }
    proof {
        lemma_digit_run(t@, d as int);
    }
    if d == 0 {
        return Err(quote_msg("invalid size ", s, ""));
    }
    let mut n: u64 = 0;
    let mut k: usize = 0;
    while k < d
        invariant
            k <= d <= t@.len(),
            t@ == trim(s@),
            digit_run(t@) == d,
            forall|j: int| 0 <= j < d ==> is_digit(#[trigger] t@[j]),
            n == digits_value(t@.take(k as int)),
        decreases d - k,
    {
        let digit = (t[k] as u32 - '0' as u32) as u64;
        proof {
            assert(t@.take(k + 1).drop_last() =~= t@.take(k as int));
            assert(t@.take(k + 1).last() == t@[k as int]);
            assert(digits_value(t@.take(k + 1)) == n * 10 + digit);
        }
        match n.checked_mul(10) {
            None => {
                proof {
                    lemma_digits_value_mono(t@, k + 1, d as int);
                    reveal(size_of_text);
                }
                return Err(quote_msg("invalid size ", s, ""));
            },
            Some(m) => match m.checked_add(digit) {
                None => {
                    proof {
                        lemma_digits_value_mono(t@, k + 1, d as int);
                        reveal(size_of_text);
                    }
                    return Err(quote_msg("invalid size ", s, ""));
                },
                Some(v) => {
                    n = v;
                },
            },
        }
        k = k + 1;
    }
    let mut unit: Vec<char> = Vec::new();
    let mut j: usize = d;
    while j < t.len()
        invariant
            d <= j <= t@.len(),
            unit@ == t@.subrange(d as int, j as int),
        decreases t@.len() - j,
    {
        unit.push(t[j]);
        j = j + 1;
        assert(unit@ =~= t@.subrange(d as int, j as int));
    }
    assert(unit@ =~= t@.skip(d as int));
    match unit_mult(&unit) {
        None => Err(quote_msg("invalid unit in size ", s, "")),
        Some(mult) => match n.checked_mul(mult) {
            None => Err(quote_msg("size ", s, " overflows u64")),
            Some(v) => Ok(v),
        },
    }
}


pub open spec fn dotdot_at(s: Seq<char>, i: int) -> bool {
    0 <= i && i + 1 < s.len() && s[i] == '.' && s[i + 1] == '.'
}

/// Where the first ".." of `s` starts.
pub open spec fn first_dotdot(s: Seq<char>) -> Option<int> {
    if exists|i: int| dotdot_at(s, i) {
        Some(choose|i: int| dotdot_at(s, i) && forall|j: int| 0 <= j < i ==> !dotdot_at(s, j))
    } else {
        None
    }
}

/// The lower bound's text of a range: before the first "..", else all.
pub open spec fn range_lo(s: Seq<char>) -> Seq<char> {
    match first_dotdot(s) {
        Some(i) => s.take(i),
        None => s,
    }
}

/// The upper bound's text of a range: after the first "..", else all.
pub open spec fn range_hi(s: Seq<char>) -> Seq<char> {
    match first_dotdot(s) {
        Some(i) => s.skip(i + 2),
        None => s,
    }
}

/// The range of text `s` from the parses of its two bounds.
pub open spec fn range_from(s: Seq<char>, lo: Result<u64, Seq<char>>, hi: Result<u64, Seq<char>>) -> Result<
    ByteRange,
    Seq<char>,
> {
    match lo {
        Err(e) => Err(e),
        Ok(min) => match hi {
            Err(e) => Err(e),
            Ok(max) => if min == 0 {
                Err("value size must be at least 1 byte"@)
            } else if max < min {
                Err(quoted("invalid range "@, s, ": max below min"@))
            } else {
                Ok(ByteRange { min, max })
            },
        },
    }
}

/// A byte-size range, "512" or "4KiB..64KiB", or the error message.
pub open spec fn range_of_text(s: Seq<char>) -> Result<ByteRange, Seq<char>> {
    range_from(s, size_of_text(range_lo(s)), size_of_text(range_hi(s)))
}

/// The characters `s[lo..hi]` as a `String`.
fn substring(s: &Vec<char>, lo: usize, hi: usize) -> (r: String)
    requires
        lo <= hi <= s@.len(),
    ensures
        r@ == s@.subrange(lo as int, hi as int),
{
    let mut v: Vec<char> = Vec::new();
    let mut k: usize = lo;
    while k < hi
        invariant
            lo <= k <= hi <= s@.len(),
            v@ == s@.subrange(lo as int, k as int),
        decreases hi - k,
    {
        v.push(s[k]);
        k = k + 1;
        assert(v@ =~= s@.subrange(lo as int, k as int));
    }
    string_from(&v)
}

/// Position of the first ".." of `cs`, if any.
fn find_dotdot(cs: &Vec<char>) -> (r: Option<usize>)
    ensures
        r matches Some(i) ==> i + 2 <= cs@.len() && range_lo(cs@) == cs@.take(i as int) && range_hi(cs@) == cs@.skip(
            i + 2,
        ),
        r is None ==> range_lo(cs@) == cs@ && range_hi(cs@) == cs@,
{
    let mut i: usize = 0;
    while i < cs.len() && i + 1 < cs.len()
        invariant
            i <= cs@.len(),
            forall|j: int| 0 <= j < i ==> !dotdot_at(cs@, j),
        decreases cs@.len() - i,
    {
        if cs[i] == '.' && cs[i + 1] == '.' {
            proof {
                let sv = cs@;
                assert(dotdot_at(sv, i as int));
                let c = choose|c: int| dotdot_at(sv, c) && forall|j: int| 0 <= j < c ==> !dotdot_at(sv, j);
                if c < i {
                } else if c > i {
                    assert(!dotdot_at(sv, i as int));
                }
                assert(first_dotdot(sv) == Some(i as int));
            }
            return Some(i);
        }
        i = i + 1;
    }
    proof {
        assert forall|j: int| !dotdot_at(cs@, j) by {
            if dotdot_at(cs@, j) && j >= i {
                assert(j + 1 < cs@.len());
            }
        }
        assert(first_dotdot(cs@) is None);
    }
    None
}

/// The texts of the two bounds of a range.
fn split_range(s: &str) -> (r: (String, String))
    ensures
        r.0@ == range_lo(s@),
        r.1@ == range_hi(s@),
{
    let cs = chars_of(s);
    match find_dotdot(&cs) {
        Some(i) => {
            let n = cs.len();
            assert(i + 2 <= n);
            (substring(&cs, 0, i), substring(&cs, i + 2, n))
        },
        None => {
            assert(cs@.subrange(0, cs@.len() as int) =~= cs@);
            (substring(&cs, 0, cs.len()), substring(&cs, 0, cs.len()))
        },
    }
}

/// Parses an inclusive byte-size range: "512" or "4KiB..64KiB".
pub fn parse_byte_range(s: &str) -> (r: Result<ByteRange, String>)
    ensures
        text_result(r) == range_of_text(s@),
{
    let (lo, hi) = split_range(s);
    let min = match parse_size(lo.as_str()) {
        Ok(v) => v,
        Err(e) => {
            return Err(e);
        },
    };
    let max = match parse_size(hi.as_str()) {
        Ok(v) => v,
        Err(e) => {
            return Err(e);
        },
    };
    if min == 0 {
        return Err("value size must be at least 1 byte".to_owned());
    }
    if max < min {
        return Err(quote_msg("invalid range ", s, ": max below min"));
    }
    Ok(ByteRange { min, max })
}


/// The little-endian bytes of `x`.
#[verifier::opaque]
pub open spec fn le_bytes(x: u64) -> Seq<u8> {
    Seq::new(8, |j: int| ((x >> ((8 * j) as u64)) & 0xffu64) as u8)
}

/// The bytes of `n` draws from the generator at state `s`, each drawn
/// value little-endian.
pub open spec fn rng_bytes(s: u64, n: nat) -> Seq<u8>
    decreases n,
{
    if n == 0 {
        seq![]
    } else {
        le_bytes(lcg_out(s)) + rng_bytes(lcg_step(s), (n - 1) as nat)
    }
}

proof fn lemma_rng_bytes_push(s: u64, n: nat)
    ensures
        rng_bytes(s, n + 1) == rng_bytes(s, n) + le_bytes(lcg_out(lcg_steps(s, n))),
        lcg_steps(s, n + 1) == lcg_step(lcg_steps(s, n)),
    decreases n,
{
    if n > 0 {
        lemma_rng_bytes_push(lcg_step(s), (n - 1) as nat);
        assert(lcg_steps(s, n + 1) == lcg_steps(lcg_step(s), n));
        assert(lcg_steps(s, n) == lcg_steps(lcg_step(s), (n - 1) as nat));
        let a = le_bytes(lcg_out(s));
        let b = rng_bytes(lcg_step(s), (n - 1) as nat);
        let c = le_bytes(lcg_out(lcg_steps(s, n)));
        assert(rng_bytes(s, n + 1) == a + rng_bytes(lcg_step(s), n));
        assert(rng_bytes(lcg_step(s), n) == b + c);
        assert(a + (b + c) =~= (a + b) + c);
    } else {
        assert(lcg_steps(s, 1) == lcg_steps(lcg_step(s), 0));
        assert(lcg_steps(lcg_step(s), 0) == lcg_step(s));
        assert(rng_bytes(s, 1) == le_bytes(lcg_out(s)) + rng_bytes(lcg_step(s), 0));
        assert(le_bytes(lcg_out(s)) + Seq::<u8>::empty() =~= le_bytes(lcg_out(s)));
        assert(Seq::<u8>::empty() + le_bytes(lcg_out(s)) =~= le_bytes(lcg_out(s)));
    }
}

/// Appends the little-endian bytes of `x`.
fn push_le_bytes(v: &mut Vec<u8>, x: u64)
    ensures
        final(v)@ == old(v)@ + le_bytes(x),
        le_bytes(x).len() == 8,
{
    reveal(le_bytes);
    let ghost before = v@;
    let mut j: u64 = 0;
    while j < 8
        invariant
            j <= 8,
            v@ == before + le_bytes(x).take(j as int),
        decreases 8 - j,
    {
        proof {
            reveal(le_bytes);
        }
        let b = ((x >> (8 * j)) & 0xffu64) as u8;
        assert(b == le_bytes(x)[j as int]);
        v.push(b);
        j = j + 1;
        assert(v@ =~= before + le_bytes(x).take(j as int));
    }
    assert(le_bytes(x).take(8) =~= le_bytes(x));
}

/// The tag that starts a bulk value: "t:{key}:".
pub open spec fn bulk_tag(key: Seq<u8>) -> Seq<u8> {
    seq![116u8, 58u8] + key + seq![58u8]
}

/// Generator draws needed to fill a value of `len` bytes after a tag of
/// `tag_len` bytes, eight bytes per draw.
pub open spec fn fill_draws(tag_len: nat, len: nat) -> nat {
    if tag_len >= len {
        0
    } else {
        ((len - tag_len + 7) / 8) as nat
    }
}

/// A bulk value of `len` bytes for `key`, drawing from the generator at
/// state `s`: the tag, then generator bytes, cut to `len`.
pub open spec fn bulk_value_of(s: u64, key: Seq<u8>, len: nat) -> Seq<u8> {
    let tag = bulk_tag(key);
    let m = if len < tag.len() {
        len
    } else {
        tag.len()
    };
    (tag.take(m as int) + rng_bytes(s, fill_draws(tag.len(), len))).take(len as int)
}

/// Bulk value: tagged with the key for provenance, then filled from the
/// generator so sizes stay honest even if compression is ever enabled.
pub fn bulk_value(rng: &mut Lcg, key: &str, len: usize) -> (r: Vec<u8>)
    ensures
        r@ == bulk_value_of(old(rng).0, key.spec_bytes(), len as nat),
        r@.len() == len,
        final(rng).0 == lcg_steps(old(rng).0, fill_draws(bulk_tag(key.spec_bytes()).len(), len as nat)),
{
    let ghost s0 = rng.0;
    let ghost tag = bulk_tag(key.spec_bytes());
    let kb = key.as_bytes();
    let mut v: Vec<u8> = Vec::new();
    v.push(116u8);
    v.push(58u8);
    let mut i: usize = 0;
    while i < kb.len()
        invariant
            i <= kb@.len(),
            v@ == seq![116u8, 58u8] + kb@.take(i as int),
        decreases kb@.len() - i,
    {
        v.push(kb[i]);
        i = i + 1;
        assert(v@ =~= seq![116u8, 58u8] + kb@.take(i as int));
    }
    v.push(58u8);
    assert(v@ =~= tag) by {
        assert(kb@.take(kb@.len() as int) =~= kb@);
    }
    v.truncate(len);
    let ghost m: nat = if (len as nat) < tag.len() {
        len as nat
    } else {
        tag.len()
    };
    assert(v@ =~= tag.take(m as int));
    let ghost mut k: nat = 0;
    assert(rng_bytes(s0, 0) =~= Seq::<u8>::empty());
    while v.len() < len
        invariant
            m <= len,
            m < len ==> m == tag.len(),
            v@ == tag.take(m as int) + rng_bytes(s0, k),
            v@.len() == m + 8 * k,
            k == 0 || m + 8 * (k - 1) < len,
            rng.0 == lcg_steps(s0, k),
        decreases len + 8 - v@.len(),
    {
        let x = rng.next();
        proof {
            lemma_rng_bytes_push(s0, k);
        }
        push_le_bytes(&mut v, x);
        proof {
            k = k + 1;
        }
        assert(v@ =~= tag.take(m as int) + rng_bytes(s0, k));
    }
    proof {
        if m < len {
            assert(k == (len - m + 7) / 8) by (nonlinear_arith)
                requires
                    m + 8 * k >= len,
                    k == 0 || m + 8 * (k - 1) < len,
                    m < len,
            ;
        } else {
            assert(k == 0);
        }
        assert(k == fill_draws(tag.len(), len as nat));
    }
    v.truncate(len);
    v
}

/// `len` bytes repeating `tag` (nothing when `tag` is empty).
pub open spec fn cycled(tag: Seq<u8>, len: nat) -> Seq<u8> {
    if tag.len() == 0 {
        seq![]
    } else {
        Seq::new(len, |j: int| tag[j % (tag.len() as int)])
    }
}

/// `len` bytes repeating the bytes of `tag`.
fn cycle_bytes(tag: &str, len: usize) -> (r: Vec<u8>)
    ensures
        r@ == cycled(tag.spec_bytes(), len as nat),
{
    let b = tag.as_bytes();
    let mut v: Vec<u8> = Vec::new();
    if b.len() == 0 {
        return v;
    }
    let mut j: usize = 0;
    let mut p: usize = 0;
    while j < len
        invariant
            b@.len() > 0,
            j <= len,
            p < b@.len(),
            p as int == (j as int) % (b@.len() as int),
            v@ == cycled(b@, len as nat).take(j as int),
        decreases len - j,
    {
        v.push(b[p]);
        proof {
            assert(cycled(b@, len as nat)[j as int] == b@[p as int]);
            assert(v@ =~= cycled(b@, len as nat).take(j + 1));
            vstd::arithmetic::div_mod::lemma_mod_add_multiples_vanish(j as int, b@.len() as int);
        }
        p = if p + 1 == b.len() {
            0
        } else {
            p + 1
        };
        proof {
            if p == 0 {
                assert((j + 1) % (b@.len() as int) == 0) by {
                    vstd::arithmetic::div_mod::lemma_fundamental_div_mod(j as int, b@.len() as int);
                    let q = j as int / (b@.len() as int);
                    assert(j + 1 == (q + 1) * (b@.len() as int)) by (nonlinear_arith)
                        requires
                            j as int == (b@.len() as int) * q + (b@.len() as int - 1),
                    ;
                    vstd::arithmetic::div_mod::lemma_mod_multiples_basic(q + 1, b@.len() as int);
                }
            } else {
                assert((j + 1) % (b@.len() as int) == p) by {
                    vstd::arithmetic::div_mod::lemma_fundamental_div_mod(j as int, b@.len() as int);
                    let q = j as int / (b@.len() as int);
                    vstd::arithmetic::div_mod::lemma_mod_multiples_vanish(q, p as int, b@.len() as int);
                    assert(j + 1 == (b@.len() as int) * q + p);
                    vstd::arithmetic::div_mod::lemma_small_mod(p as nat, b@.len() as nat);
                }
            }
        }
        j = j + 1;
    }
    assert(cycled(b@, len as nat).take(len as int) =~= cycled(b@, len as nat));
    v
}

/// The text of a seed-wave value's tag: "v{wave}:{key}:".
pub open spec fn wave_tag(wave: usize, key: Seq<char>) -> Seq<char> {
    "v"@ + dec(wave as nat) + ":"@ + key + ":"@
}

/// A seed-wave value: its tag repeated to `len` bytes.
pub fn wave_value(wave: usize, key: &str, len: usize) -> (r: Vec<u8>)
    ensures
        r@ == cycled(crate::text::utf8(wave_tag(wave, key@)), len as nat),
{
    let mut t: Vec<char> = Vec::new();
    push_str(&mut t, "v");
    crate::text::push_dec(&mut t, wave as u64);
    push_str(&mut t, ":");
    push_str(&mut t, key);
    push_str(&mut t, ":");
    assert(t@ =~= wave_tag(wave, key@));
    let tag = string_from(&t);
    cycle_bytes(tag.as_str(), len)
}

/// The text of a traffic value's tag: "t:{key}:".
pub open spec fn churn_tag(key: Seq<char>) -> Seq<char> {
    "t:"@ + key + ":"@
}

/// A traffic value: its tag repeated to `len` bytes.
pub fn churn_value(key: &str, len: usize) -> (r: Vec<u8>)
    ensures
        r@ == cycled(crate::text::utf8(churn_tag(key@)), len as nat),
{
    let mut t: Vec<char> = Vec::new();
    push_str(&mut t, "t:");
    push_str(&mut t, key);
    push_str(&mut t, ":");
    assert(t@ =~= churn_tag(key@));
    let tag = string_from(&t);
    cycle_bytes(tag.as_str(), len)
}


/// One write of the seeding or churn loops.
#[derive(Clone, Copy, Debug, PartialEq, Eq, Structural)]
pub enum WriteOp {
    /// Delete the key with this logical id.
    Delete { key_id: u64 },
    /// Put a value of `len` bytes under the key with this logical id.
    Put { key_id: u64, len: usize },
}

/// The value sizes `v` can be drawn from.
pub open spec fn range_ok(v: ByteRange) -> bool {
    v.min <= v.max <= usize::MAX && v.max - v.min + 1 <= u64::MAX
}

/// Whether a value-size range is usable for writes, as the write
/// decisions require: not empty, its sizes addressable, and its width
/// countable in a `u64`.
pub fn check_range(v: &ByteRange) -> (r: bool)
    ensures
        r == range_ok(*v),
{
    v.min <= v.max && (v.max as u128) <= (usize::MAX as u128) && v.max - v.min < u64::MAX
}

/// One seed-wave write from generator state `s`, and the state after it:
/// a random key of the key space, deleted one time in ten once something
/// was written, else put with a random size.
pub open spec fn wave_op_of(s: u64, key_space: u64, written: u64, values: ByteRange) -> (WriteOp, u64) {
    let k = lcg_out(s) % key_space;
    let s1 = lcg_step(s);
    if lcg_out(s1) % 10 == 0 && written > 0 {
        (WriteOp::Delete { key_id: k }, lcg_step(s1))
    } else {
        let s2 = lcg_step(s1);
        (WriteOp::Put { key_id: k, len: values.pick(lcg_out(s2)) as usize }, lcg_step(s2))
    }
}

/// The next write of a seed wave.
pub fn wave_op(rng: &mut Lcg, key_space: u64, written: u64, values: &ByteRange) -> (r: WriteOp)
    requires
        key_space > 0,
        range_ok(*values),
    ensures
        (r, final(rng).0) == wave_op_of(old(rng).0, key_space, written, *values),
{
    let k = rng.next() % key_space;
    if rng.next() % 10 == 0 && written > 0 {
        WriteOp::Delete { key_id: k }
    } else {
        let len = values.sample(rng);
        WriteOp::Put { key_id: k, len }
    }
}

/// Any existing key, by index: dense seeded ids below `seeded`, scattered
/// inserts above.
pub open spec fn existing_key(r: u64, seeded: u64, inserted: u64, mask: u64) -> u64 {
    let j = (r % ((seeded + inserted) as u64)) as u64;
    if j < seeded {
        j
    } else {
        scattered(j, mask)
    }
}

/// One churn write from generator state `s`, with the insert count and
/// state after it: one time in ten a delete of an existing key (once
/// something was put), two in ten an insert of a fresh scattered key, else
/// an update of an existing key; with no keys yet, an insert.
pub open spec fn churn_op_of(s: u64, seeded: u64, inserted: u64, puts: u64, mask: u64, values: ByteRange) -> (
    WriteOp,
    u64,
    u64,
) {
    let roll = lcg_out(s) % 10;
    let s1 = lcg_step(s);
    if roll == 0 && puts > 0 {
        (WriteOp::Delete { key_id: existing_key(lcg_out(s1), seeded, inserted, mask) }, inserted, lcg_step(s1))
    } else if roll <= 2 || seeded + inserted == 0 {
        let k = scattered((seeded + inserted) as u64, mask);
        (WriteOp::Put { key_id: k, len: values.pick(lcg_out(s1)) as usize }, (inserted + 1) as u64, lcg_step(s1))
    } else {
        let k = existing_key(lcg_out(s1), seeded, inserted, mask);
        let s2 = lcg_step(s1);
        (WriteOp::Put { key_id: k, len: values.pick(lcg_out(s2)) as usize }, inserted, lcg_step(s2))
    }
}

/// The next write of the churn loop; `inserted` counts fresh keys.
pub fn churn_op(rng: &mut Lcg, seeded: u64, inserted: &mut u64, puts: u64, mask: u64, values: &ByteRange) -> (r:
    WriteOp)
    requires
        puts > 0 ==> seeded + *old(inserted) > 0,
        seeded + *old(inserted) < u64::MAX,
        range_ok(*values),
    ensures
        (r, *final(inserted), final(rng).0) == churn_op_of(old(rng).0, seeded, *old(inserted), puts, mask, *values),
{
    let roll = rng.next() % 10;
    if roll == 0 && puts > 0 {
        let r = rng.next();
        let j = r % (seeded + *inserted);
        let k = if j < seeded {
            j
        } else {
            scatter(j, mask)
        };
        WriteOp::Delete { key_id: k }
    } else if roll <= 2 || seeded + *inserted == 0 {
        *inserted = *inserted + 1;
        let k = scatter(seeded + *inserted - 1, mask);
        let len = values.sample(rng);
        WriteOp::Put { key_id: k, len }
    } else {
        let r = rng.next();
        let j = r % (seeded + *inserted);
        let k = if j < seeded {
            j
        } else {
            scatter(j, mask)
        };
        let len = values.sample(rng);
        WriteOp::Put { key_id: k, len }
    }
}


/// Bulk write batches stop growing at this many bytes.
pub const BULK_BATCH_BYTES: usize = 4194304;

/// Bulk write batches stop growing at this many entries.
pub const BULK_BATCH_MAX_ENTRIES: usize = 4096;

/// One bulk entry from generator state `s`: key, value and the state after.
pub open spec fn bulk_entry(s: u64, shape: Shape) -> (Seq<char>, Seq<u8>, u64) {
    let k = lcg_out(s) % shape.key_space;
    let key = key_text(shape.segments, shape.key_width, k);
    let s1 = lcg_step(s);
    let len = shape.values.pick(lcg_out(s1));
    let s2 = lcg_step(s1);
    let kb = crate::text::utf8(key);
    (key, bulk_value_of(s2, kb, len as nat), lcg_steps(s2, fill_draws(bulk_tag(kb).len(), len as nat)))
}

/// The entries of a bulk batch started at state `s` with `bytes` and `n`
/// entries already in it, with the batch's byte total and the state after.
pub open spec fn bulk_batch_of(s: u64, shape: Shape, bytes: nat, n: nat) -> (Seq<(Seq<char>, Seq<u8>)>, nat, u64)
    decreases BULK_BATCH_MAX_ENTRIES - n,
{
    if bytes >= BULK_BATCH_BYTES || n >= BULK_BATCH_MAX_ENTRIES {
        (seq![], bytes, s)
    } else {
        let e = bulk_entry(s, shape);
        let rest = bulk_batch_of(e.2, shape, bytes + crate::text::utf8(e.0).len() + e.1.len(), n + 1);
        (seq![(e.0, e.1)] + rest.0, rest.1, rest.2)
    }
}

/// Batch entries as (key text, value bytes).
pub open spec fn batch_views(v: Seq<(String, Vec<u8>)>) -> Seq<(Seq<char>, Seq<u8>)> {
    v.map_values(|e: (String, Vec<u8>)| (e.0@, e.1@))
}

proof fn lemma_utf8_len(s: Seq<char>)
    ensures
        crate::text::utf8(s).len() <= 4 * s.len(),
    decreases s.len(),
{
    if s.len() > 0 {
        lemma_utf8_len(s.drop_first());
    }
}

proof fn lemma_pad_len(s: Seq<char>, w: nat)
    ensures
        pad_zeros(s, w).len() == if s.len() >= w {
            s.len()
        } else {
            w
        },
{
}

proof fn lemma_key_text_len(segments: usize, width: usize, k: u64)
    ensures
        key_text(segments, width, k).len() <= width + 60,
{
    lemma_dec_len_bound(k as nat);
    lemma_pad_len(dec(k as nat), width as nat);
    if segments != 0 {
        lemma_dec_len_bound((k % segments as u64) as nat);
        lemma_pad_len(dec((k % segments as u64) as nat), 2);
        reveal_strlit("t");
        reveal_strlit("/user:");
    } else {
        reveal_strlit("user:");
    }
}

/// One batch of bulk writes: entries are drawn until the batch holds
/// `BULK_BATCH_BYTES` of keys and values or `BULK_BATCH_MAX_ENTRIES`
/// entries. Returns the entries and their byte total.
pub fn bulk_batch(rng: &mut Lcg, shape: &Shape) -> (r: (Vec<(String, Vec<u8>)>, usize))
    requires
        shape.key_space > 0,
        range_ok(shape.values),
        shape.values.max <= usize::MAX / 4,
        shape.key_width <= usize::MAX / 16,
    ensures
        bulk_batch_of(old(rng).0, *shape, 0, 0) == (batch_views(r.0@), r.1 as nat, final(rng).0),
{
    let ghost s0 = rng.0;
    let mut out: Vec<(String, Vec<u8>)> = Vec::new();
    let mut batch_bytes: usize = 0;
    let mut entries: usize = 0;
    proof {
        assert(batch_views(out@) + bulk_batch_of(s0, *shape, 0, 0).0 =~= bulk_batch_of(s0, *shape, 0, 0).0);
    }
    while batch_bytes < BULK_BATCH_BYTES && entries < BULK_BATCH_MAX_ENTRIES
        invariant
            shape.key_space > 0,
            range_ok(shape.values),
            shape.values.max <= usize::MAX / 4,
            shape.key_width <= usize::MAX / 16,
            entries <= BULK_BATCH_MAX_ENTRIES,
            batch_bytes <= BULK_BATCH_BYTES + usize::MAX / 4 + usize::MAX / 4 + 240,
            bulk_batch_of(s0, *shape, 0, 0) == ({
                let rest = bulk_batch_of(rng.0, *shape, batch_bytes as nat, entries as nat);
                (batch_views(out@) + rest.0, rest.1, rest.2)
            }),
        decreases BULK_BATCH_MAX_ENTRIES - entries,
    {
        let ghost st = rng.0;
        let ghost e = bulk_entry(st, *shape);
        let k = rng.next() % shape.key_space;
        let key = key_for(shape.segments, shape.key_width, k);
        let len = shape.values.sample(rng);
        let value = bulk_value(rng, key.as_str(), len);
        let key_len = key.as_str().len();
        proof {
            lemma_key_text_len(shape.segments, shape.key_width, k);
            lemma_utf8_len(key@);
            assert(key_len == crate::text::utf8(key@).len());
            assert(key_len <= 4 * (shape.key_width + 60));
            assert(value@.len() == len);
            assert(key@ == e.0);
            assert(value@ == e.1);
            assert(rng.0 == e.2);
        }
        batch_bytes = batch_bytes + key_len + value.len();
        let ghost before = out@;
        out.push((key, value));
        entries = entries + 1;
        proof {
            let rest = bulk_batch_of(rng.0, *shape, batch_bytes as nat, entries as nat);
            assert(batch_views(out@) =~= batch_views(before).push((e.0, e.1)));
            assert(batch_views(before) + (seq![(e.0, e.1)] + rest.0) =~= batch_views(out@) + rest.0);
        }
    }
    (out, batch_bytes)
}

/// How many demo DBs to run: the flag, else one in bulk mode and three
/// otherwise; at least one.
pub open spec fn db_count_of(dbs: Option<usize>, target_size: Option<u64>) -> Result<usize, Seq<char>> {
    let n = match dbs {
        Some(n) => n,
        None => if target_size is Some {
            1usize
        } else {
            3usize
        },
    };
    if n >= 1 {
        Ok(n)
    } else {
        Err("--dbs must be at least 1"@)
    }
}

pub open spec fn count_result_view(r: Result<usize, String>) -> Result<usize, Seq<char>> {
    match r {
        Ok(n) => Ok(n),
        Err(e) => Err(e@),
    }
}

/// The number of demo DBs to seed and churn.
pub fn db_count(dbs: Option<usize>, target_size: Option<u64>) -> (r: Result<usize, String>)
    ensures
        count_result_view(r) == db_count_of(dbs, target_size),
{
    let n: usize = match dbs {
        Some(n) => n,
        None => if target_size.is_some() {
            1
        } else {
            3
        },
    };
    if n >= 1 {
        Ok(n)
    } else {
        let msg = crate::text::chars_of("--dbs must be at least 1");
        Err(crate::text::string_from(&msg))
    }
}

/// The root path of demo DB `i` of `n`: the base path itself when there
/// is one DB, else the base path with `-1`..`-n` appended.
pub open spec fn db_path_of(base: Seq<char>, n: nat, i: nat) -> Seq<char> {
    if n == 1 {
        base
    } else {
        base + seq!['-'] + crate::text::dec(i + 1)
    }
}

/// The root paths of the `n` demo DBs.
pub fn db_paths(base: &str, n: usize) -> (r: Vec<String>)
    ensures
        r@.len() == n,
        forall|i: int| 0 <= i < n ==> (#[trigger] r@[i])@ == db_path_of(base@, n as nat, i as nat),
{
    let mut out: Vec<String> = Vec::new();
    let mut i: usize = 0;
    while i < n
        invariant
            i <= n,
            out@.len() == i,
            forall|q: int| 0 <= q < i ==> (#[trigger] out@[q])@ == db_path_of(base@, n as nat, q as nat),
        decreases n - i,
    {
        let mut cs: Vec<char> = Vec::new();
        crate::text::push_str(&mut cs, base);
        if n != 1 {
            cs.push('-');
            crate::text::push_dec(&mut cs, (i as u64) + 1);
        }
        assert(cs@ =~= db_path_of(base@, n as nat, i as nat));
        out.push(crate::text::string_from(&cs));
        i = i + 1;
    }
    out
}

/// Bytes written between live-size re-measurements in bulk seeding.
pub const BULK_TRANCHE_BYTES: u64 = 268435456;

/// How much the next bulk tranche writes: a full tranche, or what is left
/// to reach the target.
pub fn tranche_cap(live: u64, target: u64) -> (r: u64)
    requires
        live < target,
    ensures
        r == if target - live < BULK_TRANCHE_BYTES {
            (target - live) as u64
        } else {
            BULK_TRANCHE_BYTES
        },
        0 < r <= BULK_TRANCHE_BYTES,
{
    let left = target - live;
    if left < BULK_TRANCHE_BYTES {
        left
    } else {
        BULK_TRANCHE_BYTES
    }
}

/// Bytes stored beyond the live data: WAL plus garbage awaiting GC.
pub fn garbage_bytes(stored: u64, live: u64) -> (r: u64)
    ensures
        r == if stored > live {
            (stored - live) as u64
        } else {
            0
        },
{
    stored.saturating_sub(live)
}

/// Bulk seeding stops writing while the garbage exceeds the budget ...
pub fn must_pause(garbage: u64, budget: u64) -> (r: bool)
    ensures
        r == (garbage > budget),
{
    garbage > budget
}

/// ... and resumes once it is down to half the budget, so pauses do not
/// thrash.
pub fn may_resume(garbage: u64, budget: u64) -> (r: bool)
    ensures
        r == (garbage <= budget / 2),
        r ==> !(garbage > budget),
{
    garbage <= budget / 2
}

/// Where a bulk seed stands between its steps.
#[derive(Clone, Copy, Debug, PartialEq, Eq, Structural)]
pub struct BulkSeed {
    /// Live bytes the seed writes toward.
    pub target: u64,
    /// Garbage bytes tolerated before writes pause.
    pub budget: u64,
    /// Live bytes at the last measurement.
    pub live: u64,
    /// Bytes written in the current tranche.
    pub tranche: u64,
    /// Bytes the current tranche writes before measuring again.
    pub cap: u64,
    /// Bytes written over the whole seed.
    pub written: u64,
    /// Writes are paused until the garbage drains.
    pub draining: bool,
}

/// What the runner of a bulk seed reports back.
#[derive(Clone, Copy, Debug, PartialEq, Eq, Structural)]
pub enum BulkEvent {
    /// The seed began with `live` bytes already live.
    Started { live: u64 },
    /// One batch of `bytes` was written.
    Wrote { bytes: u64 },
    /// After a tranche: the memtable was flushed, and the live bytes and
    /// the bytes stored under the DB were measured.
    Measured { live: u64, stored: u64 },
    /// While paused: one GC pass ran, then live and stored bytes were
    /// measured.
    Drained { live: u64, stored: u64 },
    /// The seed was cancelled.
    Cancelled,
}

/// What the runner does next.
#[derive(Clone, Copy, Debug, PartialEq, Eq, Structural)]
pub enum BulkAction {
    /// The target was met before anything was written: one GC pass, done.
    AlreadyMet,
    /// Write one more batch.
    WriteBatch,
    /// The tranche is written: flush the memtable and measure.
    FlushAndMeasure,
    /// Over the garbage budget: run a GC pass and measure, after a pause
    /// when `wait`.
    Drain { wait: bool },
    /// Close the DB. Unless `interrupted`, then checkpoint when
    /// `checkpoint` and run one GC pass.
    Finish { interrupted: bool, checkpoint: bool },
}

/// The size of the next tranche toward `target` from `live` (< `target`).
pub open spec fn tranche_of(live: u64, target: u64) -> u64 {
    if target - live < BULK_TRANCHE_BYTES {
        (target - live) as u64
    } else {
        BULK_TRANCHE_BYTES
    }
}

/// After a measurement that does not pause: another tranche while below
/// the target, else done (checkpointing only when something was written).
pub open spec fn bulk_continue(s: BulkSeed) -> (BulkSeed, BulkAction) {
    if s.live < s.target {
        (BulkSeed { tranche: 0, cap: tranche_of(s.live, s.target), draining: false, ..s }, BulkAction::WriteBatch)
    } else {
        (s, BulkAction::Finish { interrupted: false, checkpoint: s.written > 0 })
    }
}

/// The next state of a bulk seed, and what to do, after event `e`.
pub open spec fn bulk_next(s: BulkSeed, e: BulkEvent) -> (BulkSeed, BulkAction) {
    match e {
        BulkEvent::Started { live } => if live >= s.target {
            (BulkSeed { live, ..s }, BulkAction::AlreadyMet)
        } else {
            (
                BulkSeed { live, tranche: 0, cap: tranche_of(live, s.target), written: 0, draining: false, ..s },
                BulkAction::WriteBatch,
            )
        },
        BulkEvent::Wrote { bytes } => {
            let t = (s.tranche + bytes) as u64;
            if t < s.cap {
                (BulkSeed { tranche: t, ..s }, BulkAction::WriteBatch)
            } else {
                (BulkSeed { tranche: 0, written: (s.written + t) as u64, ..s }, BulkAction::FlushAndMeasure)
            }
        },
        BulkEvent::Measured { live, stored } => {
            let g = if stored > live { stored - live } else { 0 };
            if g > s.budget {
                (BulkSeed { live, draining: true, ..s }, BulkAction::Drain { wait: false })
            } else {
                bulk_continue(BulkSeed { live, ..s })
            }
        },
        BulkEvent::Drained { live, stored } => {
            let g = if stored > live { stored - live } else { 0 };
            if g <= s.budget / 2 {
                bulk_continue(BulkSeed { draining: false, ..s })
            } else {
                (s, BulkAction::Drain { wait: true })
            }
        },
        BulkEvent::Cancelled => (s, BulkAction::Finish { interrupted: true, checkpoint: false }),
    }
}

/// The byte counts of a step stay within a `u64`: a batch added to the
/// tranche, and a finished tranche added to what was written.
pub open spec fn bulk_step_fits(s: BulkSeed, e: BulkEvent) -> bool {
    match e {
        BulkEvent::Wrote { bytes } => s.tranche + bytes <= u64::MAX && (s.tranche + bytes >= s.cap ==> s.written
            + s.tranche + bytes <= u64::MAX),
        _ => true,
    }
}

impl BulkSeed {
    /// A seed toward `target` live bytes with a garbage budget of `budget`.
    pub fn new(target: u64, budget: u64) -> (r: Self)
        ensures
            r == (BulkSeed { target, budget, live: 0, tranche: 0, cap: 0, written: 0, draining: false }),
    {
        BulkSeed { target, budget, live: 0, tranche: 0, cap: 0, written: 0, draining: false }
    }

    /// Whether `e` can be taken in this state without a byte count
    /// overflowing.
    pub fn fits(&self, e: &BulkEvent) -> (r: bool)
        ensures
            r == bulk_step_fits(*self, *e),
    {
        match e {
            BulkEvent::Wrote { bytes } => {
                let t = self.tranche as u128 + *bytes as u128;
                t <= u64::MAX as u128 && (t < self.cap as u128 || self.written as u128 + t <= u64::MAX as u128)
            },
            _ => true,
        }
    }

    /// Takes event `e`: writes in tranches toward the target, measuring
    /// after each; pauses when the garbage exceeds the budget and resumes
    /// once it is down to half; checkpoints at the end only when something
    /// was written; stops at once when cancelled.
    pub fn step(&mut self, e: BulkEvent) -> (a: BulkAction)
        requires
            bulk_step_fits(*old(self), e),
        ensures
            (*final(self), a) == bulk_next(*old(self), e),
            a matches BulkAction::Finish { checkpoint: true, .. } ==> final(self).written > 0,
            a is WriteBatch ==> final(self).tranche < final(self).cap,
            a is WriteBatch && !(e is Wrote) ==> final(self).live < final(self).target && !final(self).draining,
    {
        match e {
            BulkEvent::Started { live } => {
                self.live = live;
                if live >= self.target {
                    BulkAction::AlreadyMet
                } else {
                    self.tranche = 0;
                    self.cap = tranche_cap(live, self.target);
                    self.written = 0;
                    self.draining = false;
                    BulkAction::WriteBatch
                }
            },
            BulkEvent::Wrote { bytes } => {
                let t = self.tranche + bytes;
                if t < self.cap {
                    self.tranche = t;
                    BulkAction::WriteBatch
                } else {
                    self.tranche = 0;
                    self.written = self.written + t;
                    BulkAction::FlushAndMeasure
                }
            },
            BulkEvent::Measured { live, stored } => {
                let g = garbage_bytes(stored, live);
                self.live = live;
                if must_pause(g, self.budget) {
                    self.draining = true;
                    BulkAction::Drain { wait: false }
                } else {
                    self.resume()
                }
            },
            BulkEvent::Drained { live, stored } => {
                let g = garbage_bytes(stored, live);
                if may_resume(g, self.budget) {
                    self.draining = false;
                    self.resume()
                } else {
                    BulkAction::Drain { wait: true }
                }
            },
            BulkEvent::Cancelled => BulkAction::Finish { interrupted: true, checkpoint: false },
        }
    }

    fn resume(&mut self) -> (a: BulkAction)
        ensures
            (*final(self), a) == bulk_continue(*old(self)),
    {
        if self.live < self.target {
            self.tranche = 0;
            self.cap = tranche_cap(self.live, self.target);
            self.draining = false;
            BulkAction::WriteBatch
        } else {
            BulkAction::Finish { interrupted: false, checkpoint: self.written > 0 }
        }
    }
}

} // verus!
