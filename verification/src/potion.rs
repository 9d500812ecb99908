use vstd::prelude::*;
use vstd::arithmetic::div_mod::{lemma_div_denominator, lemma_fundamental_div_mod};
use vstd::arithmetic::power2::{lemma2_to64, lemma_pow2_adds, lemma_pow2_strictly_increases, lemma_pow2_unfold, pow2};
use vstd::bits::{lemma_u128_shr_is_div, lemma_u64_shl_is_mul};

verus! {

/// Points of one resource that a potion yields when it is thrown away unsold.
pub const FAIL_POINTS: i32 = 10;

/// Rarities are weights counted in millionths of all orders.
pub const RARITY_UNIT: u32 = 1_000_000;

/// The factor by which a potion's ingredients turn into points when it is
/// sold: a double-precision number, held as its exact value
/// `mantissa * 2^exponent` (every finite double is one such value, with
/// `|mantissa| < 2^53`).
#[derive(Clone, Copy, Debug)]
pub struct Multiplier {
    pub mantissa: i64,
    pub exponent: i32,
}

/// The finite double whose IEEE 754 bits are `bits`, as a multiplier:
/// sign bit, 11 exponent bits and 52 fraction bits; `None` for an infinity
/// or a NaN (all exponent bits set).
pub open spec fn double_from_bits(bits: u64) -> Option<Multiplier> {
    let sign = bits / 0x8000_0000_0000_0000;
    let e = (bits / 0x10_0000_0000_0000) % 0x800;
    let f = bits % 0x10_0000_0000_0000;
    let magnitude: int = if e == 0 { f as int } else { f + 0x10_0000_0000_0000 };
    if e == 0x7ff {
        None
    } else {
        Some(
            Multiplier {
                mantissa: (if sign == 1 { -magnitude } else { magnitude }) as i64,
                exponent: (if e == 0 { -1074 } else { e - 1075 }) as i32,
            },
        )
    }
}

impl Multiplier {
    /// The multiplier that the double with the IEEE 754 bits `bits` stands
    /// for (see `double_from_bits`).
    pub fn from_bits(bits: u64) -> (r: Option<Multiplier>)
        ensures
            r == double_from_bits(bits),
            r matches Some(m) ==> multiplier_ok(m),
    {
        let sign: u64 = bits / 0x8000_0000_0000_0000;
        let e: u64 = (bits / 0x10_0000_0000_0000) % 0x800;
        let f: u64 = bits % 0x10_0000_0000_0000;
        if e == 0x7ff {
            return None;
        }
        let magnitude: i64 = if e == 0 {
            f as i64
        } else {
            (f + 0x10_0000_0000_0000) as i64
        };
        let mantissa: i64 = if sign == 1 {
            -magnitude
        } else {
            magnitude
        };
        let exponent: i32 = if e == 0 {
            -1074
        } else {
            (e as i32) - 1075
        };
        Some(Multiplier { mantissa, exponent })
    }
}

/// One potion recipe: what it costs, what it earns when an order asks for it,
/// what it earns when it is thrown away, how often it is ordered, and the
/// ids that its copies carry in an inventory (three, one per copy).
#[derive(Debug, Clone)]
pub struct Potion {
    pub name: String,
    pub input_mox: i32,
    pub input_aga: i32,
    pub input_lye: i32,
    pub output_mox: i32,
    pub output_aga: i32,
    pub output_lye: i32,
    pub output_mox_fail: i32,
    pub output_aga_fail: i32,
    pub output_lye_fail: i32,
    /// How often the potion is ordered, in millionths of all orders.
    pub rarity: u32,
    pub id_range: Vec<i32>,
}

/// `p / d` rounded toward zero, as a cast of a real number to an integer
/// rounds.
pub open spec fn trunc_div(p: int, d: int) -> int {
    if p >= 0 {
        p / d
    } else {
        -((-p) / d)
    }
}

/// `x` clamped into the range of `i32`, as a cast to `i32` saturates.
pub open spec fn saturate(x: int) -> int {
    if x < i32::MIN {
        i32::MIN as int
    } else if x > i32::MAX {
        i32::MAX as int
    } else {
        x
    }
}

/// A multiplier is a double: its mantissa has at most 53 bits.
pub open spec fn multiplier_ok(m: Multiplier) -> bool {
    -0x20_0000_0000_0000 < m.mantissa < 0x20_0000_0000_0000
}

/// How many low bits of `n` fall below the 53 bits that a double keeps.
pub open spec fn dropped_bits(n: nat) -> nat
    decreases n,
{
    if n < pow2(53) {
        0
    } else {
        proof {
            vstd::arithmetic::power2::lemma_pow2_pos(53);
        }
        1 + dropped_bits(n / 2)
    }
}

/// `n` rounded to 53 significant bits, to the nearest and, on a tie, to the
/// one whose last kept bit is even: how a double holds a number.
pub open spec fn round_to_double(n: nat) -> nat {
    let d = pow2(dropped_bits(n));
    let q = n / d;
    let r = n % d;
    if 2 * r > d || (2 * r == d && q % 2 == 1) {
        (q + 1) * d
    } else {
        q * d
    }
}

/// The magnitude of the double product `amount * m`, truncated toward zero.
pub open spec fn product_magnitude(amount: int, m: Multiplier) -> int {
    let p = amount * m.mantissa;
    let n = round_to_double((if p < 0 { -p } else { p }) as nat);
    if m.exponent >= 0 {
        (n * pow2(m.exponent as nat)) as int
    } else {
        (n / pow2((-m.exponent) as nat)) as int
    }
}

/// What `amount` ingredients are worth when sold at `m`: the product
/// `amount as f64 * m` as double arithmetic rounds it (to the nearest, ties
/// to even), then cast to `i32` (truncating toward zero, saturating).
pub open spec fn scaled(amount: int, m: Multiplier) -> int {
    let t = product_magnitude(amount, m);
    saturate(if amount * m.mantissa < 0 { -t } else { t })
}

/// The points that a thrown-away potion yields, per resource: `FAIL_POINTS`
/// of lye if the recipe uses lye, else of aga if it uses aga, else of mox.
pub open spec fn fail_points(mox: int, aga: int, lye: int) -> (int, int, int) {
    if lye > 0 {
        (0, 0, FAIL_POINTS as int)
    } else if aga > 0 {
        (0, FAIL_POINTS as int, 0)
    } else {
        (FAIL_POINTS as int, 0, 0)
    }
}

impl Potion {
    /// The ingredients of the recipe, as a triple (mox, aga, lye).
    pub open spec fn inputs(&self) -> (int, int, int) {
        (self.input_mox as int, self.input_aga as int, self.input_lye as int)
    }

    /// The points that a sale earns, as a triple (mox, aga, lye).
    pub open spec fn outputs(&self) -> (int, int, int) {
        (self.output_mox as int, self.output_aga as int, self.output_lye as int)
    }

    /// The points that throwing the potion away earns, as a triple.
    pub open spec fn fail_outputs(&self) -> (int, int, int) {
        (self.output_mox_fail as int, self.output_aga_fail as int, self.output_lye_fail as int)
    }
}

/// Where a thrown-away potion's points go, by the signs of its
/// ingredients: all to lye when the recipe uses lye, whatever its other
/// amounts; else all to aga when it uses aga; else all to mox. Exactly one
/// resource gets `FAIL_POINTS`.
pub proof fn law_fail_points(mox: int, aga: int, lye: int)
    ensures
        lye > 0 ==> fail_points(mox, aga, lye) == (0int, 0int, FAIL_POINTS as int),
        lye <= 0 && aga > 0 ==> fail_points(mox, aga, lye) == (0int, FAIL_POINTS as int, 0int),
        lye <= 0 && aga <= 0 ==> fail_points(mox, aga, lye) == (FAIL_POINTS as int, 0int, 0int),
        ({
            let f = fail_points(mox, aga, lye);
            f.0 + f.1 + f.2 == FAIL_POINTS && f.0 >= 0 && f.1 >= 0 && f.2 >= 0
        }),
{
}

/// Hands out the ids of new potions, three at a time, in the order in which
/// the potions are made.
#[derive(Debug)]
pub struct IdAllocator {
    pub next: i32,
}

impl IdAllocator {
    /// An allocator whose first potion gets the ids 0, 1 and 2.
    pub fn new() -> (ids: IdAllocator)
        ensures
            ids.next == 0,
    {
        IdAllocator { next: 0 }
    }
}

impl Potion {
    /// Makes a potion from its recipe. The three ids come from `ids`, which
    /// moves on by three (wrapping, as a counter does).
    pub fn new(
        name: &str,
        mox: i32,
        aga: i32,
        lye: i32,
        multiplier: Multiplier,
        rarity: u32,
        ids: &mut IdAllocator,
    ) -> (p: Potion)
        requires
            multiplier_ok(multiplier),
            old(ids).next <= i32::MAX - 2,
        ensures
            p.name@ == name@,
            p.inputs() == (mox as int, aga as int, lye as int),
            p.outputs() == (
                scaled(mox as int, multiplier),
                scaled(aga as int, multiplier),
                scaled(lye as int, multiplier),
            ),
            p.fail_outputs() == fail_points(mox as int, aga as int, lye as int),
            lye > 0 ==> p.output_mox_fail == 0 && p.output_aga_fail == 0 && p.output_lye_fail == FAIL_POINTS,
            lye <= 0 && aga > 0 ==> p.output_mox_fail == 0 && p.output_aga_fail == FAIL_POINTS && p.output_lye_fail == 0,
            lye <= 0 && aga <= 0 ==> p.output_mox_fail == FAIL_POINTS && p.output_aga_fail == 0 && p.output_lye_fail == 0,
            p.rarity == rarity,
            p.id_range@ == ids_from(old(ids).next),
            final(ids).next == old(ids).next.wrapping_add(3),
    {
        let potion_no = ids.next;
        ids.next = potion_no.wrapping_add(3);
        let mut output_mox_fail: i32 = 0;
        let mut output_aga_fail: i32 = 0;
        let mut output_lye_fail: i32 = 0;
        if lye > 0 {
            output_lye_fail = FAIL_POINTS;
        } else if aga > 0 {
            output_aga_fail = FAIL_POINTS;
        } else {
            output_mox_fail = FAIL_POINTS;
        }
        let mut id_range: Vec<i32> = Vec::new();
        id_range.push(potion_no);
        id_range.push(potion_no + 1);
        id_range.push(potion_no + 2);
        Potion {
            name: name.to_owned(),
            input_mox: mox,
            input_aga: aga,
            input_lye: lye,
            output_mox: scale(mox, multiplier),
            output_aga: scale(aga, multiplier),
            output_lye: scale(lye, multiplier),
            output_mox_fail,
            output_aga_fail,
            output_lye_fail,
            rarity,
            id_range,
        }
    }
}

/// `n` split into its 53 leading bits `q` and the `2^s` it is scaled by:
/// `q = n / 2^s` with `s = dropped_bits(n)`.
fn split_bits(n: u128) -> (r: (u128, u128))
    requires
        n < 0x100_0000_0000_0000_0000_0000,
    ensures
        r.1 == pow2(dropped_bits(n as nat)),
        r.0 == n as nat / pow2(dropped_bits(n as nat)),
        r.1 >= 1,
        r.1 <= 0x100_0000_0000_0000_0000_0000,
        r.0 * r.1 <= n,
        r.1 == 1 || r.1 <= n,
{
    proof {
        lemma2_to64();
        lemma_pow2_adds(32, 21);
    }
    let mut q: u128 = n;
    let mut d: u128 = 1;
    let ghost mut s: nat = 0;
    while q >= 0x20_0000_0000_0000
        invariant
            n < 0x100_0000_0000_0000_0000_0000,
            pow2(53) == 0x20_0000_0000_0000,
            d == pow2(s),
            d >= 1,
            q == n as nat / d as nat,
            q * d <= n,
            d == 1 || d <= n,
            dropped_bits(n as nat) == s + dropped_bits(q as nat),
        decreases q,
    {
        proof {
            lemma_div_denominator(n as int, d as int, 2);
            lemma_pow2_unfold(s + 1);
            assert(d <= n) by (nonlinear_arith)
                requires
                    q * d <= n,
                    q >= 1,
                    d >= 1,
            ;
        }
        assert(dropped_bits(q as nat) == 1 + dropped_bits((q / 2) as nat));
        q = q / 2;
        d = d * 2;
        proof {
            s = s + 1;
            assert(q * d <= n) by (nonlinear_arith)
                requires
                    q == n as nat / d as nat,
                    d >= 1,
            ;
            assert(q >= 1);
            assert(d <= n) by (nonlinear_arith)
                requires
                    q * d <= n,
                    q >= 1,
            ;
        }
    }
    assert(dropped_bits(q as nat) == 0);
    (q, d)
}

/// The magnitude of the double product (see `product_magnitude`) when it
/// fits in `u128`, or `None` when it is at least `2^32`.
fn product_magnitude_exec(amount: i32, m: Multiplier) -> (r: Option<u128>)
    requires
        multiplier_ok(m),
    ensures
        r matches Some(t) ==> t == product_magnitude(amount as int, m),
        r is None ==> product_magnitude(amount as int, m) >= 0x1_0000_0000,
{
    assert(-0x8000_0000 * 0x20_0000_0000_0000 <= amount * m.mantissa <= 0x8000_0000 * 0x20_0000_0000_0000)
        by (nonlinear_arith)
        requires
            -0x8000_0000 <= amount < 0x8000_0000,
            -0x20_0000_0000_0000 < m.mantissa < 0x20_0000_0000_0000,
    ;
    let p: i128 = amount as i128 * m.mantissa as i128;
    let n: u128 = if p < 0 {
        (-p) as u128
    } else {
        p as u128
    };
    let (q, d) = split_bits(n);
    let r: u128 = n - q * d;
    proof {
        lemma_fundamental_div_mod(n as int, d as int);
        assert((d as int) * (q as int) == (q as int) * (d as int)) by (nonlinear_arith);
    }
    assert(r == n as nat % d as nat);
    assert(q * d + r == n);
    let rounded: u128 = if 2 * r > d || (2 * r == d && q % 2 == 1) {
        assert(r < d);
        assert((q + 1) * d == q * d + d) by (nonlinear_arith);
        (q + 1) * d
    } else {
        q * d
    };
    assert(rounded as nat == round_to_double(n as nat));
    assert(rounded <= 2 * 0x100_0000_0000_0000_0000_0000) by {
        assert((q + 1) * d == q * d + d) by (nonlinear_arith);
    }
    proof {
        lemma2_to64();
    }
    if m.exponent >= 0 {
        if rounded == 0 {
            assert(0 * pow2(m.exponent as nat) == 0);
            return Some(0);
        }
        if m.exponent >= 32 {
            proof {
                if m.exponent > 32 {
                    lemma_pow2_strictly_increases(32, m.exponent as nat);
                }
                assert(rounded * pow2(m.exponent as nat) >= pow2(32)) by (nonlinear_arith)
                    requires
                        rounded >= 1,
                        pow2(m.exponent as nat) >= pow2(32),
                ;
            }
            return None;
        }
        let e: u64 = m.exponent as u64;
        proof {
            lemma_pow2_strictly_increases(e as nat, 32);
            lemma_u64_shl_is_mul(1, e);
        }
        let f: u64 = 1u64 << e;
        assert(f == pow2(e as nat));
        assert(rounded * f <= 2 * 0x100_0000_0000_0000_0000_0000 * 0x1_0000_0000) by (nonlinear_arith)
            requires
                rounded <= 2 * 0x100_0000_0000_0000_0000_0000,
                f <= 0x1_0000_0000,
        ;
        Some(rounded * (f as u128))
    } else {
        let k: i64 = -(m.exponent as i64);
        if k >= 128 {
            proof {
                lemma_pow2_adds(64, 64);
                if k > 128 {
                    lemma_pow2_strictly_increases(128, k as nat);
                }
                assert(rounded as nat / pow2(k as nat) == 0) by (nonlinear_arith)
                    requires
                        (rounded as nat) < pow2(k as nat),
                ;
            }
            return Some(0);
        }
        proof {
            lemma_u128_shr_is_div(rounded, k as u128);
        }
        Some(rounded >> (k as u128))
    }
}

/// `amount` ingredients sold at `m` (see `scaled`).
pub fn scale(amount: i32, m: Multiplier) -> (r: i32)
    requires
        multiplier_ok(m),
    ensures
        r == scaled(amount as int, m),
{
    let negative: bool = (amount < 0 && m.mantissa > 0) || (amount > 0 && m.mantissa < 0);
    let ghost a = amount as int;
    let ghost b = m.mantissa as int;
    assert(a < 0 && b > 0 ==> a * b < 0) by (nonlinear_arith);
    assert(a > 0 && b < 0 ==> a * b < 0) by (nonlinear_arith);
    assert(a >= 0 && b >= 0 ==> a * b >= 0) by (nonlinear_arith);
    assert(a <= 0 && b <= 0 ==> a * b >= 0) by (nonlinear_arith);
    assert(negative == (amount * m.mantissa < 0));
    match product_magnitude_exec(amount, m) {
        None => {
            if negative {
                i32::MIN
            } else {
                i32::MAX
            }
        },
        Some(t) => {
            if negative {
                if t >= 0x8000_0000 {
                    i32::MIN
                } else {
                    -(t as i32)
                }
            } else {
                if t > 0x7fff_ffff {
                    i32::MAX
                } else {
                    t as i32
                }
            }
        },
    }
}

/// The three ids that a potion made at counter value `n` carries.
pub open spec fn ids_from(n: i32) -> Seq<i32> {
    seq![n, (n + 1) as i32, (n + 2) as i32]
}

/// Potions made one after the other from one allocator that has not wrapped
/// get disjoint ids: the ranges made from counter values `a` and `b`, with
/// `b` three or more past `a`, share no id.
pub proof fn law_distinct_ids(a: i32, b: i32)
    requires
        a + 3 <= b <= i32::MAX - 2,
    ensures
        forall|x: i32| #[trigger] ids_from(a).contains(x) ==> !ids_from(b).contains(x),
{
    assert forall|x: i32| #[trigger] ids_from(a).contains(x) implies !ids_from(b).contains(x) by {
        let s = ids_from(a);
        let t = ids_from(b);
        let i = choose|i: int| 0 <= i < s.len() && s[i] == x;
        assert(x < b);
        if t.contains(x) {
            let j = choose|j: int| 0 <= j < t.len() && t[j] == x;
            assert(x >= b);
        }
    }
}


/// The allocator's counter after `m` potions were made from it, starting
/// at `start`.
pub open spec fn counter_after(start: i32, m: nat) -> i32
    decreases m,
{
    if m == 0 {
        start
    } else {
        counter_after(start, (m - 1) as nat).wrapping_add(3)
    }
}

/// The counter of a fresh allocator stands at `3 * i` after `i` potions,
/// as long as it has not wrapped.
pub proof fn lemma_counter_after(i: nat)
    requires
        3 * i <= i32::MAX,
    ensures
        counter_after(0, i) == 3 * i,
    decreases i,
{
    if i > 0 {
        lemma_counter_after((i - 1) as nat);
    }
}

/// Making `m` potions from a fresh allocator (`3 * m` within `i32`) leaves
/// its counter at `3 * m`; the `i`-th potion gets the ids `3i, 3i + 1,
/// 3i + 2`; the ranges of different potions share no id; and together they
/// are exactly the ids `0 .. 3m`, so each id has one owner.
pub proof fn law_allocator_partition(m: nat)
    requires
        3 * m <= i32::MAX,
    ensures
        counter_after(0, m) == 3 * m,
        forall|i: nat| i < m ==> #[trigger] counter_after(0, i) == 3 * i,
        forall|i: nat, j: nat, x: i32|
            i < m && j < m && i != j && #[trigger] ids_from(counter_after(0, i)).contains(x) ==> !#[trigger] ids_from(
                counter_after(0, j),
            ).contains(x),
        forall|x: i32|
            0 <= x < 3 * m ==> #[trigger] owner_index(x) < m && ids_from(counter_after(0, owner_index(x))).contains(x),
        forall|i: nat, x: i32| i < m && #[trigger] ids_from(counter_after(0, i)).contains(x) ==> 0 <= x < 3 * m,
{
    lemma_counter_after(m);
    assert forall|i: nat| i < m implies #[trigger] counter_after(0, i) == 3 * i by {
        lemma_counter_after(i);
    }
    assert forall|i: nat, j: nat, x: i32|
        i < m && j < m && i != j && #[trigger] ids_from(counter_after(0, i)).contains(x) implies !#[trigger] ids_from(
            counter_after(0, j),
        ).contains(x) by {
        lemma_counter_after(i);
        lemma_counter_after(j);
        let a = ids_from(counter_after(0, i));
        let k = choose|k: int| 0 <= k < a.len() && a[k] == x;
        assert(3 * i <= x <= 3 * i + 2);
        if ids_from(counter_after(0, j)).contains(x) {
            let b = ids_from(counter_after(0, j));
            let l = choose|l: int| 0 <= l < b.len() && b[l] == x;
            assert(3 * j <= x <= 3 * j + 2);
        }
    }
    assert forall|x: i32| 0 <= x < 3 * m implies #[trigger] owner_index(x) < m && ids_from(
        counter_after(0, owner_index(x)),
    ).contains(x) by {
        let i = owner_index(x);
        lemma_counter_after(i);
        let a = ids_from(counter_after(0, i));
        assert(a[(x as int) % 3] == x);
    }
    assert forall|i: nat, x: i32| i < m && #[trigger] ids_from(counter_after(0, i)).contains(x) implies 0 <= x < 3
        * m by {
        lemma_counter_after(i);
        let a = ids_from(counter_after(0, i));
        let k = choose|k: int| 0 <= k < a.len() && a[k] == x;
    }
}

/// The potion, counted from zero, whose ids hold `x` when potions are made
/// from a fresh allocator.
pub open spec fn owner_index(x: i32) -> nat {
    (x / 3) as nat
}

} // verus!
