//! Seeded xorshift64* generator.
//!
//! Benchmark fixtures must be reproducible across platforms. The generator is
//! tiny, deterministic and good enough for synthetic audio and noise.
use vstd::prelude::*;

verus! {

/// State for the xorshift64* generator. Zero is an invalid seed.
#[derive(Debug, Clone, Copy)]
pub struct XorShift64Star {
    state: u64,
}

/// One step of the generator's state.
pub open spec fn xorshift(x: u64) -> u64 {
    let a = x ^ (x >> 12u64);
    let b = a ^ (a << 25u64);
    b ^ (b >> 27u64)
}

/// The value drawn at a state: the state times a constant, modulo `2^64`.
pub open spec fn drawn(state: u64) -> u64 {
    ((state as nat * 0x2545_F491_4F6C_DD1D) % 0x1_0000_0000_0000_0000) as u64
}

/// Root seed and salt mixed into the state of a derived generator.
pub open spec fn derived_state(state: u64, salt: u64) -> u64 {
    let mixed = state ^ (((salt as nat * 0x9E37_79B9_7F4A_7C15) % 0x1_0000_0000_0000_0000) as u64);
    if mixed == 0 {
        0x9E37_79B9_7F4A_7C15
    } else {
        mixed
    }
}

impl View for XorShift64Star {
    type V = u64;

    closed spec fn view(&self) -> u64 {
        self.state
    }
}

impl XorShift64Star {
    /// The state is never zero.
    pub open spec fn wf(&self) -> bool {
        self@ != 0
    }

    /// Create a generator from a non-zero seed (xorshift cannot recover from
    /// an all-zero state).
    pub fn new(seed: u64) -> (rng: Self)
        requires
            seed != 0,
        ensures
            rng.wf(),
            rng@ == seed,
    {
        XorShift64Star { state: seed }
    }

    /// Derive a generator for one of many fixtures of a root seed.
    pub fn derive(&self, salt: u64) -> (rng: Self)
        requires
            self.wf(),
        ensures
            rng.wf(),
            rng@ == derived_state(self@, salt),
    {
        let mixed: u64 = self.state ^ salt.wrapping_mul(0x9E37_79B9_7F4A_7C15);
        if mixed == 0 {
            XorShift64Star { state: 0x9E37_79B9_7F4A_7C15 }
        } else {
            XorShift64Star { state: mixed }
        }
    }

    /// Next raw 64-bit value.
    pub fn next_u64(&mut self) -> (v: u64)
        requires
            old(self).wf(),
        ensures
            final(self).wf(),
            final(self)@ == xorshift(old(self)@),
            v == drawn(xorshift(old(self)@)),
    {
        let x: u64 = self.state;
        let a: u64 = x ^ (x >> 12);
        let b: u64 = a ^ (a << 25);
        let c: u64 = b ^ (b >> 27);
        proof {
            lemma_xorshift_nonzero(x);
        }
        self.state = c;
        c.wrapping_mul(0x2545_F491_4F6C_DD1D)
    }

    /// The 24 high bits of the next value: the numerator of a uniform
    /// fraction of `2^24`.
    pub fn next_u24(&mut self) -> (v: u32)
        requires
            old(self).wf(),
        ensures
            final(self).wf(),
            final(self)@ == xorshift(old(self)@),
            v == drawn(xorshift(old(self)@)) / 0x100_0000_0000,
            v < 0x100_0000,
    {
        let raw: u64 = self.next_u64();
        (raw / 0x100_0000_0000) as u32
    }
}

impl Default for XorShift64Star {
    fn default() -> (rng: Self)
        ensures
            rng.wf(),
            rng@ == 0x5163_3E2D_3F17_A1B9,
    {
        XorShift64Star::new(0x5163_3E2D_3F17_A1B9)
    }
}

proof fn lemma_xorshift_nonzero(x: u64)
    requires
        x != 0,
    ensures
        xorshift(x) != 0,
{
    let a = x ^ (x >> 12u64);
    let b = a ^ (a << 25u64);
    let c = b ^ (b >> 27u64);
    assert(a != 0) by (bit_vector)
        requires
            a == x ^ (x >> 12u64),
            x != 0,
    ;
    assert(b != 0) by (bit_vector)
        requires
            b == a ^ (a << 25u64),
            a != 0,
    ;
    assert(c != 0) by (bit_vector)
        requires
            c == b ^ (b >> 27u64),
            b != 0,
    ;
}

/// The states that a seed runs through.
pub open spec fn state_after(seed: u64, n: nat) -> u64
    decreases n,
{
    if n == 0 {
        seed
    } else {
        xorshift(state_after(seed, (n - 1) as nat))
    }
}

/// A generator never gets stuck at zero, however long it runs.
pub proof fn law_generator_never_dies(seed: u64, n: nat)
    requires
        seed != 0,
    ensures
        state_after(seed, n) != 0,
    decreases n,
{
    if n > 0 {
        law_generator_never_dies(seed, (n - 1) as nat);
        lemma_xorshift_nonzero(state_after(seed, (n - 1) as nat));
    }
}

/// Multiplication modulo `2^64` is undone by multiplication with an inverse.
proof fn lemma_multiplied_back(x: u64, m: int, inverse: int, turns: int)
    requires
        m * inverse == turns * 0x1_0000_0000_0000_0000 + 1,
    ensures
        ((x * m) % 0x1_0000_0000_0000_0000) * inverse % 0x1_0000_0000_0000_0000 == x,
{
    let r = 0x1_0000_0000_0000_0000int;
    vstd::arithmetic::div_mod::lemma_mul_mod_noop_left(x * m, inverse, r);
    assert((x * m) * inverse == r * (x * turns) + x) by (nonlinear_arith)
        requires
            m * inverse == turns * r + 1,
    ;
    vstd::arithmetic::div_mod::lemma_mod_multiples_vanish(x * turns, x as int, r);
}

/// Different states draw different values.
proof fn lemma_drawn_injective(a: u64, b: u64)
    requires
        drawn(a) == drawn(b),
    ensures
        a == b,
{
    let turns = 934034299265436267int;
    assert(0x2545_F491_4F6C_DD1Dint * 0x5907_1D96_D81E_CD35int == turns
        * 0x1_0000_0000_0000_0000int + 1);
    lemma_multiplied_back(a, 0x2545_F491_4F6C_DD1D, 0x5907_1D96_D81E_CD35, turns);
    lemma_multiplied_back(b, 0x2545_F491_4F6C_DD1D, 0x5907_1D96_D81E_CD35, turns);
}

/// Different states stay different.
proof fn lemma_xorshift_injective(x: u64, y: u64)
    requires
        xorshift(x) == xorshift(y),
    ensures
        x == y,
{
    let (ax, ay) = (x ^ (x >> 12u64), y ^ (y >> 12u64));
    let (bx, b_y) = (ax ^ (ax << 25u64), ay ^ (ay << 25u64));
    assert(bx == b_y) by (bit_vector)
        requires
            bx ^ (bx >> 27u64) == b_y ^ (b_y >> 27u64),
    ;
    assert(ax == ay) by (bit_vector)
        requires
            ax ^ (ax << 25u64) == ay ^ (ay << 25u64),
    ;
    assert(x == y) by (bit_vector)
        requires
            x ^ (x >> 12u64) == y ^ (y >> 12u64),
    ;
}

/// No generator ever draws zero, however long it runs.
pub proof fn law_draws_are_never_zero(seed: u64, n: nat)
    requires
        seed != 0,
    ensures
        drawn(state_after(seed, n)) != 0,
{
    law_generator_never_dies(seed, n);
    assert(drawn(0) == 0);
    if drawn(state_after(seed, n)) == 0 {
        lemma_drawn_injective(state_after(seed, n), 0);
    }
}

/// Two generators that once draw the same value are in the same state, and
/// draw the same values from then on.
pub proof fn law_equal_draws_mean_equal_streams(a: u64, b: u64, n: nat)
    requires
        drawn(xorshift(a)) == drawn(xorshift(b)),
    ensures
        a == b,
        drawn(state_after(a, n)) == drawn(state_after(b, n)),
{
    lemma_drawn_injective(xorshift(a), xorshift(b));
    lemma_xorshift_injective(a, b);
}

/// Generators derived with different salts draw different first values, where
/// neither salt cancels the root; and the salt zero keeps the root's stream.
pub proof fn law_salts_change_the_stream(root: u64, s: u64, t: u64)
    requires
        root != 0,
        s != t,
        root != ((s as nat * 0x9E37_79B9_7F4A_7C15) % 0x1_0000_0000_0000_0000) as u64,
        root != ((t as nat * 0x9E37_79B9_7F4A_7C15) % 0x1_0000_0000_0000_0000) as u64,
    ensures
        drawn(xorshift(derived_state(root, s))) != drawn(xorshift(derived_state(root, t))),
        derived_state(root, 0) == root,
{
    let ms = ((s as nat * 0x9E37_79B9_7F4A_7C15) % 0x1_0000_0000_0000_0000) as u64;
    let mt = ((t as nat * 0x9E37_79B9_7F4A_7C15) % 0x1_0000_0000_0000_0000) as u64;
    let turns = 10771413168148108919int;
    assert(0x9E37_79B9_7F4A_7C15int * 0xF1DE_83E1_9937_733Dint == turns
        * 0x1_0000_0000_0000_0000int + 1);
    lemma_multiplied_back(s, 0x9E37_79B9_7F4A_7C15, 0xF1DE_83E1_9937_733D, turns);
    lemma_multiplied_back(t, 0x9E37_79B9_7F4A_7C15, 0xF1DE_83E1_9937_733D, turns);
    assert(ms != mt);
    assert(root ^ ms != 0 && root ^ mt != 0 && root ^ ms != root ^ mt) by (bit_vector)
        requires
            root != ms,
            root != mt,
            ms != mt,
    ;
    assert(root ^ 0u64 == root) by (bit_vector);
    if drawn(xorshift(derived_state(root, s))) == drawn(xorshift(derived_state(root, t))) {
        law_equal_draws_mean_equal_streams(derived_state(root, s), derived_state(root, t), 0);
    }
}

/// How a generator steps and draws: three shifts, by 12, 25 and 27 bits, each
/// mixed in by exclusive or; a value is the state times 2685821657736338717;
/// a derived state mixes in the salt times 11400714819323198485, and is that
/// number where nothing would be left. All are reduced to 64 bits.
pub proof fn law_generators_step_and_draw(x: u64, a: u64, b: u64, salt: u64)
    requires
        a == x ^ (x >> 12),
        b == a ^ (a << 25),
    ensures
        xorshift(x) == b ^ (b >> 27),
        drawn(x) as int == (x as int * 2_685_821_657_736_338_717) % 18_446_744_073_709_551_616,
        ({
            let mixed = x ^ (((salt as int * 11_400_714_819_323_198_485)
                % 18_446_744_073_709_551_616) as u64);
            derived_state(x, salt) == if mixed == 0 {
                11_400_714_819_323_198_485u64
            } else {
                mixed
            }
        }),
{
}

} // verus!
