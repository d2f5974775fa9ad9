//! A small random number generator, and the inputs made with it.
use vstd::prelude::*;

verus! {

/// The state of the generator after `state`.
pub open spec fn xorshift(state: u32) -> u32 {
    let a = state ^ (state << 13u32);
    let b = a ^ (a >> 17u32);
    b ^ (b << 5u32)
}

/// The state of the generator `n` numbers after `state`.
pub open spec fn xorshift_n(state: u32, n: nat) -> u32
    decreases n,
{
    if n == 0 {
        state
    } else {
        xorshift(xorshift_n(state, (n - 1) as nat))
    }
}

/// A generator of 32-bit numbers.
#[derive(Clone, Copy, PartialEq, Eq, Structural, Debug)]
pub struct XorRng {
    pub state: u32,
}

impl XorRng {
    /// A generator that starts from `seed`, or from another state if that is zero.
    pub fn new(seed: u32) -> (rng: XorRng)
        ensures
            rng == Self::seeded(seed),
    {
        XorRng {
            state: if seed == 0 {
                0xffff_ffff
            } else {
                seed
            },
        }
    }

    pub open spec fn seeded(seed: u32) -> XorRng {
        XorRng {
            state: if seed == 0 {
                0xffff_ffff
            } else {
                seed
            },
        }
    }

    /// Mixes a number into the state.
    pub fn mix_in(&mut self, seed: u32)
        ensures
            *final(self) == (XorRng { state: old(self).state ^ seed }),
    {
        self.state = self.state ^ seed;
    }

    /// The next number.
    pub fn gen(&mut self) -> (x: u32)
        ensures
            x == xorshift(old(self).state),
            *final(self) == (XorRng { state: xorshift(old(self).state) }),
    {
        let mut x: u32 = self.state;
        x = x ^ (x << 13u32);
        x = x ^ (x >> 17u32);
        x = x ^ (x << 5u32);
        self.state = x;
        x
    }
}

/// A generator that is not in the zero state never gets there.
pub proof fn law_no_way_to_zero(state: u32)
    requires
        state != 0,
    ensures
        xorshift(state) != 0,
{
    let a = state ^ (state << 13u32);
    let b = a ^ (a >> 17u32);
    assert(a != 0) by (bit_vector)
        requires
            a == state ^ (state << 13u32),
            state != 0,
    ;
    assert(b != 0) by (bit_vector)
        requires
            b == a ^ (a >> 17u32),
            a != 0,
    ;
    assert(b ^ (b << 5u32) != 0) by (bit_vector)
        requires
            b != 0,
    ;
}

/// A new generator is not in the zero state.
pub proof fn law_seeds_are_not_zero(seed: u32)
    ensures
        XorRng::seeded(seed).state != 0,
{
}

/// The size that a random number stands for: small, middling or large.
pub open spec fn size_from(x: u32) -> int {
    let t = x as int % 1_000_000;
    if t > 500_000 {
        t % 20
    } else if t > 250_000 {
        t % 1000
    } else {
        t % 100_000
    }
}

/// A random size.
pub fn gen_size(rng: &mut XorRng) -> (size: usize)
    ensures
        size == size_from(xorshift(old(rng).state)),
        *final(rng) == (XorRng { state: xorshift(old(rng).state) }),
{
    let t: usize = (rng.gen() as usize) % 1_000_000;
    if t > 500_000 {
        return t % 20;
    }
    if t > 250_000 {
        return t % 1000;
    }
    t % 100_000
}

/// The next `count` numbers.
pub open spec fn numbers(state: u32, count: nat) -> Seq<u64> {
    Seq::new(count, |i: int| xorshift_n(state, (i + 1) as nat) as u64)
}

/// The next `count` numbers.
pub fn gen_data(rng: &mut XorRng, count: usize) -> (data: Vec<u64>)
    ensures
        data@ == numbers(old(rng).state, count as nat),
        *final(rng) == (XorRng { state: xorshift_n(old(rng).state, count as nat) }),
{
    let mut data: Vec<u64> = Vec::new();
    let mut i: usize = 0;
    while i < count
        invariant
            i <= count,
            data@ =~= numbers(old(rng).state, i as nat),
            rng.state == xorshift_n(old(rng).state, i as nat),
        decreases count - i,
    {
        data.push(rng.gen() as u64);
        i = i + 1;
    }
    data
}

/// An update of an auxiliary item by a random number, by a number of its own, and by the
/// item of the data that it refers to.
#[derive(Clone, Copy)]
pub struct Mutator<'a> {
    rng: XorRng,
    xref: &'a u64,
    x: u64,
}

/// What a mutator makes of an item. `state` is the state of its generator.
pub open spec fn mutated(state: u32, xref: u64, x: u64, item: u64) -> u64 {
    item ^ x ^ xref ^ (xorshift(state) as u64)
}

impl<'a> Mutator<'a> {
    /// The state of the generator.
    pub closed spec fn state(self) -> u32 {
        self.rng.state
    }

    /// The item of the data.
    pub closed spec fn xref(self) -> u64 {
        *self.xref
    }

    /// The number of its own.
    pub closed spec fn x(self) -> u64 {
        self.x
    }

    pub fn new(rng: XorRng, xref: &'a u64, x: u64) -> (mutator: Mutator<'a>)
        ensures
            mutator.state() == rng.state,
            mutator.xref() == *xref,
            mutator.x() == x,
    {
        Mutator { rng, xref, x }
    }

    /// Updates an auxiliary item.
    pub fn mutate(&mut self, item: &mut u64)
        ensures
            *final(item) == mutated(
                old(self).state(),
                old(self).xref(),
                old(self).x(),
                *old(item),
            ),
            final(self).state() == xorshift(old(self).state()),
            final(self).xref() == old(self).xref(),
            final(self).x() == old(self).x(),
    {
        *item = *item ^ self.x ^ *self.xref ^ (self.rng.gen() as u64);
    }

    /// A random index below `max`, if there is one.
    pub fn aux_item(&mut self, max: usize) -> (index: Option<usize>)
        ensures
            max == 0 ==> index is None && *final(self) == *old(self),
            max > 0 ==> index == Some((xorshift(old(self).state()) as usize % max) as usize),
            max > 0 ==> final(self).state() == xorshift(old(self).state()),
            final(self).xref() == old(self).xref(),
            final(self).x() == old(self).x(),
    {
        if max == 0 {
            return None;
        }
        Some((self.rng.gen() as usize) % max)
    }

    /// The generator as it is now.
    pub fn rng(&self) -> (rng: XorRng)
        ensures
            rng.state == self.state(),
    {
        self.rng
    }
}

/// Numbers of the generator taken one after the other are the numbers taken at once.
pub proof fn law_numbers_go_on(state: u32, m: nat, n: nat)
    ensures
        xorshift_n(xorshift_n(state, m), n) == xorshift_n(state, m + n),
    decreases n,
{
    if n > 0 {
        law_numbers_go_on(state, m, (n - 1) as nat);
        assert((m + n - 1) as nat == m + (n - 1) as nat);
    }
}

/// A size is below twenty, below a thousand or below a hundred thousand, depending on the six
/// last digits of the number that it is made of, and differs from them by a multiple of that
/// bound.
pub proof fn law_sizes(rng: &mut XorRng, size: usize)
    requires
        call_ensures(gen_size, (rng,), size),
    ensures
        ({
            let digits = xorshift(old(rng).state) as int % 1_000_000;
            &&& digits > 500_000 ==> size < 20 && (digits - size) % 20 == 0
            &&& 250_000 < digits <= 500_000 ==> size < 1000 && (digits - size) % 1000 == 0
            &&& digits <= 250_000 ==> size < 100_000 && (digits - size) % 100_000 == 0
        }),
        final(rng).state == xorshift(old(rng).state),
{
}

/// The number `n` of the generator that starts from `seed`, or from all ones if that is zero. The
/// first one has number one.
pub open spec fn drawn(seed: u32, n: int) -> u32 {
    xorshift_n(
        if seed == 0 {
            0xffff_ffff
        } else {
            seed
        },
        n as nat,
    )
}

/// The first numbers.
pub proof fn lemma_drawn(seed: u32)
    ensures
        drawn(seed, 1) == xorshift(XorRng::seeded(seed).state),
        drawn(seed, 2) == xorshift(drawn(seed, 1)),
        drawn(seed, 3) == xorshift(drawn(seed, 2)),
        drawn(seed, 0) == XorRng::seeded(seed).state,
{
    reveal_with_fuel(xorshift_n, 4);
}

/// The numbers that are drawn from a state that was itself drawn.
pub proof fn lemma_numbers_drawn(seed: u32, m: int, count: int)
    requires
        m >= 0,
        count >= 0,
    ensures
        numbers(drawn(seed, m), count as nat) == Seq::new(
            count as nat,
            |i: int| drawn(seed, m + 1 + i) as u64,
        ),
        xorshift_n(drawn(seed, m), count as nat) == drawn(seed, m + count),
{
    let start = drawn(seed, 0);
    law_numbers_go_on(start, m as nat, count as nat);
    let taken = numbers(drawn(seed, m), count as nat);
    assert forall|i: int| 0 <= i < count implies #[trigger] taken[i] == drawn(
        seed,
        m + 1 + i,
    ) as u64 by {
        law_numbers_go_on(start, m as nat, (i + 1) as nat);
    }
    assert(taken =~= Seq::new(count as nat, |i: int| drawn(seed, m + 1 + i) as u64));
}

} // verus!
