//! The 64-bit xorshift generator that scatters objects in the physics worlds.
use vstd::prelude::*;

verus! {

/// Offset that separates a seed from the state it starts the generator in.
pub const SEED_OFFSET: u64 = 0x9E37_79B9_7F4A_7C15;

/// `x ^ (x << 13)`.
pub open spec fn mix_up13(x: u64) -> u64 {
    x ^ (x << 13u64)
}

/// `x ^ (x >> 7)`.
pub open spec fn mix_down7(x: u64) -> u64 {
    x ^ (x >> 7u64)
}

/// `x ^ (x << 17)`.
pub open spec fn mix_up17(x: u64) -> u64 {
    x ^ (x << 17u64)
}

/// One round of the generator: three shift-and-xor mixes in a row.
pub open spec fn round(x: u64) -> u64 {
    mix_up17(mix_down7(mix_up13(x)))
}

/// The state after `n` rounds from `x`.
pub open spec fn rounds(x: u64, n: nat) -> u64
    decreases n,
{
    if n == 0 {
        x
    } else {
        round(rounds(x, (n - 1) as nat))
    }
}

/// Undoes [`round`].
pub open spec fn unround(z: u64) -> u64 {
    let b = z ^ (z << 17u64) ^ (z << 34u64) ^ (z << 51u64);
    let a = b ^ (b >> 7u64) ^ (b >> 14u64) ^ (b >> 21u64) ^ (b >> 28u64) ^ (b >> 35u64) ^ (b
        >> 42u64) ^ (b >> 49u64) ^ (b >> 56u64) ^ (b >> 63u64);
    a ^ (a << 13u64) ^ (a << 26u64) ^ (a << 39u64) ^ (a << 52u64)
}

/// A xorshift generator; the tuple field is its whole state.
#[derive(Clone, Copy, Debug, PartialEq, Eq, Structural)]
pub struct XorShift(pub u64);

impl XorShift {
    /// Starts the generator for `seed`.
    pub fn new(seed: u64) -> (rng: Self)
        ensures
            rng.0 == (seed + SEED_OFFSET) % 0x1_0000_0000_0000_0000,
    {
        XorShift(seed.wrapping_add(SEED_OFFSET))
    }

    /// Advances one round and returns the new state.
    pub fn next(&mut self) -> (drawn: u64)
        ensures
            drawn == round(old(self).0),
            final(self).0 == drawn,
    {
        let mut x: u64 = self.0;
        x = x ^ (x << 13);
        x = x ^ (x >> 7);
        x = x ^ (x << 17);
        self.0 = x;
        x
    }
}

/// The `n` numbers that a generator in state `x` draws after it has skipped `k` lots of `n`.
pub open spec fn lot(x: u64, k: nat, n: nat) -> Seq<u64> {
    Seq::new(n, |i: int| rounds(x, (k * n + i + 1) as nat))
}

/// Lot `k` made something that was turned down.
pub open spec fn turned_down<P, M: Fn(&Vec<u64>) -> P, F: Fn(&P) -> bool>(
    x: u64,
    k: nat,
    n: nat,
    make: M,
    fits: F,
) -> bool {
    exists|draws: Vec<u64>, p: P|
        {
            &&& draws@ == lot(x, k, n)
            &&& #[trigger] make.ensures((&draws,), p)
            &&& fits.ensures((&p,), false)
        }
}

/// Lot `k` made `p`, which was taken.
pub open spec fn taken<P, M: Fn(&Vec<u64>) -> P, F: Fn(&P) -> bool>(
    x: u64,
    k: nat,
    n: nat,
    make: M,
    fits: F,
    p: P,
) -> bool {
    exists|draws: Vec<u64>|
        {
            &&& draws@ == lot(x, k, n)
            &&& #[trigger] make.ensures((&draws,), p)
            &&& fits.ensures((&p,), true)
        }
}

/// Lot `k` was the first that was taken.
pub open spec fn first_taken<P, M: Fn(&Vec<u64>) -> P, F: Fn(&P) -> bool>(
    x: u64,
    k: nat,
    n: nat,
    make: M,
    fits: F,
    p: P,
) -> bool {
    &&& taken(x, k, n, make, fits, p)
    &&& forall|j: nat| j < k ==> #[trigger] turned_down(x, j, n, make, fits)
}

impl XorShift {
    /// Draws `n` numbers.
    pub fn draw(&mut self, n: usize) -> (draws: Vec<u64>)
        ensures
            draws@ == lot(old(self).0, 0, n as nat),
            final(self).0 == rounds(old(self).0, n as nat),
    {
        let mut draws: Vec<u64> = Vec::new();
        for i in 0..n
            invariant
                draws@ =~= lot(old(self).0, 0, i as nat),
                self.0 == rounds(old(self).0, i as nat),
        {
            let drawn: u64 = self.next();
            draws.push(drawn);
        }
        draws
    }

    /// Draws lots of `n` numbers until what `make` makes of one fits, and gives up after
    /// `tries` lots.
    pub fn draw_until<P, M: Fn(&Vec<u64>) -> P, F: Fn(&P) -> bool>(
        &mut self,
        n: usize,
        tries: u64,
        make: M,
        fits: F,
    ) -> (found: Option<P>)
        requires
            forall|draws: &Vec<u64>| #[trigger] make.requires((draws,)),
            forall|p: &P| #[trigger] fits.requires((p,)),
        ensures
            match found {
                Some(p) => exists|k: nat|
                    #![trigger first_taken(old(self).0, k, n as nat, make, fits, p)]
                    {
                        &&& k < tries
                        &&& first_taken(old(self).0, k, n as nat, make, fits, p)
                        &&& final(self).0 == rounds(old(self).0, (k + 1) * n as nat)
                    },
                None => {
                    &&& final(self).0 == rounds(old(self).0, tries as nat * n as nat)
                    &&& forall|j: nat|
                        j < tries ==> #[trigger] turned_down(old(self).0, j, n as nat, make, fits)
                },
            },
    {
        let mut found: Option<P> = None;
        let mut k: u64 = 0;
        assert(0 * n as nat == 0);
        while k < tries && found.is_none()
            invariant
                k <= tries,
                forall|draws: &Vec<u64>| #[trigger] make.requires((draws,)),
                forall|p: &P| #[trigger] fits.requires((p,)),
                self.0 == rounds(old(self).0, k as nat * n as nat),
                match found {
                    Some(p) => k > 0 && first_taken(
                        old(self).0,
                        (k - 1) as nat,
                        n as nat,
                        make,
                        fits,
                        p,
                    ),
                    None => forall|j: nat|
                        j < k ==> #[trigger] turned_down(old(self).0, j, n as nat, make, fits),
                },
            decreases tries - k,
        {
            let ghost before = self.0;
            let draws = self.draw(n);
            proof {
                let start = old(self).0;
                let skipped = k as nat * n as nat;
                assert((k + 1) * n == k * n + n) by (nonlinear_arith);
                lemma_rounds_join(start, skipped, n as nat);
                assert forall|i: int| 0 <= i < n implies #[trigger] draws@[i] == lot(
                    start,
                    k as nat,
                    n as nat,
                )[i] by {
                    lemma_rounds_join(start, skipped, (i + 1) as nat);
                }
                assert(draws@ =~= lot(start, k as nat, n as nat));
            }
            let p = make(&draws);
            if fits(&p) {
                assert(taken(old(self).0, k as nat, n as nat, make, fits, p));
                found = Some(p);
            } else {
                assert(turned_down(old(self).0, k as nat, n as nat, make, fits));
            }
            k = k + 1;
        }
        proof {
            if found is Some {
                let last = (k - 1) as nat;
                assert(first_taken(old(self).0, last, n as nat, make, fits, found->0));
            }
        }
        found
    }
}

/// Rounds add up.
proof fn lemma_rounds_join(x: u64, a: nat, b: nat)
    ensures
        rounds(rounds(x, a), b) == rounds(x, a + b),
    decreases b,
{
    if b > 0 {
        lemma_rounds_join(x, a, (b - 1) as nat);
    }
}

/// [`unround`] takes every state back to the one before it, so no two states share a
/// successor.
pub proof fn law_round_is_invertible(x: u64)
    ensures
        unround(round(x)) == x,
{
    assert({
        let a = x ^ (x << 13u64);
        a ^ (a << 13u64) ^ (a << 26u64) ^ (a << 39u64) ^ (a << 52u64) == x
    }) by (bit_vector);
    let a = mix_up13(x);
    assert({
        let b = a ^ (a >> 7u64);
        b ^ (b >> 7u64) ^ (b >> 14u64) ^ (b >> 21u64) ^ (b >> 28u64) ^ (b >> 35u64) ^ (b >> 42u64)
            ^ (b >> 49u64) ^ (b >> 56u64) ^ (b >> 63u64) == a
    }) by (bit_vector);
    let b = mix_down7(a);
    assert({
        let z = b ^ (b << 17u64);
        z ^ (z << 17u64) ^ (z << 34u64) ^ (z << 51u64) == b
    }) by (bit_vector);
}

/// Zero is the only state whose successor is zero, and it is stuck there: a generator that
/// starts anywhere else never draws zero.
pub proof fn law_zero_is_isolated(x: u64, n: nat)
    ensures
        rounds(x, n) == 0 <==> x == 0,
    decreases n,
{
    if n > 0 {
        let p = rounds(x, (n - 1) as nat);
        law_zero_is_isolated(x, (n - 1) as nat);
        law_round_is_invertible(p);
        law_round_is_invertible(0);
        assert(round(0) == 0) by {
            assert(0u64 ^ (0u64 << 13u64) == 0u64) by (bit_vector);
            assert(0u64 ^ (0u64 >> 7u64) == 0u64) by (bit_vector);
            assert(0u64 ^ (0u64 << 17u64) == 0u64) by (bit_vector);
        }
    }
}

/// Generators that start in different states stay in different states.
pub proof fn law_streams_never_merge(x: u64, y: u64, n: nat)
    requires
        x != y,
    ensures
        rounds(x, n) != rounds(y, n),
    decreases n,
{
    if n > 0 {
        law_streams_never_merge(x, y, (n - 1) as nat);
        law_round_is_invertible(rounds(x, (n - 1) as nat));
        law_round_is_invertible(rounds(y, (n - 1) as nat));
    }
}

/// Lots follow one another: the next one is what is drawn from where the last one left off.
pub proof fn law_lots_follow_one_another(x: u64, k: nat, n: nat, i: int)
    requires
        0 <= i < n,
    ensures
        lot(x, k, n).len() == n,
        lot(x, k, n)[i] == lot(rounds(x, k * n), 0, n)[i],
        lot(x, 0, n)[0] == round(x),
        i + 1 < n ==> lot(x, k, n)[i + 1] == round(lot(x, k, n)[i]),
{
    let from = rounds(x, k * n);
    assert(0 * n == 0) by (nonlinear_arith);
    lemma_rounds_join(x, k * n, (i + 1) as nat);
    assert(rounds(x, 0) == x);
    assert(rounds(x, 1) == round(rounds(x, 0)));
}

} // verus!
