//! A xorshift64* pseudo-random generator: the integer state machine.
//!
//! The state is a nonzero `u64`. Each step applies three xor-shifts to the
//! state and returns the new state multiplied (wrapping) by an odd constant.
//! A state of 0 would stay 0 forever, so seeding with 0 is refused, and a
//! nonzero state never becomes 0.
//!
//! Draws of other kinds are built on `next_u64`; a generator also keeps one
//! cached draw, stored as raw bits, for samplers that produce values in
//! pairs.
use vstd::prelude::*;

verus! {

/// The multiplier of the output function.
pub const ODD_CONSTANT: u64 = 0x2545_F491_4F6C_DD1Du64;

/// One xorshift step on the state.
pub open spec fn xorshift_step(x: u64) -> u64 {
    let x1 = x ^ (x >> 12u64);
    let x2 = x1 ^ (x1 << 25u64);
    x2 ^ (x2 >> 27u64)
}

/// The output for a (new) state: the state times `ODD_CONSTANT`, wrapping.
pub open spec fn xorshift_output(x: u64) -> u64 {
    ((x as nat * ODD_CONSTANT as nat) % 0x1_0000_0000_0000_0000) as u64
}

/// The state after `k` steps from `s`.
pub open spec fn state_after(s: u64, k: nat) -> u64
    decreases k,
{
    if k == 0 {
        s
    } else {
        xorshift_step(state_after(s, (k - 1) as nat))
    }
}

/// The outputs of `n` successive draws from state `s`: draw `i` is the
/// output of the state after `i + 1` steps.
pub open spec fn stream(s: u64, n: nat) -> Seq<u64> {
    Seq::new(n, |i: int| xorshift_output(state_after(s, (i + 1) as nat)))
}

/// `outs` are the results of successive `next_u64` calls, and `states` the
/// generator's states before the first call and after each one, related as
/// `next_u64` relates them.
pub open spec fn is_draw_history(states: Seq<u64>, outs: Seq<u64>) -> bool {
    &&& states.len() == outs.len() + 1
    &&& forall|i: int|
        0 <= i < outs.len() ==> states[i + 1] == xorshift_step(states[i]) && #[trigger] outs[i]
            == xorshift_output(states[i + 1])
}

/// The generator: its state and at most one cached draw.
pub struct Rng {
    state: u64,
    cache: Option<u64>,
}

impl Rng {
    /// The current state.
    pub closed spec fn state_view(&self) -> u64 {
        self.state
    }

    /// The cached draw, as raw bits.
    pub closed spec fn cache_view(&self) -> Option<u64> {
        self.cache
    }

    /// A generator whose state is `s`, with an empty cache.
    ///
    /// A seed of 0 is a caller error: the generator would be stuck at 0.
    pub fn seed(s: u64) -> (r: Self)
        requires
            s != 0,
        ensures
            r.state_view() == s,
            r.cache_view() == None::<u64>,
    {
        Rng { state: s, cache: None }
    }

    /// Advance the state one step and return its output.
    pub fn next_u64(&mut self) -> (out: u64)
        ensures
            final(self).state_view() == xorshift_step(old(self).state_view()),
            out == xorshift_output(final(self).state_view()),
            final(self).cache_view() == old(self).cache_view(),
    {
        let mut x = self.state;
        x = x ^ (x >> 12u64);
        x = x ^ (x << 25u64);
        x = x ^ (x >> 27u64);
        self.state = x;
        let out = x.wrapping_mul(ODD_CONSTANT);
        out
    }

    /// The top 53 bits of the next draw: an integer in `[0, 2^53)`, which a
    /// float sampler divides by `2^53` for a uniform value in `[0, 1)`.
    pub fn next_bits53(&mut self) -> (out: u64)
        ensures
            final(self).state_view() == xorshift_step(old(self).state_view()),
            out == xorshift_output(final(self).state_view()) >> 11u64,
            out < 0x20_0000_0000_0000u64,
            final(self).cache_view() == old(self).cache_view(),
    {
        let x = self.next_u64();
        let out = x >> 11u64;
        assert(x >> 11u64 < 0x20_0000_0000_0000u64) by (bit_vector);
        out
    }

    /// Take the cached draw out, leaving the cache empty.
    pub fn take_cached(&mut self) -> (c: Option<u64>)
        ensures
            c == old(self).cache_view(),
            final(self).cache_view() == None::<u64>,
            final(self).state_view() == old(self).state_view(),
    {
        let c = self.cache;
        self.cache = None;
        c
    }

    /// Store a draw in the cache.
    pub fn set_cached(&mut self, bits: u64)
        ensures
            final(self).cache_view() == Some(bits),
            final(self).state_view() == old(self).state_view(),
    {
        self.cache = Some(bits);
    }
}

/// A step never maps a nonzero state to 0, and maps 0 to 0: each of the
/// three xor-shifts is invertible.
pub proof fn lemma_step_nonzero(x: u64)
    ensures
        x != 0 <==> xorshift_step(x) != 0,
{
    let x1 = x ^ (x >> 12u64);
    let x2 = x1 ^ (x1 << 25u64);
    let x3 = x2 ^ (x2 >> 27u64);
    assert(x != 0 <==> x1 != 0) by (bit_vector)
        requires
            x1 == x ^ (x >> 12u64),
    ;
    assert(x1 != 0 <==> x2 != 0) by (bit_vector)
        requires
            x2 == x1 ^ (x1 << 25u64),
    ;
    assert(x2 != 0 <==> x3 != 0) by (bit_vector)
        requires
            x3 == x2 ^ (x2 >> 27u64),
    ;
}

/// From a nonzero seed the state stays nonzero after any number of steps.
pub proof fn lemma_state_stays_nonzero(s: u64, k: nat)
    requires
        s != 0,
    ensures
        state_after(s, k) != 0,
    decreases k,
{
    if k > 0 {
        lemma_state_stays_nonzero(s, (k - 1) as nat);
        lemma_step_nonzero(state_after(s, (k - 1) as nat));
    }
}

/// Successive draws follow the stream of the state they start from: `n`
/// calls of `next_u64` from state `s` return `stream(s, n)`, passing through
/// the states `s` after 1, 2, ..., `n` steps.
pub proof fn law_draws_follow_stream(states: Seq<u64>, outs: Seq<u64>)
    requires
        is_draw_history(states, outs),
    ensures
        outs == stream(states[0], outs.len()),
        forall|i: int| 0 <= i < states.len() ==> #[trigger] states[i] == state_after(states[0], i as nat),
{
    lemma_history_states(states, outs, outs.len() as int);
    assert forall|i: int| 0 <= i < outs.len() implies #[trigger] outs[i] == stream(
        states[0],
        outs.len(),
    )[i] by {
        assert(outs[i] == xorshift_output(states[i + 1]));
        assert(states[i + 1] == state_after(states[0], (i + 1) as nat));
    }
    assert(outs =~= stream(states[0], outs.len()));
}

/// The states of a history are the steps from its first state.
proof fn lemma_history_states(states: Seq<u64>, outs: Seq<u64>, k: int)
    requires
        is_draw_history(states, outs),
        0 <= k <= outs.len(),
    ensures
        forall|i: int| 0 <= i <= k ==> #[trigger] states[i] == state_after(states[0], i as nat),
    decreases k,
{
    if k > 0 {
        lemma_history_states(states, outs, k - 1);
        assert(outs[k - 1] == xorshift_output(states[k]));
        assert(states[k - 1] == state_after(states[0], (k - 1) as nat));
        assert(state_after(states[0], k as nat) == xorshift_step(state_after(states[0], (k - 1) as nat)));
    }
}

/// Same seed, same stream: two generators that start from the same state
/// return the same sequence of draws, however many are taken.
pub proof fn law_same_state_same_draws(
    states_a: Seq<u64>,
    outs_a: Seq<u64>,
    states_b: Seq<u64>,
    outs_b: Seq<u64>,
)
    requires
        is_draw_history(states_a, outs_a),
        is_draw_history(states_b, outs_b),
        states_a[0] == states_b[0],
        outs_a.len() == outs_b.len(),
    ensures
        outs_a == outs_b,
        states_a == states_b,
{
    law_draws_follow_stream(states_a, outs_a);
    law_draws_follow_stream(states_b, outs_b);
    assert(states_a =~= states_b) by {
        assert forall|i: int| 0 <= i < states_a.len() implies states_a[i] == states_b[i] by {
            assert(states_a[i] == state_after(states_a[0], i as nat));
            assert(states_b[i] == state_after(states_b[0], i as nat));
        }
    }
}

/// The inverse of a step: undo the three xor-shifts in reverse order. A
/// right xor-shift by `k` is undone by xoring in the shifts by `k`, `2k`,
/// `3k`, ... of the result, and likewise for a left xor-shift.
pub open spec fn xorshift_unstep(y: u64) -> u64 {
    let x2 = y ^ (y >> 27u64) ^ (y >> 54u64);
    let x1 = x2 ^ (x2 << 25u64) ^ (x2 << 50u64);
    x1 ^ (x1 >> 12u64) ^ (x1 >> 24u64) ^ (x1 >> 36u64) ^ (x1 >> 48u64) ^ (x1 >> 60u64)
}

/// Undoing `y = x ^ (x >> 27)`.
proof fn lemma_unshift_right_27(x: u64)
    ensures
        ({
            let y = x ^ (x >> 27u64);
            y ^ (y >> 27u64) ^ (y >> 54u64)
        }) == x,
{
    assert(({
        let y = x ^ (x >> 27u64);
        y ^ (y >> 27u64) ^ (y >> 54u64)
    }) == x) by (bit_vector);
}

/// Undoing `y = x ^ (x << 25)`.
proof fn lemma_unshift_left_25(x: u64)
    ensures
        ({
            let y = x ^ (x << 25u64);
            y ^ (y << 25u64) ^ (y << 50u64)
        }) == x,
{
    assert(({
        let y = x ^ (x << 25u64);
        y ^ (y << 25u64) ^ (y << 50u64)
    }) == x) by (bit_vector);
}

/// Undoing `y = x ^ (x >> 12)`.
proof fn lemma_unshift_right_12(x: u64)
    ensures
        ({
            let y = x ^ (x >> 12u64);
            y ^ (y >> 12u64) ^ (y >> 24u64) ^ (y >> 36u64) ^ (y >> 48u64) ^ (y >> 60u64)
        }) == x,
{
    assert(({
        let y = x ^ (x >> 12u64);
        y ^ (y >> 12u64) ^ (y >> 24u64) ^ (y >> 36u64) ^ (y >> 48u64) ^ (y >> 60u64)
    }) == x) by (bit_vector);
}

/// The state step is the xorshift64 step on all 64 bits: undoing its three
/// xor-shifts (`>> 27`, then `<< 25`, then `>> 12`, each on the full word)
/// gives back the state, so the step is a bijection of the 64-bit states
/// and no two states step to one.
pub proof fn law_step_is_undone(x: u64)
    ensures
        xorshift_unstep(xorshift_step(x)) == x,
{
    let x1 = x ^ (x >> 12u64);
    let x2 = x1 ^ (x1 << 25u64);
    lemma_unshift_right_27(x2);
    lemma_unshift_left_25(x1);
    lemma_unshift_right_12(x);
}

/// Two states that step to the same state are equal.
pub proof fn law_step_injective(x: u64, y: u64)
    requires
        xorshift_step(x) == xorshift_step(y),
    ensures
        x == y,
{
    law_step_is_undone(x);
    law_step_is_undone(y);
}

} // verus!
