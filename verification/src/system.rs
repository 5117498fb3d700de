//! The chain state: the current block number and, for every account, the
//! number of transactions it has made (its nonce).
//!
//! Both counters are 32 bits wide and saturate: once a counter has reached
//! `u32::MAX` a further increment leaves it there. They never wrap and
//! never decrease.

use crate::account_map::AccountMap;
use vstd::prelude::*;

verus! {

/// The state of the chain as a mathematical value.
#[verifier::ext_equal]
pub struct ChainState {
    /// The current block number.
    pub block_number: u32,
    /// The stored nonces. An account without an entry has nonce zero.
    pub nonces: Map<Seq<char>, u32>,
}

/// One more than `n`, or `u32::MAX` if `n` has reached it.
pub open spec fn next_count(n: u32) -> u32 {
    if n < u32::MAX {
        (n + 1) as u32
    } else {
        n
    }
}

impl ChainState {
    /// The state of a chain on which nothing has happened yet.
    pub open spec fn initial() -> ChainState {
        ChainState { block_number: 0, nonces: Map::empty() }
    }

    /// The nonce of `who`: the stored one, or zero without one.
    pub open spec fn nonce_of(self, who: Seq<char>) -> u32 {
        if self.nonces.contains_key(who) {
            self.nonces[who]
        } else {
            0
        }
    }

    /// The state after one more block.
    pub open spec fn inc_block_number(self) -> ChainState {
        ChainState { block_number: next_count(self.block_number), ..self }
    }

    /// The state after one more transaction of `who`.
    pub open spec fn inc_nonce(self, who: Seq<char>) -> ChainState {
        ChainState { nonces: self.nonces.insert(who, next_count(self.nonce_of(who))), ..self }
    }

    /// The state after `n` more blocks.
    pub open spec fn inc_block_number_times(self, n: nat) -> ChainState
        decreases n,
    {
        if n == 0 {
            self
        } else {
            self.inc_block_number_times((n - 1) as nat).inc_block_number()
        }
    }

    /// The state after `n` more transactions of `who`.
    pub open spec fn inc_nonce_times(self, who: Seq<char>, n: nat) -> ChainState
        decreases n,
    {
        if n == 0 {
            self
        } else {
            self.inc_nonce_times(who, (n - 1) as nat).inc_nonce(who)
        }
    }
}

/// `count + n`, or `u32::MAX` where that is smaller.
pub open spec fn count_after(count: u32, n: nat) -> u32 {
    if count + n < u32::MAX {
        (count + n) as u32
    } else {
        u32::MAX
    }
}

/// After `n` more blocks the block number has grown by `n`, up to
/// `u32::MAX`, and no nonce has changed. On a chain that starts at block
/// zero the block number is then `n` itself for every `n` up to `u32::MAX`.
pub proof fn lemma_block_number_after(state: ChainState, n: nat)
    ensures
        state.inc_block_number_times(n).block_number == count_after(state.block_number, n),
        state.inc_block_number_times(n).nonces == state.nonces,
        n <= u32::MAX ==> ChainState::initial().inc_block_number_times(n).block_number == n,
    decreases n,
{
    if n > 0 {
        lemma_block_number_after(state, (n - 1) as nat);
        lemma_block_number_after(ChainState::initial(), (n - 1) as nat);
    }
}

/// After `n` more transactions of `who` its nonce has grown by `n`, up to
/// `u32::MAX`; no other nonce and not the block number has changed. For an
/// account that starts without a nonce it is then `n` itself for every `n`
/// up to `u32::MAX`.
pub proof fn lemma_nonce_after(state: ChainState, who: Seq<char>, n: nat)
    ensures
        state.inc_nonce_times(who, n).nonce_of(who) == count_after(state.nonce_of(who), n),
        forall|other: Seq<char>|
            other != who ==> state.inc_nonce_times(who, n).nonce_of(other) == state.nonce_of(other),
        state.inc_nonce_times(who, n).block_number == state.block_number,
        n <= u32::MAX && !state.nonces.contains_key(who) ==> state.inc_nonce_times(
            who,
            n,
        ).nonce_of(who) == n,
    decreases n,
{
    if n > 0 {
        lemma_nonce_after(state, who, (n - 1) as nat);
    }
}

/// Neither counter ever decreases.
pub proof fn lemma_counters_never_decrease(state: ChainState, who: Seq<char>, other: Seq<char>)
    ensures
        state.inc_block_number().block_number >= state.block_number,
        state.inc_nonce(who).nonce_of(other) >= state.nonce_of(other),
        state.inc_nonce(who).block_number == state.block_number,
        state.inc_block_number().nonces == state.nonces,
{
}

/// The chain state: the block height and the nonce of every account.
pub struct Pallet {
    /// The current block number.
    block_number: u32,
    /// The nonce of each account that has made a transaction.
    nonce: AccountMap<u32>,
}

impl View for Pallet {
    type V = ChainState;

    closed spec fn view(&self) -> ChainState {
        ChainState { block_number: self.block_number, nonces: self.nonce@ }
    }
}

impl Pallet {
    /// A chain state at block zero on which no account has a nonce.
    pub fn new() -> (system: Self)
        ensures
            system@ == ChainState::initial(),
            system@.block_number == 0,
            forall|who: Seq<char>| system@.nonce_of(who) == 0,
    {
        Pallet { block_number: 0, nonce: AccountMap::new() }
    }

    /// The current block number.
    pub fn block_number(&self) -> (n: u32)
        ensures
            n == self@.block_number,
    {
        self.block_number
    }

    /// Advances the block number by one. At `u32::MAX` it stays where it
    /// is.
    pub fn inc_block_number(&mut self)
        ensures
            final(self)@ == old(self)@.inc_block_number(),
            old(self)@.block_number < u32::MAX ==> final(self)@.block_number == old(
                self,
            )@.block_number + 1,
            final(self)@.block_number >= old(self)@.block_number,
    {
        self.block_number = self.block_number.saturating_add(1);
    }

    /// The nonce of `who`: the number of transactions it has made, zero
    /// for an account that has made none.
    pub fn nonce(&self, who: &String) -> (n: u32)
        ensures
            n == self@.nonce_of(who@),
    {
        match self.nonce.get(who.as_str()) {
            Some(stored) => *stored,
            None => 0,
        }
    }

    /// The stored nonces.
    pub fn nonces(&self) -> (stored: &AccountMap<u32>)
        ensures
            stored@ == self@.nonces,
    {
        &self.nonce
    }

    /// Counts one more transaction of `who`: its nonce grows by one, from
    /// zero if it had none. At `u32::MAX` the nonce stays where it is.
    pub fn inc_nonce(&mut self, who: &String)
        ensures
            final(self)@ == old(self)@.inc_nonce(who@),
            old(self)@.nonce_of(who@) < u32::MAX ==> final(self)@.nonce_of(who@) == old(
                self,
            )@.nonce_of(who@) + 1,
            forall|other: Seq<char>| final(self)@.nonce_of(other) >= old(self)@.nonce_of(other),
            forall|other: Seq<char>|
                other != who@ ==> final(self)@.nonce_of(other) == old(self)@.nonce_of(other),
    {
        let nonce: u32 = self.nonce(who);
        let new_nonce: u32 = nonce.saturating_add(1);
        self.nonce.insert(who.clone(), new_nonce);
    }
}

} // verus!
