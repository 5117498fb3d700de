//! The ledger: the balance of every account and the only code path that
//! moves value between accounts.
//!
//! The state of a ledger is a finite map from account identifiers to
//! balances. An account without an entry holds nothing: it reads as zero,
//! exactly like an account whose stored balance is zero.

use crate::account_map::AccountMap;
use crate::key_order::key_before;
use vstd::prelude::*;

verus! {

/// Why a transfer was refused. A refused transfer changes nothing.
#[derive(Clone, Copy, Debug, PartialEq, Eq, Structural)]
pub enum ErrorKind {
    /// The sender holds less than the amount to be moved.
    InsufficientBalance,
    /// The receiver's new balance would not fit in a `u128`.
    ArithmeticOverflow,
}

impl ErrorKind {
    /// A short text for the error.
    pub fn message(&self) -> (text: &'static str)
        ensures
            text@ == match *self {
                ErrorKind::InsufficientBalance => "Not enough balance"@,
                ErrorKind::ArithmeticOverflow => "error"@,
            },
    {
        match self {
            ErrorKind::InsufficientBalance => "Not enough balance",
            ErrorKind::ArithmeticOverflow => "error",
        }
    }
}

/// What `who` holds in `ledger`: the stored balance, or zero without one.
pub open spec fn balance_of(ledger: Map<Seq<char>, u128>, who: Seq<char>) -> u128 {
    if ledger.contains_key(who) {
        ledger[who]
    } else {
        0
    }
}

/// What `to` holds once `amount` has been taken from `caller`, before it
/// is credited. For a transfer to oneself this is the reduced balance.
pub open spec fn receiver_base(
    ledger: Map<Seq<char>, u128>,
    caller: Seq<char>,
    to: Seq<char>,
    amount: u128,
) -> int {
    if caller == to {
        balance_of(ledger, caller) - amount
    } else {
        balance_of(ledger, to) as int
    }
}

/// Whether a transfer of `amount` from `caller` to `to` is carried out, and
/// if not, why.
pub open spec fn transfer_check(
    ledger: Map<Seq<char>, u128>,
    caller: Seq<char>,
    to: Seq<char>,
    amount: u128,
) -> Result<(), ErrorKind> {
    if balance_of(ledger, caller) < amount {
        Err(ErrorKind::InsufficientBalance)
    } else if receiver_base(ledger, caller, to, amount) + amount > u128::MAX {
        Err(ErrorKind::ArithmeticOverflow)
    } else {
        Ok(())
    }
}

/// The ledger after a transfer: both balances rewritten if the transfer
/// passes `transfer_check`, the ledger as it was if not.
pub open spec fn transfer_apply(
    ledger: Map<Seq<char>, u128>,
    caller: Seq<char>,
    to: Seq<char>,
    amount: u128,
) -> Map<Seq<char>, u128> {
    if transfer_check(ledger, caller, to, amount) is Ok {
        ledger.insert(caller, (balance_of(ledger, caller) - amount) as u128).insert(
            to,
            (receiver_base(ledger, caller, to, amount) + amount) as u128,
        )
    } else {
        ledger
    }
}

/// The sum of all balances in a ledger with finitely many entries.
pub open spec fn total_supply(ledger: Map<Seq<char>, u128>) -> nat
    decreases ledger.dom().len(),
    when ledger.dom().finite()
{
    if ledger.dom().len() == 0 {
        0
    } else {
        let who = ledger.dom().choose();
        ledger[who] as nat + total_supply(ledger.remove(who))
    }
}

/// The total is the balance of any one account plus the total of the rest.
pub proof fn lemma_total_supply_split(ledger: Map<Seq<char>, u128>, who: Seq<char>)
    requires
        ledger.dom().finite(),
    ensures
        total_supply(ledger) == balance_of(ledger, who) + total_supply(ledger.remove(who)),
    decreases ledger.dom().len(),
{
    if !ledger.contains_key(who) {
        assert(ledger.remove(who) =~= ledger);
    } else {
        let first = ledger.dom().choose();
        if first != who {
            lemma_total_supply_split(ledger.remove(first), who);
            lemma_total_supply_split(ledger.remove(who), first);
            assert(ledger.remove(first).remove(who) =~= ledger.remove(who).remove(first));
        }
    }
}

/// Writing one balance changes the total by the difference between the new
/// balance and the old one.
pub proof fn lemma_total_supply_insert(ledger: Map<Seq<char>, u128>, who: Seq<char>, amount: u128)
    requires
        ledger.dom().finite(),
    ensures
        ledger.insert(who, amount).dom().finite(),
        total_supply(ledger.insert(who, amount)) == total_supply(ledger) - balance_of(ledger, who)
            + amount,
{
    lemma_total_supply_split(ledger, who);
    lemma_total_supply_split(ledger.insert(who, amount), who);
    assert(ledger.insert(who, amount).remove(who) =~= ledger.remove(who));
}

/// A transfer is refused for want of funds exactly when the amount exceeds
/// the sender's balance, and a refused transfer leaves every balance as it
/// was.
pub proof fn lemma_refused_transfer(
    ledger: Map<Seq<char>, u128>,
    caller: Seq<char>,
    to: Seq<char>,
    amount: u128,
)
    ensures
        amount > balance_of(ledger, caller) <==> transfer_check(ledger, caller, to, amount) == Err::<
            (),
            ErrorKind,
        >(ErrorKind::InsufficientBalance),
        transfer_check(ledger, caller, to, amount) is Err ==> transfer_apply(
            ledger,
            caller,
            to,
            amount,
        ) == ledger,
{
}

/// A transfer that is carried out between two different accounts takes
/// exactly `amount` from the sender and gives exactly `amount` to the
/// receiver.
pub proof fn lemma_transfer_moves_amount(
    ledger: Map<Seq<char>, u128>,
    caller: Seq<char>,
    to: Seq<char>,
    amount: u128,
)
    requires
        transfer_check(ledger, caller, to, amount) is Ok,
        caller != to,
    ensures
        balance_of(transfer_apply(ledger, caller, to, amount), caller) == balance_of(ledger, caller)
            - amount,
        balance_of(transfer_apply(ledger, caller, to, amount), to) == balance_of(ledger, to)
            + amount,
{
}

/// Conservation: a transfer that is carried out leaves the sum of the two
/// balances as it was, and no third account is touched.
pub proof fn lemma_transfer_conserves(
    ledger: Map<Seq<char>, u128>,
    caller: Seq<char>,
    to: Seq<char>,
    amount: u128,
)
    requires
        transfer_check(ledger, caller, to, amount) is Ok,
    ensures
        balance_of(transfer_apply(ledger, caller, to, amount), caller) + balance_of(
            transfer_apply(ledger, caller, to, amount),
            to,
        ) == balance_of(ledger, caller) + balance_of(ledger, to),
        forall|other: Seq<char>|
            other != caller && other != to ==> balance_of(
                transfer_apply(ledger, caller, to, amount),
                other,
            ) == balance_of(ledger, other),
{
}

/// A transfer to oneself of no more than one holds is carried out and
/// leaves every balance as it was.
pub proof fn lemma_self_transfer_neutral(ledger: Map<Seq<char>, u128>, who: Seq<char>, amount: u128)
    requires
        amount <= balance_of(ledger, who),
    ensures
        transfer_check(ledger, who, who, amount) is Ok,
        forall|other: Seq<char>|
            balance_of(transfer_apply(ledger, who, who, amount), other) == balance_of(
                ledger,
                other,
            ),
{
}

/// No transfer, carried out or refused, changes the sum of all balances.
pub proof fn lemma_transfer_keeps_total_supply(
    ledger: Map<Seq<char>, u128>,
    caller: Seq<char>,
    to: Seq<char>,
    amount: u128,
)
    requires
        ledger.dom().finite(),
    ensures
        transfer_apply(ledger, caller, to, amount).dom().finite(),
        total_supply(transfer_apply(ledger, caller, to, amount)) == total_supply(ledger),
{
    if transfer_check(ledger, caller, to, amount) is Ok {
        let debited = (balance_of(ledger, caller) - amount) as u128;
        let credited = (receiver_base(ledger, caller, to, amount) + amount) as u128;
        lemma_total_supply_insert(ledger, caller, debited);
        lemma_total_supply_insert(ledger.insert(caller, debited), to, credited);
    }
}

/// The store of account balances.
pub struct Pallet {
    balances: AccountMap<u128>,
}

impl View for Pallet {
    type V = Map<Seq<char>, u128>;

    closed spec fn view(&self) -> Map<Seq<char>, u128> {
        self.balances@
    }
}

impl Pallet {
    /// A ledger has finitely many entries, so its total supply is defined.
    pub proof fn lemma_finite(self)
        ensures
            self@.dom().finite(),
    {
        self.balances.lemma_view_finite();
    }

    /// A ledger in which no account holds anything.
    pub fn new() -> (ledger: Self)
        ensures
            ledger@ == Map::<Seq<char>, u128>::empty(),
            forall|who: Seq<char>| balance_of(ledger@, who) == 0,
            total_supply(ledger@) == 0,
    {
        Self { balances: AccountMap::new() }
    }

    /// Sets the balance of `who` to `amount`, whatever it was before. This
    /// is the one operation that changes the total supply.
    pub fn set_balance(&mut self, who: &String, amount: u128)
        ensures
            final(self)@ == old(self)@.insert(who@, amount),
            balance_of(final(self)@, who@) == amount,
            forall|other: Seq<char>|
                other != who@ ==> balance_of(final(self)@, other) == balance_of(
                    old(self)@,
                    other,
                ),
            total_supply(final(self)@) == total_supply(old(self)@) - balance_of(old(self)@, who@)
                + amount,
    {
        proof {
            self.lemma_finite();
            lemma_total_supply_insert(self@, who@, amount);
        }
        self.balances.insert(who.clone(), amount);
    }

    /// The balance of `who`: zero for an account without a stored balance.
    pub fn balance(&self, who: &String) -> (amount: u128)
        ensures
            amount == balance_of(self@, who@),
    {
        match self.balances.get(who.as_str()) {
            Some(stored) => *stored,
            None => 0,
        }
    }

    /// The accounts that have a stored balance, each once, in the
    /// lexicographic order of their identifiers' bytes.
    pub fn accounts(&self) -> (names: Vec<String>)
        ensures
            names@.len() == self@.len(),
            forall|i: int, j: int|
                0 <= i < j < names@.len() ==> key_before(
                    #[trigger] names@[i]@,
                    #[trigger] names@[j]@,
                ),
            forall|who: Seq<char>|
                self@.contains_key(who) <==> exists|i: int|
                    0 <= i < names@.len() && #[trigger] names@[i]@ == who,
    {
        self.balances.keys()
    }

    /// Moves `amount` from `caller` to `to`.
    ///
    /// Fails with `InsufficientBalance` if `caller` holds less than
    /// `amount`, and otherwise with `ArithmeticOverflow` if the receiver's
    /// new balance would leave the range of `u128`. Either both balances are
    /// written or the ledger stays as it was. A transfer to oneself goes
    /// through the same checks and writes; the amount is credited to the
    /// balance from which it was taken, so the balance ends as it began.
    pub fn transfer(&mut self, caller: String, to: String, amount: u128) -> (r: Result<
        (),
        ErrorKind,
    >)
        ensures
            r == transfer_check(old(self)@, caller@, to@, amount),
            final(self)@ == transfer_apply(old(self)@, caller@, to@, amount),
            r is Err ==> final(self)@ == old(self)@,
            r == Err::<(), ErrorKind>(ErrorKind::InsufficientBalance) <==> balance_of(
                old(self)@,
                caller@,
            ) < amount,
            balance_of(final(self)@, caller@) + balance_of(final(self)@, to@) == balance_of(
                old(self)@,
                caller@,
            ) + balance_of(old(self)@, to@),
            r is Ok && caller@ != to@ ==> balance_of(final(self)@, caller@) == balance_of(
                old(self)@,
                caller@,
            ) - amount && balance_of(final(self)@, to@) == balance_of(old(self)@, to@) + amount,
            caller@ == to@ && amount <= balance_of(old(self)@, caller@) ==> r is Ok,
            caller@ == to@ ==> balance_of(final(self)@, caller@) == balance_of(old(self)@, caller@),
            forall|other: Seq<char>|
                other != caller@ && other != to@ ==> balance_of(final(self)@, other) == balance_of(
                    old(self)@,
                    other,
                ),
            total_supply(final(self)@) == total_supply(old(self)@),
    {
        proof {
            self.lemma_finite();
            lemma_transfer_keeps_total_supply(self@, caller@, to@, amount);
        }
        let caller_balance: u128 = self.balance(&caller);
        let to_balance: u128 = self.balance(&to);

        if caller_balance < amount {
            return Err(ErrorKind::InsufficientBalance);
        }
        let new_caller_balance: u128 = match caller_balance.checked_sub(amount) {
            Some(rest) => rest,
            None => {
                return Err(ErrorKind::ArithmeticOverflow);
            },
        };
        let to_base: u128 = if caller == to {
            new_caller_balance
        } else {
            to_balance
        };
        let new_to_balance: u128 = match to_base.checked_add(amount) {
            Some(sum) => sum,
            None => {
                return Err(ErrorKind::ArithmeticOverflow);
            },
        };

        self.set_balance(&caller, new_caller_balance);
        self.set_balance(&to, new_to_balance);

        Ok(())
    }
}

} // verus!
