use ledger_core::balances::{ErrorKind, Pallet};

#[test]
fn init_balances() {
    let mut balances = Pallet::new();

    let alice = "alice".to_string();
    let bob = "bob".to_string();

    assert_eq!(balances.balance(&alice), 0);
    balances.set_balance(&alice, 100);

    assert_eq!(balances.balance(&alice), 100);
    assert_eq!(balances.balance(&bob), 0);
}

#[test]
fn transfer_balance() {
    let mut balances = Pallet::new();

    let alice = "alice".to_string();
    let bob = "bob".to_string();

    balances.set_balance(&alice, 100);

    assert_eq!(balances.balance(&alice), 100);
    assert_eq!(balances.balance(&bob), 0);

    assert_eq!(
        balances
            .transfer(alice.clone(), bob.clone(), 150)
            .map_err(|e| e.message()),
        Err("Not enough balance")
    );

    let _ = balances.transfer(alice.clone(), bob.clone(), 50);

    assert_eq!(balances.balance(&alice), 50);
    assert_eq!(balances.balance(&bob), 50);
}

#[test]
fn fresh_ledger_reads_zero_everywhere() {
    let balances = Pallet::new();
    for name in ["", "alice", "bob", "carol", "émile", "0"] {
        assert_eq!(balances.balance(&name.to_string()), 0);
    }
}

#[test]
fn set_balance_is_read_back_exactly() {
    let mut balances = Pallet::new();
    let alice = "alice".to_string();
    let bob = "bob".to_string();
    for amount in [0u128, 1, 100, u64::MAX as u128, u128::MAX - 1, u128::MAX] {
        balances.set_balance(&alice, amount);
        assert_eq!(balances.balance(&alice), amount);
        assert_eq!(balances.balance(&bob), 0);
    }
}

#[test]
fn set_balance_overwrites_and_leaves_others() {
    let mut balances = Pallet::new();
    let alice = "alice".to_string();
    let bob = "bob".to_string();
    balances.set_balance(&alice, 7);
    balances.set_balance(&bob, 9);
    balances.set_balance(&alice, 3);
    assert_eq!(balances.balance(&alice), 3);
    assert_eq!(balances.balance(&bob), 9);
    balances.set_balance(&alice, 0);
    assert_eq!(balances.balance(&alice), 0);
    assert_eq!(balances.balance(&bob), 9);
}

#[test]
fn refused_then_accepted_transfer() {
    let mut balances = Pallet::new();
    let alice = "alice".to_string();
    let bob = "bob".to_string();

    balances.set_balance(&alice, 100);
    assert_eq!(balances.balance(&alice), 100);
    assert_eq!(balances.balance(&bob), 0);

    assert_eq!(
        balances.transfer(alice.clone(), bob.clone(), 150),
        Err(ErrorKind::InsufficientBalance)
    );
    assert_eq!(balances.balance(&alice), 100);
    assert_eq!(balances.balance(&bob), 0);

    assert_eq!(balances.transfer(alice.clone(), bob.clone(), 50), Ok(()));
    assert_eq!(balances.balance(&alice), 50);
    assert_eq!(balances.balance(&bob), 50);
}

#[test]
fn transfer_above_balance_is_refused_and_changes_nothing() {
    let mut balances = Pallet::new();
    let alice = "alice".to_string();
    let bob = "bob".to_string();
    balances.set_balance(&alice, 10);
    balances.set_balance(&bob, 20);
    for amount in [11u128, 12, 1000, u128::MAX] {
        assert_eq!(
            balances.transfer(alice.clone(), bob.clone(), amount),
            Err(ErrorKind::InsufficientBalance)
        );
        assert_eq!(balances.balance(&alice), 10);
        assert_eq!(balances.balance(&bob), 20);
    }
}

#[test]
fn transfer_from_unknown_account_is_refused() {
    let mut balances = Pallet::new();
    let nobody = "nobody".to_string();
    let bob = "bob".to_string();
    assert_eq!(
        balances.transfer(nobody.clone(), bob.clone(), 1),
        Err(ErrorKind::InsufficientBalance)
    );
    assert_eq!(balances.balance(&nobody), 0);
    assert_eq!(balances.balance(&bob), 0);
}

#[test]
fn transfer_moves_exactly_the_amount() {
    let cases: [(u128, u128, u128); 6] = [
        (100, 0, 50),
        (100, 0, 100),
        (100, 5, 0),
        (1, u128::MAX - 1, 1),
        (u128::MAX, 0, u128::MAX),
        (12345, 67890, 345),
    ];
    for (from_before, to_before, amount) in cases {
        let mut balances = Pallet::new();
        let alice = "alice".to_string();
        let bob = "bob".to_string();
        let carol = "carol".to_string();
        balances.set_balance(&alice, from_before);
        balances.set_balance(&bob, to_before);
        balances.set_balance(&carol, 77);

        assert_eq!(balances.transfer(alice.clone(), bob.clone(), amount), Ok(()));

        assert_eq!(balances.balance(&alice), from_before - amount);
        assert_eq!(balances.balance(&bob), to_before + amount);
        assert_eq!(balances.balance(&carol), 77);
    }
}

#[test]
fn transfer_conserves_the_pair_sum() {
    let mut balances = Pallet::new();
    let alice = "alice".to_string();
    let bob = "bob".to_string();
    balances.set_balance(&alice, 1_000);
    balances.set_balance(&bob, 234);
    for amount in [0u128, 1, 10, 500, 489] {
        let before = balances.balance(&alice) + balances.balance(&bob);
        assert_eq!(balances.transfer(alice.clone(), bob.clone(), amount), Ok(()));
        assert_eq!(balances.balance(&alice) + balances.balance(&bob), before);
    }
    assert_eq!(balances.balance(&alice), 0);
    assert_eq!(balances.balance(&bob), 1_234);
}

#[test]
fn transfer_to_new_account_creates_it() {
    let mut balances = Pallet::new();
    let alice = "alice".to_string();
    let dave = "dave".to_string();
    balances.set_balance(&alice, 9);
    assert_eq!(balances.transfer(alice.clone(), dave.clone(), 4), Ok(()));
    assert_eq!(balances.balance(&alice), 5);
    assert_eq!(balances.balance(&dave), 4);
}

#[test]
fn transfer_overflowing_receiver_is_refused_and_changes_nothing() {
    let mut balances = Pallet::new();
    let alice = "alice".to_string();
    let bob = "bob".to_string();
    balances.set_balance(&alice, 10);
    balances.set_balance(&bob, u128::MAX - 4);

    assert_eq!(
        balances.transfer(alice.clone(), bob.clone(), 5),
        Err(ErrorKind::ArithmeticOverflow)
    );
    assert_eq!(balances.balance(&alice), 10);
    assert_eq!(balances.balance(&bob), u128::MAX - 4);

    assert_eq!(balances.transfer(alice.clone(), bob.clone(), 4), Ok(()));
    assert_eq!(balances.balance(&alice), 6);
    assert_eq!(balances.balance(&bob), u128::MAX);
}

#[test]
fn insufficient_balance_is_reported_before_overflow() {
    let mut balances = Pallet::new();
    let alice = "alice".to_string();
    let bob = "bob".to_string();
    balances.set_balance(&alice, 1);
    balances.set_balance(&bob, u128::MAX);
    assert_eq!(
        balances.transfer(alice.clone(), bob.clone(), 2),
        Err(ErrorKind::InsufficientBalance)
    );
    assert_eq!(
        balances.transfer(alice.clone(), bob.clone(), 1),
        Err(ErrorKind::ArithmeticOverflow)
    );
}

#[test]
fn self_transfer_leaves_balance_unchanged() {
    let mut balances = Pallet::new();
    let alice = "alice".to_string();
    let bob = "bob".to_string();
    balances.set_balance(&alice, 100);
    balances.set_balance(&bob, 3);
    for amount in [0u128, 1, 50, 100] {
        assert_eq!(balances.transfer(alice.clone(), alice.clone(), amount), Ok(()));
        assert_eq!(balances.balance(&alice), 100);
        assert_eq!(balances.balance(&bob), 3);
    }
}

#[test]
fn self_transfer_at_the_top_of_the_range_succeeds() {
    let mut balances = Pallet::new();
    let alice = "alice".to_string();
    balances.set_balance(&alice, u128::MAX);
    assert_eq!(balances.transfer(alice.clone(), alice.clone(), 1), Ok(()));
    assert_eq!(balances.balance(&alice), u128::MAX);
    assert_eq!(
        balances.transfer(alice.clone(), alice.clone(), u128::MAX),
        Ok(())
    );
    assert_eq!(balances.balance(&alice), u128::MAX);
}

#[test]
fn self_transfer_above_balance_is_refused() {
    let mut balances = Pallet::new();
    let alice = "alice".to_string();
    balances.set_balance(&alice, 5);
    assert_eq!(
        balances.transfer(alice.clone(), alice.clone(), 6),
        Err(ErrorKind::InsufficientBalance)
    );
    assert_eq!(balances.balance(&alice), 5);
}

#[test]
fn self_transfer_of_nothing_on_unknown_account() {
    let mut balances = Pallet::new();
    let eve = "eve".to_string();
    assert_eq!(balances.transfer(eve.clone(), eve.clone(), 0), Ok(()));
    assert_eq!(balances.balance(&eve), 0);
}

#[test]
fn total_of_many_accounts_survives_transfers() {
    let mut balances = Pallet::new();
    let names: Vec<String> = ["m", "c", "x", "a", "q", "b", "zz", "za"]
        .iter()
        .map(|s| s.to_string())
        .collect();
    for (i, name) in names.iter().enumerate() {
        balances.set_balance(name, 100 * (i as u128 + 1));
    }
    let total = |b: &Pallet| names.iter().map(|n| b.balance(n)).sum::<u128>();
    assert_eq!(total(&balances), 3_600);
    for i in 0..names.len() {
        for j in 0..names.len() {
            let amount = (i * 37 + j * 11) as u128;
            let _ = balances.transfer(names[i].clone(), names[j].clone(), amount);
            assert_eq!(total(&balances), 3_600);
        }
    }
}

#[test]
fn error_messages() {
    assert_eq!(ErrorKind::InsufficientBalance.message(), "Not enough balance");
    assert_eq!(ErrorKind::ArithmeticOverflow.message(), "error");
    assert_ne!(ErrorKind::InsufficientBalance, ErrorKind::ArithmeticOverflow);
}

#[test]
fn accounts_are_listed_in_byte_order() {
    let mut balances = Pallet::new();
    assert_eq!(balances.accounts(), Vec::<String>::new());
    let names = ["m", "c", "x", "a", "ab", "", "zz", "é", "Z", "日本", "c"];
    for (i, name) in names.iter().enumerate() {
        balances.set_balance(&name.to_string(), i as u128);
    }
    let mut expected: Vec<String> = names.iter().map(|s| s.to_string()).collect();
    expected.sort();
    expected.dedup();
    assert_eq!(balances.accounts(), expected);
    assert_eq!(
        balances.accounts(),
        vec!["", "Z", "a", "ab", "c", "m", "x", "zz", "é", "日本"]
    );

    let _ = balances.transfer("c".to_string(), "b".to_string(), 1);
    assert_eq!(
        balances.accounts(),
        vec!["", "Z", "a", "ab", "b", "c", "m", "x", "zz", "é", "日本"]
    );
    assert_eq!(balances.balance(&"c".to_string()), 9);
    assert_eq!(balances.balance(&"b".to_string()), 1);
}
