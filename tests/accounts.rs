use at2_node::account::{self, Account};
use at2_node::accounts::{Accounts, Error};
use at2_node::PublicKey;

fn key(b: u8) -> PublicKey {
    PublicKey::new([b; 32])
}

fn get_balance_and_sequence(accounts: &Accounts, user: &PublicKey) -> (u64, u64) {
    (accounts.get_balance(user), accounts.get_last_sequence(user))
}

#[test]
fn new_account_is_the_same_as_unknown_account() {
    let accounts = Accounts::new();
    let user_pubkey = key(7);

    let new_account = Account::new();

    let (balance, sequence) = get_balance_and_sequence(&accounts, &user_pubkey);

    assert_eq!(balance, new_account.balance());
    assert_eq!(sequence, new_account.last_sequence());
}

#[test]
fn transfer_to_themselves_increment_sequence_and_keep_balance() {
    let mut accounts = Accounts::new();
    let user_pubkey = key(7);

    let (initial_balance, initial_sequence) = get_balance_and_sequence(&accounts, &user_pubkey);

    accounts
        .transfer(user_pubkey, 1, user_pubkey, 10)
        .expect("to transfer to themselves");

    let (final_balance, final_sequence) = get_balance_and_sequence(&accounts, &user_pubkey);

    assert_eq!(initial_balance, final_balance);
    assert!(initial_sequence < final_sequence);
}

#[test]
fn transfer_too_much_fails_and_increases_sequence() {
    let mut accounts = Accounts::new();
    let first_user_pubkey = key(1);
    let second_user_pubkey = key(2);

    let (first_initial_balance, first_initial_sequence) =
        get_balance_and_sequence(&accounts, &first_user_pubkey);
    let (second_initial_balance, second_initial_sequence) =
        get_balance_and_sequence(&accounts, &second_user_pubkey);

    accounts
        .transfer(
            first_user_pubkey,
            1,
            second_user_pubkey,
            first_initial_balance + 1,
        )
        .expect_err("to fail to transfer");

    let (first_final_balance, first_final_sequence) =
        get_balance_and_sequence(&accounts, &first_user_pubkey);
    let (second_final_balance, second_final_sequence) =
        get_balance_and_sequence(&accounts, &second_user_pubkey);

    assert_eq!(first_initial_balance, first_final_balance);
    assert!(first_initial_sequence < first_final_sequence);

    assert_eq!(second_initial_balance, second_final_balance);
    assert_eq!(second_initial_sequence, second_final_sequence);
}

#[test]
fn transfer_moves_amount_between_accounts() {
    let mut accounts = Accounts::new();
    let (a, b) = (key(1), key(2));
    assert_eq!(accounts.transfer(a, 1, b, 10), Ok(()));
    assert_eq!(accounts.get_balance(&a), 99990);
    assert_eq!(accounts.get_balance(&b), 100010);
    assert_eq!(accounts.get_last_sequence(&a), 1);
    assert_eq!(accounts.get_last_sequence(&b), 0);
    assert_eq!(accounts.get_balance(&key(3)), 100000);
}

#[test]
fn transfer_with_gap_is_refused_without_effect() {
    let mut accounts = Accounts::new();
    let (a, b) = (key(1), key(2));
    assert_eq!(
        accounts.transfer(a, 2, b, 1),
        Err(Error::AccountModification {
            source: account::Error::InconsecutiveSequence
        })
    );
    assert_eq!(accounts.get_balance(&a), 100000);
    assert_eq!(accounts.get_balance(&b), 100000);
    assert_eq!(accounts.get_last_sequence(&a), 0);
    assert_eq!(accounts.transfer(a, 1, b, 1), Ok(()));
    assert_eq!(accounts.transfer(a, 1, b, 1).is_err(), true);
    assert_eq!(accounts.get_last_sequence(&a), 1);
}

#[test]
fn credits_do_not_advance_receiver_sequence() {
    let mut accounts = Accounts::new();
    let (a, b) = (key(1), key(2));
    assert_eq!(accounts.transfer(a, 1, b, 5), Ok(()));
    assert_eq!(accounts.transfer(a, 2, b, 5), Ok(()));
    assert_eq!(accounts.get_last_sequence(&b), 0);
    assert_eq!(accounts.transfer(b, 1, a, 3), Ok(()));
    assert_eq!(accounts.get_balance(&a), 99993);
    assert_eq!(accounts.get_balance(&b), 100007);
    assert_eq!(accounts.get_last_sequence(&b), 1);
}

#[test]
fn sequences_are_monotone_and_balances_conserved_over_a_run() {
    let mut accounts = Accounts::new();
    let (a, b, c) = (key(1), key(2), key(3));
    let ops = [
        (a, 1, b, 30),
        (a, 3, c, 1),
        (b, 1, c, 200000),
        (a, 2, a, 50),
        (c, 1, a, 7),
        (a, 3, c, 1),
    ];
    let mut last = [0u64; 3];
    for (s, q, r, x) in ops.iter() {
        let _ = accounts.transfer(*s, *q, *r, *x);
        for (i, k) in [a, b, c].iter().enumerate() {
            let now = accounts.get_last_sequence(k);
            assert!(now >= last[i]);
            last[i] = now;
        }
        let total: u64 = [a, b, c].iter().map(|k| accounts.get_balance(k)).sum();
        assert_eq!(total, 300000);
    }
    assert_eq!(last, [3, 1, 1]);
    assert_eq!(accounts.get_balance(&a), 99976);
    assert_eq!(accounts.get_balance(&b), 100030);
    assert_eq!(accounts.get_balance(&c), 99994);
}
