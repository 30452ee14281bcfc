use payment_engine::account::{Account, AccountOutput, TransactionStatus};
use payment_engine::amount::{Amount, MAX_MANTISSA};
use payment_engine::engine::{partition_by_client, process_all};
use payment_engine::transaction::{Error, Transaction, TransactionType};

fn record(kind: TransactionType, client_id: u16, tx: u32, amount: Option<Amount>) -> Transaction {
    Transaction {
        transaction_type: kind,
        client_id,
        transaction_id: tx,
        amount,
    }
}

fn deposit(client_id: u16, tx: u32, num: i64, scale: u32) -> Transaction {
    record(TransactionType::Deposit, client_id, tx, Some(Amount::new(num, scale)))
}

fn withdrawal(client_id: u16, tx: u32, num: i64, scale: u32) -> Transaction {
    record(TransactionType::Withdrawal, client_id, tx, Some(Amount::new(num, scale)))
}

fn dispute(client_id: u16, tx: u32) -> Transaction {
    record(TransactionType::Dispute, client_id, tx, None)
}

fn resolve(client_id: u16, tx: u32) -> Transaction {
    record(TransactionType::Resolve, client_id, tx, None)
}

fn chargeback(client_id: u16, tx: u32) -> Transaction {
    record(TransactionType::Chargeback, client_id, tx, None)
}

fn same_state(a: &Account, b: &Account) -> bool {
    a.client_id() == b.client_id()
        && a.available() == b.available()
        && a.held() == b.held()
        && a.locked() == b.locked()
}

#[test]
fn scenario_deposit() {
    let mut acc = Account::new(5);
    assert_eq!(acc.process(&deposit(5, 1, 123456, 2)), Ok(()));
    assert_eq!(acc.available(), Amount::new(123456, 2));
    assert_eq!(acc.held(), Amount::zero());
    assert_eq!(acc.total(), Amount::new(123456, 2));
    assert!(!acc.locked());
}

#[test]
fn scenario_withdrawal() {
    let mut acc = Account::new(5);
    acc.process(&deposit(5, 1, 123456, 2)).unwrap();
    assert_eq!(acc.process(&withdrawal(5, 2, 3456, 2)), Ok(()));
    assert_eq!(acc.available(), Amount::new(120000, 2));
    assert_eq!(acc.total(), Amount::new(1200, 0));
}

#[test]
fn scenario_withdrawal_too_large() {
    let mut acc = Account::new(5);
    acc.process(&deposit(5, 1, 123456, 2)).unwrap();
    assert_eq!(acc.process(&withdrawal(5, 2, 99999900, 2)), Err(Error::InsufficientFunds));
    assert_eq!(acc.available(), Amount::new(123456, 2));
}

#[test]
fn scenario_chargeback_locks() {
    let mut acc = Account::new(5);
    acc.process(&deposit(5, 1, 123456, 2)).unwrap();
    acc.process(&dispute(5, 1)).unwrap();
    assert_eq!(acc.available(), Amount::zero());
    assert_eq!(acc.held(), Amount::new(123456, 2));
    acc.process(&chargeback(5, 1)).unwrap();
    assert_eq!(acc.available(), Amount::zero());
    assert_eq!(acc.held(), Amount::zero());
    assert!(acc.locked());
    assert_eq!(acc.process(&deposit(5, 3, 10, 0)), Err(Error::AccountLocked));
}

#[test]
fn scenario_dispute_toggle() {
    let mut acc = Account::new(5);
    acc.process(&deposit(5, 1, 100, 0)).unwrap();
    assert_eq!(acc.process(&dispute(5, 1)), Ok(()));
    assert_eq!(acc.process(&dispute(5, 1)), Err(Error::AlreadyDisputed));
    assert_eq!(acc.process(&resolve(5, 1)), Ok(()));
    assert_eq!(acc.process(&dispute(5, 1)), Ok(()));
    assert_eq!(acc.held(), Amount::new(100, 0));
    assert_eq!(acc.available(), Amount::zero());
}

#[test]
fn total_is_available_plus_held() {
    let mut acc = Account::new(7);
    acc.process(&deposit(7, 1, 5, 1)).unwrap();
    acc.process(&deposit(7, 2, 25, 2)).unwrap();
    acc.process(&dispute(7, 2)).unwrap();
    assert_eq!(acc.available(), Amount::new(5, 1));
    assert_eq!(acc.held(), Amount::new(25, 2));
    assert_eq!(acc.total(), Amount::new(75, 2));
}

#[test]
fn failures_leave_account_unchanged() {
    let mut acc = Account::new(5);
    acc.process(&deposit(5, 1, 100, 0)).unwrap();
    acc.process(&dispute(5, 1)).unwrap();
    let failing = [
        deposit(6, 9, 1, 0),
        deposit(5, 1, 7, 0),
        record(TransactionType::Deposit, 5, 2, None),
        withdrawal(5, 3, 1, 0),
        dispute(5, 1),
        dispute(5, 4),
        resolve(5, 4),
        chargeback(5, 4),
    ];
    for tr in failing.iter() {
        let before = (acc.available(), acc.held(), acc.locked());
        assert!(acc.process(tr).is_err());
        assert_eq!((acc.available(), acc.held(), acc.locked()), before);
    }
    // the entry of tx 1 is still disputed, so it still resolves
    assert_eq!(acc.process(&resolve(5, 1)), Ok(()));
    assert_eq!(acc.available(), Amount::new(100, 0));
}

#[test]
fn each_error_kind() {
    let mut acc = Account::new(5);
    assert_eq!(acc.process(&deposit(4, 1, 1, 0)), Err(Error::ClientIdMismatch));
    assert_eq!(
        acc.process(&record(TransactionType::Withdrawal, 5, 1, None)),
        Err(Error::MissingAmount)
    );
    assert_eq!(acc.process(&withdrawal(5, 1, 1, 0)), Err(Error::InsufficientFunds));
    assert_eq!(acc.process(&dispute(5, 1)), Err(Error::UnknownTransactionId));
    acc.process(&deposit(5, 1, 1, 0)).unwrap();
    assert_eq!(acc.process(&withdrawal(5, 1, 1, 0)), Err(Error::DuplicatedTransactionId));
    assert_eq!(acc.process(&resolve(5, 1)), Err(Error::NotDisputed));
    assert_eq!(acc.process(&chargeback(5, 1)), Err(Error::NotDisputed));
    acc.process(&dispute(5, 1)).unwrap();
    assert_eq!(acc.process(&dispute(5, 1)), Err(Error::AlreadyDisputed));
    acc.process(&chargeback(5, 1)).unwrap();
    assert_eq!(acc.process(&resolve(5, 1)), Err(Error::AccountLocked));
}

#[test]
fn locked_account_refuses_every_kind() {
    let mut acc = Account::new(5);
    acc.process(&deposit(5, 1, 100, 0)).unwrap();
    acc.process(&deposit(5, 2, 50, 0)).unwrap();
    acc.process(&dispute(5, 2)).unwrap();
    acc.process(&chargeback(5, 2)).unwrap();
    assert!(acc.locked());
    for tr in [deposit(5, 3, 1, 0), withdrawal(5, 4, 1, 0), dispute(5, 1), resolve(5, 2), chargeback(5, 2)].iter() {
        assert_eq!(acc.process(tr), Err(Error::AccountLocked));
    }
    assert_eq!(acc.available(), Amount::new(100, 0));
    assert_eq!(acc.held(), Amount::zero());
}

#[test]
fn refused_withdrawal_cannot_be_disputed() {
    let mut acc = Account::new(5);
    acc.process(&deposit(5, 1, 10, 0)).unwrap();
    assert_eq!(acc.process(&withdrawal(5, 2, 11, 0)), Err(Error::InsufficientFunds));
    assert_eq!(acc.process(&dispute(5, 2)), Err(Error::UnknownTransactionId));
}

#[test]
fn resolve_restores_balances() {
    let mut acc = Account::new(5);
    acc.process(&deposit(5, 1, 123456, 2)).unwrap();
    acc.process(&withdrawal(5, 2, 1111, 2)).unwrap();
    let before = (acc.available(), acc.held());
    acc.process(&dispute(5, 2)).unwrap();
    assert_eq!(acc.held(), Amount::new(-1111, 2));
    acc.process(&resolve(5, 2)).unwrap();
    assert_eq!((acc.available(), acc.held()), before);
}

#[test]
fn withdrawal_to_zero_is_allowed() {
    let mut acc = Account::new(5);
    acc.process(&deposit(5, 1, 5, 0)).unwrap();
    assert_eq!(acc.process(&withdrawal(5, 2, 500, 2)), Ok(()));
    assert_eq!(acc.available(), Amount::zero());
}

#[test]
fn overflow_is_refused() {
    let huge = Amount::from_parts(MAX_MANTISSA, 0).unwrap();
    let mut acc = Account::new(5);
    acc.process(&record(TransactionType::Deposit, 5, 1, Some(huge))).unwrap();
    assert_eq!(
        acc.process(&record(TransactionType::Deposit, 5, 2, Some(huge))),
        Err(Error::Overflow)
    );
    assert_eq!(acc.available(), huge);
    assert!(Amount::from_parts(MAX_MANTISSA + 1, 0).is_none());
    assert!(Amount::from_parts(1, 29).is_none());
}

#[test]
fn amounts_compare_by_value() {
    assert_eq!(Amount::new(1200, 0), Amount::new(120000, 2));
    assert_ne!(Amount::new(1200, 0), Amount::new(1201, 0));
    assert_eq!(Amount::new(-5, 1).neg(), Amount::new(50, 2));
    assert!(Amount::new(-1, 28).is_negative());
    assert!(!Amount::zero().is_negative());
}

#[test]
fn status_lifecycle() {
    let mut st = TransactionStatus::new(&withdrawal(1, 1, 250, 2)).unwrap();
    assert_eq!(st.amount_change, Amount::new(-250, 2));
    assert_eq!(st.resolve(), Err(Error::NotDisputed));
    assert_eq!(st.dispute(), Ok(Amount::new(-250, 2)));
    assert_eq!(st.dispute(), Err(Error::AlreadyDisputed));
    assert_eq!(st.chargeback(), Ok(Amount::new(-250, 2)));
    assert!(st.chargeback && st.disputed);
    assert!(TransactionStatus::new(&record(TransactionType::Deposit, 1, 2, None)).is_err());
}

#[test]
fn output_rounds_half_away_from_zero() {
    let mut acc = Account::new(3);
    acc.process(&deposit(3, 1, 123455, 5)).unwrap();
    acc.process(&deposit(3, 2, 100004, 5)).unwrap();
    acc.process(&dispute(3, 2)).unwrap();
    let out = AccountOutput::from(&acc);
    assert_eq!(out.client, 3);
    assert_eq!(out.available, Amount::new(12346, 4));
    assert_eq!(out.available.scale(), 4);
    assert_eq!(out.held, Amount::new(10000, 4));
    assert_eq!(out.total, Amount::new(22346, 4));
    assert!(!out.locked);

    let mut neg = Account::new(4);
    neg.process(&deposit(4, 1, 200000, 5)).unwrap();
    neg.process(&withdrawal(4, 2, 123455, 5)).unwrap();
    neg.process(&dispute(4, 2)).unwrap();
    let out = AccountOutput::from(&neg);
    assert_eq!(out.held, Amount::new(-12346, 4));
    assert_eq!(out.available, Amount::new(2, 0));
}

#[test]
fn full_precision_is_kept_until_output() {
    let mut acc = Account::new(3);
    acc.process(&deposit(3, 1, 4, 5)).unwrap();
    acc.process(&deposit(3, 2, 4, 5)).unwrap();
    assert_eq!(acc.available(), Amount::new(8, 5));
    assert_eq!(AccountOutput::from(&acc).available, Amount::new(1, 4));
}

#[test]
fn partitions_keep_order_per_client() {
    let input = vec![
        deposit(1, 1, 10, 0),
        deposit(2, 2, 20, 0),
        withdrawal(1, 3, 5, 0),
        dispute(2, 2),
        deposit(1, 4, 1, 0),
    ];
    let parts = partition_by_client(&input);
    assert_eq!(parts.len(), 2);
    assert_eq!(parts[0].0, 1);
    assert_eq!(parts[0].1, vec![input[0], input[2], input[4]]);
    assert_eq!(parts[1].0, 2);
    assert_eq!(parts[1].1, vec![input[1], input[3]]);
}

#[test]
fn interleaved_clients_are_independent() {
    // the withdrawal of client 1 comes before its covering deposit and fails,
    // whatever client 2 does in between
    let input = vec![
        deposit(1, 1, 10, 0),
        deposit(2, 1, 7, 0),
        withdrawal(1, 2, 15, 0),
        dispute(2, 1),
        deposit(1, 3, 10, 0),
        chargeback(2, 1),
        deposit(2, 5, 1, 0),
        deposit(3, 9, 42, 1),
    ];
    let accounts = process_all(input.clone());
    assert_eq!(accounts.len(), 3);
    let one = &accounts[&1];
    assert_eq!(one.available(), Amount::new(20, 0));
    let two = &accounts[&2];
    assert!(two.locked());
    assert_eq!(two.total(), Amount::zero());
    assert_eq!(accounts[&3].available(), Amount::new(42, 1));

    // sequential and per-partition evaluation agree
    for (client, records) in partition_by_client(&input).iter() {
        let alone = Account::from_transactions(client, records);
        assert!(same_state(&alone, &accounts[client]));
    }
}

#[test]
fn empty_input_gives_no_accounts() {
    assert!(process_all(Vec::new()).is_empty());
    assert!(partition_by_client(&[]).is_empty());
    let acc = Account::from_transactions(&9, &[]);
    assert_eq!(acc.client_id(), 9);
    assert_eq!(acc.total(), Amount::zero());
}

#[test]
fn amount_presence_is_reported() {
    assert!(dispute(1, 1).check_amount_empty());
    assert!(!deposit(1, 1, 1, 0).check_amount_empty());
    assert_eq!(dispute(1, 1).get_amount(), Err(Error::MissingAmount));
    assert_eq!(deposit(1, 1, 3, 0).get_amount(), Ok(Amount::new(3, 0)));
}

#[test]
fn refused_records_are_reported_in_order() {
    let input = vec![
        deposit(5, 1, 100, 0),
        withdrawal(5, 2, 500, 0),
        dispute(5, 1),
        dispute(5, 1),
        deposit(6, 3, 1, 0),
        resolve(5, 9),
    ];
    let (acc, refused) = Account::from_transactions_with_refusals(&5, &input);
    assert_eq!(
        refused,
        vec![
            (2, Error::InsufficientFunds),
            (1, Error::AlreadyDisputed),
            (3, Error::ClientIdMismatch),
            (9, Error::UnknownTransactionId),
        ]
    );
    assert_eq!(acc.held(), Amount::new(100, 0));
    assert!(same_state(&acc, &Account::from_transactions(&5, &input)));
}

#[test]
fn amount_on_dispute_is_ignored() {
    let mut acc = Account::new(5);
    acc.process(&deposit(5, 1, 10000, 2)).unwrap();
    let tiny = Some(Amount::new(1, 28));
    assert_eq!(acc.process(&record(TransactionType::Dispute, 5, 1, tiny)), Ok(()));
    assert_eq!(acc.held(), Amount::new(100, 0));
    assert_eq!(acc.available(), Amount::zero());
}

#[test]
fn exact_arithmetic_refuses_rounding() {
    let huge = Amount::from_parts(MAX_MANTISSA, 0).unwrap();
    let fine = Amount::new(1, 1);
    assert!(huge.exact_add(&fine).is_none());
    // at one fractional digit the difference needs more than 96 bits
    assert!(huge.exact_sub(&Amount::new(10, 1)).is_none());
    assert_eq!(huge.exact_sub(&Amount::new(1, 0)), Some(Amount::from_parts(MAX_MANTISSA - 1, 0).unwrap()));
    assert_eq!(Amount::zero().exact_sub(&fine), Some(Amount::new(-1, 1)));
    assert_eq!(Amount::new(5, 0).exact_add(&Amount::new(25, 2)), Some(Amount::new(525, 2)));
    assert!(Amount::zero().is_zero());
    assert!(!fine.is_zero());
}
