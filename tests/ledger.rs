use account_ledger::ledger::{AccountError, CreditLedger};
use account_ledger::money::{checked_add, Usdc};
use account_ledger::subscriptions::{parse_method_keyword, MethodAction};
use account_ledger::usage::{latest_transaction, summarize_usage, total_spent, Transaction};

fn tx(id: i32, mantissa: i128, scale: u32, created_at: i64) -> Transaction {
    Transaction { id, package_id: id, amount_usdc: Usdc { mantissa, scale }, created_at }
}

#[test]
fn missing_row_has_zero_credits() {
    let ledger = CreditLedger::new();
    assert_eq!(ledger.remaining(42), 0);
    assert_eq!(ledger.row_balance(42), None);
}

#[test]
fn debits_track_successes_and_never_go_negative() {
    let mut ledger = CreditLedger::new();
    assert_eq!(ledger.credit(1, 10), Ok(10));
    let mut succeeded = 0;
    for amount in [3i64, 5, 4, 2, 1] {
        if ledger.debit(1, amount).is_ok() {
            succeeded += amount;
        }
    }
    assert_eq!(succeeded, 10);
    assert_eq!(ledger.remaining(1), 0);
    assert_eq!(ledger.debit(1, 1), Err(AccountError::InsufficientCredits));
    assert_eq!(ledger.remaining(1), 0);
}

#[test]
fn debit_more_than_balance_is_refused() {
    let mut ledger = CreditLedger::new();
    ledger.credit(1, 3).unwrap();
    assert_eq!(ledger.debit(1, 4), Err(AccountError::InsufficientCredits));
    assert_eq!(ledger.remaining(1), 3);
    assert_eq!(ledger.debit(2, 1), Err(AccountError::InsufficientCredits));
}

#[test]
fn negative_amounts_are_invalid() {
    let mut ledger = CreditLedger::new();
    assert_eq!(ledger.debit(1, -1), Err(AccountError::InvalidInput));
    assert_eq!(ledger.credit(1, -1), Err(AccountError::InvalidInput));
    assert_eq!(ledger.refund(1, -1), Err(AccountError::InvalidInput));
}

#[test]
fn refund_adds_credits_per_user() {
    let mut ledger = CreditLedger::new();
    ledger.credit(1, 5).unwrap();
    ledger.credit(2, 7).unwrap();
    assert_eq!(ledger.debit(1, 5), Ok(0));
    assert_eq!(ledger.refund(1, 2), Ok(2));
    assert_eq!(ledger.remaining(1), 2);
    assert_eq!(ledger.remaining(2), 7);
}

#[test]
fn credit_overflow_is_refused() {
    let mut ledger = CreditLedger::new();
    ledger.credit(1, i64::MAX).unwrap();
    assert_eq!(ledger.credit(1, 1), Err(AccountError::StorageError));
    assert_eq!(ledger.remaining(1), i64::MAX);
}

#[test]
fn decimal_sum_is_exact() {
    let ten = Usdc { mantissa: 1000, scale: 2 };
    let five = Usdc { mantissa: 500, scale: 2 };
    assert_eq!(checked_add(ten, five), Some(Usdc { mantissa: 1500, scale: 2 }));
}

#[test]
fn decimal_sum_aligns_scales() {
    let a = Usdc { mantissa: 1, scale: 1 };
    let b = Usdc { mantissa: 3, scale: 4 };
    assert_eq!(checked_add(a, b), Some(Usdc { mantissa: 1003, scale: 4 }));
    let c = Usdc { mantissa: -250, scale: 2 };
    assert_eq!(checked_add(c, Usdc { mantissa: 2, scale: 0 }), Some(Usdc { mantissa: -50, scale: 2 }));
}

#[test]
fn decimal_sum_out_of_range_is_none() {
    let max = Usdc { mantissa: 79228162514264337593543950335, scale: 0 };
    assert_eq!(checked_add(max, Usdc { mantissa: 1, scale: 0 }), None);
    assert_eq!(checked_add(max, Usdc { mantissa: 1, scale: 28 }), None);
    let big = Usdc { mantissa: 79228162514264337593543950335, scale: 0 };
    let neg = Usdc { mantissa: -79228162514264337593543950335, scale: 0 };
    assert_eq!(checked_add(big, neg), Some(Usdc { mantissa: 0, scale: 0 }));
}

#[test]
fn total_of_nothing_is_zero() {
    assert_eq!(total_spent(&Vec::new()), Some(Usdc { mantissa: 0, scale: 0 }));
    assert_eq!(latest_transaction(&Vec::new()), None);
}

#[test]
fn latest_prefers_later_record_on_equal_time() {
    let h = vec![tx(1, 1, 0, 50), tx(2, 1, 0, 50), tx(3, 1, 0, 10)];
    assert_eq!(latest_transaction(&h).unwrap().id, 2);
}

#[test]
fn summary_from_row_and_history() {
    let h = vec![tx(1, 1000, 2, 1), tx(2, 500, 2, 2)];
    let u = summarize_usage(Some(9), &h).unwrap();
    assert_eq!(u.remaining_credits, 9);
    assert_eq!(u.last_transaction.unwrap().id, 2);
    assert_eq!(u.total_spent_usdc, Usdc { mantissa: 1500, scale: 2 });
    let empty = summarize_usage(None, &Vec::new()).unwrap();
    assert_eq!(empty.remaining_credits, 0);
    assert_eq!(empty.last_transaction, None);
}

#[test]
fn keyword_parsing() {
    let (a, m) = parse_method_keyword("subscribeaccountChange").unwrap();
    assert_eq!(a, MethodAction::Subscribe);
    assert_eq!(m, "accountChange");
    let (a, m) = parse_method_keyword("unsubscribeslot").unwrap();
    assert_eq!(a, MethodAction::Unsubscribe);
    assert_eq!(m, "slot");
    let (a, m) = parse_method_keyword("subscribe").unwrap();
    assert_eq!(a, MethodAction::Subscribe);
    assert_eq!(m, "");
    assert!(parse_method_keyword("subscrib").is_none());
    assert!(parse_method_keyword("").is_none());
    assert!(parse_method_keyword("Subscribex").is_none());
}
