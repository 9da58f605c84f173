use account_ledger::accounts::{
    create_user, get_usage, get_user_by_pubkey, get_users, manage_subscription, Accounts,
    CreateUser,
};
use account_ledger::ledger::AccountError;
use account_ledger::money::Usdc;
use account_ledger::subscriptions::{SubscriptionDocument, SubscriptionPayload};

fn strings(v: &[&str]) -> Vec<String> {
    v.iter().map(|s| s.to_string()).collect()
}

fn keys_of(doc: &SubscriptionDocument, method: &str) -> Option<Vec<String>> {
    doc.entries.iter().find(|e| e.method == method).map(|e| e.keys.clone())
}

fn register(accounts: &mut Accounts, pubkey: &str) -> i32 {
    let (_, user) = create_user(accounts, &CreateUser { pubkey: pubkey.to_string() }).unwrap();
    user.id
}

fn mutate(accounts: &mut Accounts, pubkey: &str, method: &str, keys: Option<&[&str]>) -> Result<String, AccountError> {
    let payload = SubscriptionPayload { method: method.to_string(), keys: keys.map(strings) };
    manage_subscription(accounts, &pubkey.to_string(), &payload)
}

fn subscriptions_of(accounts: &Accounts, pubkey: &str) -> SubscriptionDocument {
    get_user_by_pubkey(accounts, &pubkey.to_string()).unwrap().subscriptions
}

#[test]
fn create_user_twice_returns_same_id_and_one_row() {
    let mut accounts = Accounts::new();
    let (created, first) = create_user(&mut accounts, &CreateUser { pubkey: "pk1".to_string() }).unwrap();
    assert!(created);
    assert_eq!(first.id, 1);
    let (created_again, second) = create_user(&mut accounts, &CreateUser { pubkey: "pk1".to_string() }).unwrap();
    assert!(!created_again);
    assert_eq!(second.id, first.id);
    assert_eq!(get_users(&accounts).len(), 1);
}

#[test]
fn new_users_get_distinct_ids_and_empty_documents() {
    let mut accounts = Accounts::new();
    assert_eq!(register(&mut accounts, "a"), 1);
    assert_eq!(register(&mut accounts, "b"), 2);
    let users = get_users(&accounts);
    assert_eq!(users.len(), 2);
    assert_eq!(users[1].pubkey, "b");
    assert!(users[1].subscriptions.entries.is_empty());
}

#[test]
fn subscribe_is_a_set_union() {
    let mut accounts = Accounts::new();
    register(&mut accounts, "pk");
    mutate(&mut accounts, "pk", "subscribeaccountChange", Some(&["A", "B"])).unwrap();
    mutate(&mut accounts, "pk", "subscribeaccountChange", Some(&["B", "C"])).unwrap();
    let doc = subscriptions_of(&accounts, "pk");
    assert_eq!(keys_of(&doc, "accountChange"), Some(strings(&["A", "B", "C"])));
    assert_eq!(doc.entries.len(), 1);
}

#[test]
fn subscribe_collapses_repeated_input_keys() {
    let mut accounts = Accounts::new();
    register(&mut accounts, "pk");
    mutate(&mut accounts, "pk", "subscribelogs", Some(&["X", "X", "Y", "X"])).unwrap();
    let doc = subscriptions_of(&accounts, "pk");
    assert_eq!(keys_of(&doc, "logs"), Some(strings(&["X", "Y"])));
}

#[test]
fn unsubscribe_is_a_set_difference() {
    let mut accounts = Accounts::new();
    register(&mut accounts, "pk");
    mutate(&mut accounts, "pk", "subscribeaccountChange", Some(&["A", "B"])).unwrap();
    mutate(&mut accounts, "pk", "subscribeaccountChange", Some(&["B", "C"])).unwrap();
    mutate(&mut accounts, "pk", "unsubscribeaccountChange", Some(&["B"])).unwrap();
    let doc = subscriptions_of(&accounts, "pk");
    assert_eq!(keys_of(&doc, "accountChange"), Some(strings(&["A", "C"])));
}

#[test]
fn unsubscribe_unknown_method_is_a_no_op() {
    let mut accounts = Accounts::new();
    register(&mut accounts, "pk");
    mutate(&mut accounts, "pk", "subscribeaccountChange", Some(&["A"])).unwrap();
    let msg = mutate(&mut accounts, "pk", "unsubscribeslotChange", Some(&["A"])).unwrap();
    assert_eq!(msg, "Subscriptions updated for user: pk");
    let doc = subscriptions_of(&accounts, "pk");
    assert_eq!(doc.entries.len(), 1);
    assert_eq!(keys_of(&doc, "accountChange"), Some(strings(&["A"])));
    assert_eq!(keys_of(&doc, "slotChange"), None);
}

#[test]
fn emptied_method_key_is_kept() {
    let mut accounts = Accounts::new();
    register(&mut accounts, "pk");
    mutate(&mut accounts, "pk", "subscribeprogram", Some(&["A"])).unwrap();
    mutate(&mut accounts, "pk", "unsubscribeprogram", Some(&["A"])).unwrap();
    let doc = subscriptions_of(&accounts, "pk");
    assert_eq!(keys_of(&doc, "program"), Some(Vec::new()));
}

#[test]
fn payload_without_keys_changes_nothing() {
    let mut accounts = Accounts::new();
    register(&mut accounts, "pk");
    mutate(&mut accounts, "pk", "subscribeaccountChange", None).unwrap();
    assert!(subscriptions_of(&accounts, "pk").entries.is_empty());
}

#[test]
fn malformed_keyword_is_invalid_input() {
    let mut accounts = Accounts::new();
    register(&mut accounts, "pk");
    let r = mutate(&mut accounts, "pk", "watchaccountChange", Some(&["A"]));
    assert_eq!(r, Err(AccountError::InvalidInput));
    assert!(subscriptions_of(&accounts, "pk").entries.is_empty());
}

#[test]
fn unknown_pubkey_is_not_found_everywhere() {
    let mut accounts = Accounts::new();
    register(&mut accounts, "known");
    let missing = "missing".to_string();
    assert_eq!(mutate(&mut accounts, "missing", "subscribea", Some(&["A"])), Err(AccountError::NotFound));
    assert_eq!(get_usage(&accounts, &missing).err(), Some(AccountError::NotFound));
    assert_eq!(get_user_by_pubkey(&accounts, &missing).err(), Some(AccountError::NotFound));
}

#[test]
fn lookup_reports_api_key_of_credit_row() {
    let mut accounts = Accounts::new();
    let id = register(&mut accounts, "pk");
    assert_eq!(get_user_by_pubkey(&accounts, &"pk".to_string()).unwrap().api_key, None);
    accounts.ledger.credit(id, 5).unwrap();
    accounts.ledger.accounts[0].api_key = Some("key-1".to_string());
    let u = get_user_by_pubkey(&accounts, &"pk".to_string()).unwrap();
    assert_eq!(u.id, id);
    assert_eq!(u.pubkey, "pk");
    assert_eq!(u.api_key, Some("key-1".to_string()));
}

#[test]
fn usage_sums_prices_exactly_and_reports_latest() {
    let mut accounts = Accounts::new();
    let id = register(&mut accounts, "pk");
    accounts.add_package(1, Usdc { mantissa: 1000, scale: 2 });
    accounts.add_package(2, Usdc { mantissa: 500, scale: 2 });
    accounts.record_transaction(id, 1, 1_000).unwrap();
    accounts.record_transaction(id, 2, 2_000).unwrap();
    let usage = get_usage(&accounts, &"pk".to_string()).unwrap();
    assert_eq!(usage.total_spent_usdc, Usdc { mantissa: 1500, scale: 2 });
    let last = usage.last_transaction.unwrap();
    assert_eq!(last.id, 2);
    assert_eq!(last.package_id, 2);
    assert_eq!(last.amount_usdc, Usdc { mantissa: 500, scale: 2 });
    assert_eq!(last.created_at, 2_000);
}

#[test]
fn usage_latest_goes_by_timestamp_not_order() {
    let mut accounts = Accounts::new();
    let id = register(&mut accounts, "pk");
    accounts.add_package(1, Usdc { mantissa: 1000, scale: 2 });
    accounts.add_package(2, Usdc { mantissa: 500, scale: 2 });
    accounts.record_transaction(id, 1, 9_000).unwrap();
    accounts.record_transaction(id, 2, 3_000).unwrap();
    let usage = get_usage(&accounts, &"pk".to_string()).unwrap();
    assert_eq!(usage.last_transaction.unwrap().id, 1);
}

#[test]
fn usage_ignores_other_users_and_mixes_scales() {
    let mut accounts = Accounts::new();
    let a = register(&mut accounts, "a");
    let b = register(&mut accounts, "b");
    accounts.add_package(1, Usdc { mantissa: 15, scale: 1 });
    accounts.add_package(2, Usdc { mantissa: 25, scale: 2 });
    accounts.record_transaction(a, 1, 1).unwrap();
    accounts.record_transaction(b, 1, 2).unwrap();
    accounts.record_transaction(a, 2, 3).unwrap();
    let usage = get_usage(&accounts, &"a".to_string()).unwrap();
    assert_eq!(usage.total_spent_usdc, Usdc { mantissa: 175, scale: 2 });
}

#[test]
fn usage_defaults_without_credit_row_or_purchases() {
    let mut accounts = Accounts::new();
    register(&mut accounts, "pk");
    let usage = get_usage(&accounts, &"pk".to_string()).unwrap();
    assert_eq!(usage.remaining_credits, 0);
    assert_eq!(usage.last_transaction, None);
    assert_eq!(usage.total_spent_usdc, Usdc { mantissa: 0, scale: 0 });
}

#[test]
fn usage_reports_remaining_credits() {
    let mut accounts = Accounts::new();
    let id = register(&mut accounts, "pk");
    accounts.ledger.credit(id, 40).unwrap();
    accounts.ledger.debit(id, 15).unwrap();
    let usage = get_usage(&accounts, &"pk".to_string()).unwrap();
    assert_eq!(usage.remaining_credits, 25);
}

#[test]
fn usage_total_out_of_range_is_storage_error() {
    let mut accounts = Accounts::new();
    let id = register(&mut accounts, "pk");
    let max: i128 = 79228162514264337593543950335;
    accounts.add_package(1, Usdc { mantissa: max, scale: 0 });
    accounts.record_transaction(id, 1, 1).unwrap();
    accounts.record_transaction(id, 1, 2).unwrap();
    assert_eq!(get_usage(&accounts, &"pk".to_string()).err(), Some(AccountError::StorageError));
}

#[test]
fn transactions_get_consecutive_ids() {
    let mut accounts = Accounts::new();
    let t1 = accounts.record_transaction(7, 3, 100).unwrap();
    let t2 = accounts.record_transaction(7, 3, 200).unwrap();
    assert_eq!(t1.id, 1);
    assert_eq!(t2.id, 2);
    assert_eq!(t2.user_id, 7);
    assert_eq!(accounts.transactions.len(), 2);
}

#[test]
fn ids_and_keys_stay_distinct_after_updates() {
    let mut accounts = Accounts::new();
    register(&mut accounts, "a");
    mutate(&mut accounts, "a", "subscribex", Some(&["K"])).unwrap();
    register(&mut accounts, "b");
    register(&mut accounts, "a");
    register(&mut accounts, "c");
    let users = get_users(&accounts);
    let ids: Vec<i32> = users.iter().map(|u| u.id).collect();
    let keys: Vec<&str> = users.iter().map(|u| u.pubkey.as_str()).collect();
    assert_eq!(ids, vec![1, 2, 3]);
    assert_eq!(keys, vec!["a", "b", "c"]);
}
