use budgeting_app::account::Account;
use budgeting_app::account::TxKey;
use budgeting_app::dates::Date;
use budgeting_app::errors::LedgerError;

fn today() -> Date {
    let now = chrono::Local::now().date_naive();
    let year = chrono::Datelike::year(&now) as u32;
    let month = chrono::Datelike::month(&now);
    let day = chrono::Datelike::day(&now);
    Date::from_ymd(year, month, day).unwrap()
}

fn today_formatted() -> String {
    chrono::Local::now().date_naive().format("%d %b %Y").to_string()
}

#[test]
#[should_panic]
fn no_name() {
    Account::build("\n").unwrap();
}

#[test]
fn balance_increasing() {
    let mut a = Account::build("account").unwrap();
    let mut sum: i128 = 0;
    let day = today();
    for i in 0..100i64 {
        a.add_new_transaction(&format!("{i}"), i, day).unwrap();
        sum += i as i128;
    }
    assert_eq!(a.balance(), sum);
}

#[test]
fn balance_decreasing() {
    let mut a = Account::build("account").unwrap();
    let day = today();
    a.add_new_transaction("x", 100_00, day).unwrap();
    assert_eq!(a.balance(), 100_00);
    a.add_new_transaction("y", -50_00, day).unwrap();
    assert_eq!(a.balance(), 50_00);
}

#[test]
#[should_panic]
fn transaction_add_error() {
    let mut a = Account::build("account").unwrap();
    a.add_new_transaction("", 15_00, today()).unwrap();
}

#[test]
fn account_printing() {
    let mut a = Account::build("Savings").unwrap();
    a.add_new_transaction("Transaction", 10_00, today()).unwrap();
    assert_eq!(
        &a.render(),
        &format!(
            "Name: Savings | Balance: $10.00\n\
               Transactions:\n\
               Date: {} | Label: Transaction | Amount: $10.00",
            today_formatted()
        )
    );
}

#[test]
fn duplicate_transaction_rejected() {
    let mut a = Account::build("Savings").unwrap();
    let day = Date::from_ymd(2024, 5, 25).unwrap();
    a.add_transaction("Coffee", 3_50, day).unwrap();
    let r = a.add_transaction("Coffee", 3_50, day);
    assert_eq!(r, Err(LedgerError::DuplicateKey));
    assert_eq!(a.balance(), 3_50);
    assert_eq!(a.transactions().len(), 1);
}

#[test]
fn empty_label_rejected() {
    let mut a = Account::build("Savings").unwrap();
    let day = Date::from_ymd(2024, 5, 25).unwrap();
    let r = a.add_transaction("", 5_00, day);
    assert_eq!(r, Err(LedgerError::Validation));
    let r = a.add_transaction("   ", 5_00, day);
    assert_eq!(r, Err(LedgerError::Validation));
    assert_eq!(a.balance(), 0);
    assert_eq!(a.transactions().len(), 0);
}

#[test]
fn balance_tracks_every_operation() {
    let mut a = Account::build("Savings").unwrap();
    let d1 = Date::from_ymd(2024, 5, 25).unwrap();
    let d2 = Date::from_ymd(2024, 5, 26).unwrap();
    a.add_transaction("a", 10_00, d1).unwrap();
    a.add_transaction("b", -2_50, d2).unwrap();
    assert_eq!(a.balance(), 7_50);
    let key_a = TxKey { date: d1, label: String::from("a"), amount: 10_00 };
    a.edit_transaction_amount(&key_a, 4_00).unwrap();
    assert_eq!(a.balance(), 1_50);
    let key_b = TxKey { date: d2, label: String::from("b"), amount: -2_50 };
    a.remove_transaction(&key_b).unwrap();
    assert_eq!(a.balance(), 4_00);
}

#[test]
fn edit_amount_rekeys_entry() {
    let mut a = Account::build("Savings").unwrap();
    let day = Date::from_ymd(2024, 5, 25).unwrap();
    a.add_transaction("Transaction1", 10_00, day).unwrap();
    let old_key = TxKey { date: day, label: String::from("Transaction1"), amount: 10_00 };
    a.edit_transaction_amount(&old_key, 20_00).unwrap();
    let r = a.remove_transaction(&old_key);
    assert_eq!(r, Err(LedgerError::NotFound));
    assert_eq!(a.balance(), 20_00);
}

#[test]
fn remove_absent_transaction_not_found() {
    let mut a = Account::build("Savings").unwrap();
    let day = Date::from_ymd(2024, 5, 25).unwrap();
    let key = TxKey { date: day, label: String::from("x"), amount: 1_00 };
    assert_eq!(a.remove_transaction(&key), Err(LedgerError::NotFound));
}

#[test]
fn sorted_display() {
    let mut a = Account::build("Savings").unwrap();
    let d1 = Date::from_ymd(2024, 5, 26).unwrap();
    let d2 = Date::from_ymd(2024, 5, 25).unwrap();
    a.add_transaction("b", 2_00, d1).unwrap();
    a.add_transaction("a", 1_00, d2).unwrap();
    assert_eq!(
        &a.render(),
        "Name: Savings | Balance: $3.00\n\
           Transactions:\n\
           Date: 25 May 2024 | Label: a | Amount: $1.00\n\
           Date: 26 May 2024 | Label: b | Amount: $2.00"
    );
}

#[test]
fn edit_date_moves_entry() {
    let mut a = Account::build("Savings").unwrap();
    let d1 = Date::from_ymd(2024, 5, 25).unwrap();
    let d2 = Date::from_ymd(2024, 5, 26).unwrap();
    a.add_transaction("a", 1_00, d1).unwrap();
    let key = TxKey { date: d1, label: String::from("a"), amount: 1_00 };
    a.edit_transaction_date(&key, d2).unwrap();
    assert_eq!(a.balance(), 1_00);
    assert_eq!(a.transactions().len(), 1);
    assert_eq!(a.transactions()[0].date(), d2);
}

#[test]
fn edit_label_renames_entry() {
    let mut a = Account::build("Savings").unwrap();
    let d1 = Date::from_ymd(2024, 5, 25).unwrap();
    a.add_transaction("a", 1_00, d1).unwrap();
    let key = TxKey { date: d1, label: String::from("a"), amount: 1_00 };
    a.edit_transaction_label(&key, "b").unwrap();
    assert_eq!(a.transactions()[0].label(), "b");
    let r = a.edit_transaction_label(&key, "c");
    assert_eq!(r, Err(LedgerError::NotFound));
}
