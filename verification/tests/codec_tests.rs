use budgeting_app::account::Account;
use budgeting_app::codec::{encode, read_from_string};
use budgeting_app::dates::{parse_date, Date};
use budgeting_app::errors::{FormatFault, LedgerError};
use budgeting_app::ledger::Ledger;
use budgeting_app::money::parse_amount;

fn form_account() -> Account {
    let mut a = Account::build("Savings").unwrap();
    let day1 = parse_date("2024-05-25").unwrap();
    let day2 = parse_date("2024-05-26").unwrap();
    a.add_transaction("a", 1_00, day1).unwrap();
    a.add_transaction("b", 2_00, day2).unwrap();
    a
}

#[test]
fn empty_file() {
    assert!(read_from_string(String::new()).unwrap().is_empty());
}

#[test]
#[should_panic]
fn bad_start() {
    let _ = read_from_string(String::from("Savings,1,a,2024-06-10,}")).unwrap();
}

#[test]
#[should_panic]
fn bad_end() {
    let _ = read_from_string(String::from("Savings{,1,a,2024-06-10,")).unwrap();
}

#[test]
#[should_panic]
fn bad_trans_label() {
    let _ = read_from_string(String::from("Savings{,1,,2024-06-10,}")).unwrap();
}

#[test]
fn one_account() {
    let contents = String::from("Savings{,1,a,2024-06-10,}");
    let ledger = read_from_string(contents).unwrap();
    assert_eq!(
        &ledger.get("savings").unwrap().render(),
        "Name: Savings | Balance: $1.00\n\
           Transactions:\n\
           Date: 10 Jun 2024 | Label: a | Amount: $1.00"
    );
}

#[test]
fn two_accounts() {
    let contents = String::from("Savings{,1,a,2024-06-10,},Expenses{,3,c,2024-06-10,}");
    let b = read_from_string(contents).unwrap();
    assert_eq!(
        &b.get("savings").unwrap().render(),
        "Name: Savings | Balance: $1.00\n\
           Transactions:\n\
           Date: 10 Jun 2024 | Label: a | Amount: $1.00"
    );
    assert_eq!(
        &b.get("expenses").unwrap().render(),
        "Name: Expenses | Balance: $3.00\n\
           Transactions:\n\
           Date: 10 Jun 2024 | Label: c | Amount: $3.00"
    );
}

#[test]
fn write_test() {
    let mut ledger = Ledger::new();
    ledger.register(form_account());
    assert_eq!(&encode(&ledger), "Savings{,1,a,2024-05-25,2,b,2024-05-26,}");
}

#[test]
fn write_read_test() {
    let mut ledger = Ledger::new();
    ledger.register(form_account());
    let contents = encode(&ledger);
    let binding = read_from_string(contents).unwrap();
    let account2 = binding.get("savings").unwrap();
    assert_eq!(&form_account().render(), &account2.render());
}

#[test]
fn large_write_read_test() {
    let mut account = form_account();

    let start = chrono::Local::now().date_naive();
    let mut num: i64 = 0;
    for date in start.iter_days() {
        let day = Date::from_ymd(
            chrono::Datelike::year(&date) as u32,
            chrono::Datelike::month(&date),
            chrono::Datelike::day(&date),
        )
        .unwrap();
        account
            .add_transaction(&format!("Transaction{}", num), num * 100, day)
            .unwrap();
        num += 1;
        if num == 1000 {
            break;
        }
    }

    let mut map1 = Ledger::new();
    ledger_register_clone(&mut map1, &account);
    let account1 = map1.get("savings").unwrap();
    assert_eq!(&account.render(), &account1.render());

    let contents = encode(&map1);
    let map2 = read_from_string(contents).unwrap();
    let account2 = map2.get("savings").unwrap();
    assert_eq!(&account.render(), &account2.render());
}

fn ledger_register_clone(ledger: &mut Ledger, account: &Account) {
    let mut copy = Account::build(account.name()).unwrap();
    let mut i: usize = 0;
    while i < account.transactions().len() {
        let t = &account.transactions()[i];
        copy.add_transaction(t.label(), t.amount(), t.date()).unwrap();
        i += 1;
    }
    ledger.register(copy);
}

#[test]
fn round_trip_many_accounts() {
    let mut ledger = Ledger::new();
    let mut expenses = Account::build("Expenses").unwrap();
    let d1 = parse_date("2024-01-02").unwrap();
    let d2 = parse_date("2023-12-31").unwrap();
    expenses.add_transaction("later", -10_50, d1).unwrap();
    expenses.add_transaction("earlier", 3_25, d2).unwrap();
    ledger.register(expenses);
    ledger.register(form_account());
    let decoded = read_from_string(encode(&ledger)).unwrap();
    assert_eq!(decoded.len(), 2);
    assert_eq!(decoded.get("expenses").unwrap().balance(), -7_25);
    assert_eq!(decoded.get("savings").unwrap().balance(), 3_00);
    assert_eq!(
        &decoded.get("expenses").unwrap().render(),
        "Name: Expenses | Balance: $-7.25\n\
           Transactions:\n\
           Date: 31 Dec 2023 | Label: earlier | Amount: $3.25\n\
           Date: 02 Jan 2024 | Label: later | Amount: $-10.50"
    );
}

#[test]
fn malformed_first_token() {
    let r = read_from_string(String::from("Savings,1,a,2024-06-10,}"));
    assert_eq!(r.err().unwrap(), LedgerError::Format(FormatFault::CommaSeparators));
    let r = read_from_string(String::from("x"));
    assert_eq!(r.err().unwrap(), LedgerError::Format(FormatFault::CommaSeparators));
}

#[test]
fn malformed_endings() {
    let r = read_from_string(String::from("Savings{,1,a,2024-06-10,"));
    assert_eq!(r.err().unwrap(), LedgerError::Format(FormatFault::EndingBraces));
    let r = read_from_string(String::from("Savings{,1,a,2024-06-10"));
    assert_eq!(r.err().unwrap(), LedgerError::Format(FormatFault::WrongNumberOfEntries));
}

#[test]
fn malformed_values() {
    let r = read_from_string(String::from("Savings{,one,a,2024-06-10,}"));
    assert_eq!(r.err().unwrap(), LedgerError::Format(FormatFault::ValueNotValid));
    let r = read_from_string(String::from("Savings{,1,a,2024-13-10,}"));
    assert_eq!(r.err().unwrap(), LedgerError::Format(FormatFault::DateNotValid));
    let r = read_from_string(String::from("{,}"));
    assert_eq!(r.err().unwrap(), LedgerError::Validation);
    let r = read_from_string(String::from("Savings{,1,a,2024-06-10,1,a,2024-06-10,}"));
    assert_eq!(r.err().unwrap(), LedgerError::DuplicateKey);
}

#[test]
fn amount_storage_forms() {
    assert_eq!(parse_amount("1"), Some(1_00));
    assert_eq!(parse_amount("10.5"), Some(10_50));
    assert_eq!(parse_amount("10.05"), Some(10_05));
    assert_eq!(parse_amount("-0.5"), Some(-50));
    assert_eq!(parse_amount("+5"), Some(5_00));
    assert_eq!(parse_amount("007"), Some(7_00));
    assert_eq!(parse_amount("1.234"), None);
    assert_eq!(parse_amount("10."), None);
    assert_eq!(parse_amount(".5"), None);
    assert_eq!(parse_amount(""), None);
    assert_eq!(parse_amount("-"), None);
    assert_eq!(parse_amount("1e3"), None);
    assert_eq!(parse_amount("9999999999999999"), Some(999_999_999_999_999_900));
    assert_eq!(parse_amount("10000000000000000"), None);
}

#[test]
fn amount_tokens_round_trip_exactly() {
    let mut a = Account::build("A").unwrap();
    let day = parse_date("2024-06-10").unwrap();
    a.add_transaction("t1", 10_50, day).unwrap();
    a.add_transaction("t2", -3, day).unwrap();
    a.add_transaction("t3", 700, day).unwrap();
    let mut ledger = Ledger::new();
    ledger.register(a);
    assert_eq!(&encode(&ledger), "A{,10.5,t1,2024-06-10,-0.03,t2,2024-06-10,7,t3,2024-06-10,}");
    let back = read_from_string(encode(&ledger)).unwrap();
    assert_eq!(back.get("a").unwrap().balance(), 10_50 - 3 + 7_00);
}

#[test]
fn date_forms() {
    assert_eq!(parse_date("2024-02-29"), Date::from_ymd(2024, 2, 29));
    assert_eq!(parse_date("2023-02-29"), None);
    assert_eq!(parse_date("2024-02-30"), None);
    assert_eq!(parse_date("2024-13-01"), None);
    assert_eq!(parse_date("2024-00-01"), None);
    assert_eq!(parse_date("2024-1-01"), None);
    assert_eq!(parse_date("not-a-date"), None);
    let d = Date::from_ymd(2024, 6, 10).unwrap();
    assert_eq!(&d.iso(), "2024-06-10");
    assert_eq!(parse_date(&d.iso()), Some(d));
}

#[test]
fn ledger_display_sorted_by_name() {
    let mut ledger = Ledger::new();
    ledger.register(Account::build("Savings").unwrap());
    ledger.register(Account::build("Expenses").unwrap());
    assert_eq!(
        &ledger.render(),
        "\tName: Expenses | Balance: $0.00\nTransactions:\n\n\n\
           \tName: Savings | Balance: $0.00\nTransactions:\n\n\n"
    );
}
