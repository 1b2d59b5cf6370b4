use budgeting_app::account::Account;
use budgeting_app::commands::{
    add_account, add_new_transaction, add_transaction, edit_transaction_amount,
    edit_transaction_date, edit_transaction_label, execute_command, remove_account,
    remove_transaction, Outcome,
};
use budgeting_app::dates::Date;
use budgeting_app::errors::CommandError;
use budgeting_app::ledger::Ledger;
use budgeting_app::parse_args;

fn today() -> Date {
    let now = chrono::Local::now().date_naive();
    Date::from_ymd(
        chrono::Datelike::year(&now) as u32,
        chrono::Datelike::month(&now),
        chrono::Datelike::day(&now),
    )
    .unwrap()
}

fn today_iso() -> String {
    today().iso()
}

fn today_formatted() -> String {
    chrono::Local::now().date_naive().format("%d %b %Y").to_string()
}

fn words(items: &[&str]) -> Vec<String> {
    items.iter().map(|s| String::from(*s)).collect()
}

fn ledger_with(name: &str) -> Ledger {
    let mut ledger = Ledger::new();
    ledger.register(Account::build(name).unwrap());
    ledger
}

#[test]
fn add_today() {
    let mut account_map = ledger_with("Savings");

    assert_eq!(account_map.get("savings").unwrap().transactions().len(), 0);
    assert_eq!(account_map.get("savings").unwrap().balance(), 0);

    let inputs = words(&["at", "Savings", "transaction1", "-10.00", "2024-05-25"]);
    add_transaction(&inputs, &mut account_map).unwrap();

    assert_eq!(account_map.len(), 1);
    assert_eq!(
        &account_map.get("savings").unwrap().render(),
        "Name: Savings | Balance: $-10.00\n\
           Transactions:\n\
           Date: 25 May 2024 | Label: Transaction 1 | Amount: $-10.00"
    );
    assert_eq!(account_map.get("savings").unwrap().balance(), -10_00);

    let inputs = words(&["at", "Savings", "transaction2", "30.00"]);
    add_new_transaction(&inputs, &mut account_map, today()).unwrap();

    assert_eq!(account_map.get("savings").unwrap().transactions().len(), 2);
    assert_eq!(account_map.get("savings").unwrap().balance(), 20_00);
    assert_eq!(
        &account_map.get("savings").unwrap().render(),
        &format!(
            "Name: Savings | Balance: $20.00\n\
               Transactions:\n\
               Date: 25 May 2024 | Label: Transaction 1 | Amount: $-10.00\n\
               Date: {} | Label: Transaction 2 | Amount: $30.00",
            today_formatted()
        )
    );
}

#[test]
#[should_panic]
fn add_today_short_input() {
    let mut account_map = ledger_with("Savings");
    let inputs = words(&["at", "Savings", "transaction1"]);
    add_new_transaction(&inputs, &mut account_map, today()).unwrap();
}

#[test]
#[should_panic]
fn add_today_wrong_name() {
    let mut account_map = ledger_with("Savings");
    let inputs = words(&["at", "Expenses", "transaction1", "-10.00"]);
    add_new_transaction(&inputs, &mut account_map, today()).unwrap();
}

#[test]
fn add_specific_day() {
    let mut account_map = ledger_with("Savings");

    assert_eq!(account_map.get("savings").unwrap().transactions().len(), 0);
    assert_eq!(account_map.get("savings").unwrap().balance(), 0);

    let inputs = words(&["atd", "Savings", "transaction1", "-10.00", "2024-05-26"]);
    add_transaction(&inputs, &mut account_map).unwrap();

    assert_eq!(account_map.len(), 1);
    assert_eq!(
        &account_map.get("savings").unwrap().render(),
        "Name: Savings | Balance: $-10.00\n\
           Transactions:\n\
           Date: 26 May 2024 | Label: Transaction 1 | Amount: $-10.00"
    );
    assert_eq!(account_map.get("savings").unwrap().balance(), -10_00);
}

#[test]
fn add_account_test() {
    let mut account_map = Ledger::new();
    let inputs = words(&["aa", "Savings"]);

    add_account(&inputs, &mut account_map).unwrap();

    assert_eq!(account_map.len(), 1);
    assert_eq!(account_map.get("savings").unwrap().balance(), 0);
    assert_eq!(account_map.get("savings").unwrap().transactions().len(), 0);
    assert_eq!(
        &account_map.get("savings").unwrap().render(),
        "Name: Savings | Balance: $0.00\n\
        Transactions:\n"
    );
}

#[test]
#[should_panic]
fn add_account_already_exists() {
    let mut account_map = ledger_with("Savings");
    let inputs = words(&["aa", "Savings"]);
    add_account(&inputs, &mut account_map).unwrap();
}

#[test]
fn remove_account_test() {
    let mut account_map = ledger_with("Savings");
    let inputs = words(&["aa", "Savings"]);

    remove_account(&inputs, &mut account_map).unwrap();

    assert_eq!(account_map.len(), 0);
}

#[test]
#[should_panic]
fn remove_account_does_not_exist() {
    let mut account_map = Ledger::new();
    let inputs = words(&["aa", "Savings"]);
    remove_account(&inputs, &mut account_map).unwrap();
}

#[test]
fn edit_transaction_amount_test() {
    let mut account_map = ledger_with("Expenses");
    let day = today_iso();

    let inputs = words(&["rt", "Expenses", "transaction1", "10.00", &day]);
    add_transaction(&inputs, &mut account_map).unwrap();

    assert_eq!(account_map.get("expenses").unwrap().transactions().len(), 1);
    assert_eq!(
        &account_map.get("expenses").unwrap().render(),
        &format!(
            "Name: Expenses | Balance: $10.00\n\
               Transactions:\n\
               Date: {} | Label: Transaction 1 | Amount: $10.00",
            today_formatted()
        )
    );

    let inputs = words(&["rt", "Expenses", "transaction1", "10.00", &day, "20.00"]);
    edit_transaction_amount(&inputs, &mut account_map).unwrap();

    assert_eq!(account_map.get("expenses").unwrap().transactions().len(), 1);
    assert_eq!(
        &account_map.get("expenses").unwrap().render(),
        &format!(
            "Name: Expenses | Balance: $20.00\n\
               Transactions:\n\
               Date: {} | Label: Transaction 1 | Amount: $20.00",
            today_formatted()
        )
    );
}

#[test]
#[should_panic]
fn edit_transaction_amount_doesnt_exist() {
    let mut account_map = ledger_with("Expenses");
    let day = today_iso();
    let inputs = words(&["rt", "Expenses", "transaction1", "10.00", &day]);
    edit_transaction_amount(&inputs, &mut account_map).unwrap();
}

#[test]
#[should_panic]
fn edit_transaction_amount_collision() {
    let mut account_map = ledger_with("Expenses");
    let day = today_iso();

    let inputs = words(&["rt", "Expenses", "transaction1", "10.00", &day]);
    add_transaction(&inputs, &mut account_map).unwrap();

    let inputs = words(&["rt", "Expenses", "transaction1", "20.00", &day]);
    add_transaction(&inputs, &mut account_map).unwrap();

    let inputs = words(&["rt", "Expenses", "transaction1", "10.00", &day, "20.00"]);
    edit_transaction_amount(&inputs, &mut account_map).unwrap();
}

#[test]
fn edit_transaction_date_test() {
    let mut account_map = ledger_with("Expenses");

    let inputs = words(&["rt", "Expenses", "transaction1", "10.00", "2024-05-25"]);
    add_transaction(&inputs, &mut account_map).unwrap();

    assert_eq!(account_map.get("expenses").unwrap().transactions().len(), 1);
    assert_eq!(
        &account_map.get("expenses").unwrap().render(),
        "Name: Expenses | Balance: $10.00\n\
        Transactions:\n\
        Date: 25 May 2024 | Label: Transaction 1 | Amount: $10.00"
    );

    let inputs = words(&["rt", "Expenses", "transaction1", "10.00", "2024-05-25", "2024-05-26"]);
    edit_transaction_date(&inputs, &mut account_map).unwrap();

    assert_eq!(account_map.get("expenses").unwrap().transactions().len(), 1);
    assert_eq!(
        &account_map.get("expenses").unwrap().render(),
        "Name: Expenses | Balance: $10.00\n\
        Transactions:\n\
        Date: 26 May 2024 | Label: Transaction 1 | Amount: $10.00"
    );
}

#[test]
#[should_panic]
fn edit_transaction_date_doesnt_exist() {
    let mut account_map = ledger_with("Expenses");
    let inputs = words(&["rt", "Expenses", "transaction1", "10.00", "2024-05-25", "2024-05-26"]);
    edit_transaction_date(&inputs, &mut account_map).unwrap();
}

#[test]
#[should_panic]
fn edit_transaction_date_collision() {
    let mut account_map = ledger_with("Expenses");

    let inputs = words(&["rt", "Expenses", "transaction1", "10.00", "2024-05-25"]);
    add_transaction(&inputs, &mut account_map).unwrap();

    let inputs = words(&["rt", "Expenses", "transaction1", "10.00", "2024-05-26"]);
    add_transaction(&inputs, &mut account_map).unwrap();

    let inputs = words(&["rt", "Expenses", "transaction1", "10.00", "2024-05-25", "2024-05-26"]);
    edit_transaction_date(&inputs, &mut account_map).unwrap();
}

#[test]
fn edit_transaction_label_test() {
    let mut account_map = ledger_with("Expenses");
    let day = today_iso();

    let inputs = words(&["rt", "Expenses", "transaction1", "10.00", &day]);
    add_transaction(&inputs, &mut account_map).unwrap();

    assert_eq!(account_map.get("expenses").unwrap().transactions().len(), 1);
    assert_eq!(
        &account_map.get("expenses").unwrap().render(),
        &format!(
            "Name: Expenses | Balance: $10.00\n\
               Transactions:\n\
               Date: {} | Label: Transaction 1 | Amount: $10.00",
            today_formatted()
        )
    );

    let inputs = words(&["rt", "Expenses", "transaction1", "10.00", &day, "transaction2"]);
    edit_transaction_label(&inputs, &mut account_map).unwrap();

    assert_eq!(account_map.get("expenses").unwrap().transactions().len(), 1);
    assert_eq!(
        &account_map.get("expenses").unwrap().render(),
        &format!(
            "Name: Expenses | Balance: $10.00\n\
               Transactions:\n\
               Date: {} | Label: Transaction 2 | Amount: $10.00",
            today_formatted()
        )
    );
}

#[test]
#[should_panic]
fn edit_transaction_label_doesnt_exist() {
    let mut account_map = ledger_with("Expenses");
    let day = today_iso();
    let inputs = words(&["rt", "Expenses", "transaction1", "10.00", &day, "transaction2"]);
    edit_transaction_label(&inputs, &mut account_map).unwrap();
}

#[test]
#[should_panic]
fn edit_transaction_label_collision() {
    let mut account_map = ledger_with("Expenses");
    let day = today_iso();

    let inputs = words(&["rt", "Expenses", "transaction1", "10.00", &day]);
    add_transaction(&inputs, &mut account_map).unwrap();

    let inputs = words(&["rt", "Expenses", "transaction2", "10.00", &day]);
    add_transaction(&inputs, &mut account_map).unwrap();

    let inputs = words(&["rt", "Expenses", "transaction1", "10.00", &day, "transaction2"]);
    edit_transaction_label(&inputs, &mut account_map).unwrap();
}

#[test]
fn remove_transaction_test() {
    let mut account_map = ledger_with("Expenses");

    let inputs = words(&["rt", "Expenses", "transaction2", "10.00", "2024-05-26"]);
    add_transaction(&inputs, &mut account_map).unwrap();

    assert_eq!(account_map.get("expenses").unwrap().transactions().len(), 1);

    let inputs = words(&["rt", "Expenses", "transaction2", "10.00", "2024-05-26"]);
    remove_transaction(&inputs, &mut account_map).unwrap();

    assert_eq!(account_map.get("expenses").unwrap().transactions().len(), 0);
    assert_eq!(account_map.get("expenses").unwrap().balance(), 0);
}

#[test]
#[should_panic]
fn remove_transaction_does_not_exist() {
    let mut account_map = ledger_with("Expenses");
    let inputs = words(&["rt", "Expenses", "transaction2", "10.00", "2024-05-26"]);
    remove_transaction(&inputs, &mut account_map).unwrap();
}

#[test]
fn command_error_kinds() {
    let mut account_map = ledger_with("Expenses");
    let r = add_transaction(&words(&["atd", "Expenses", "t"]), &mut account_map);
    assert_eq!(r, Err(CommandError::WrongInputCount));
    let r = add_transaction(
        &words(&["atd", "Savings", "t", "1", "2024-05-25"]),
        &mut account_map,
    );
    assert_eq!(r, Err(CommandError::UnknownAccount));
    let r = add_transaction(
        &words(&["atd", "Expenses", "t", "one", "2024-05-25"]),
        &mut account_map,
    );
    assert_eq!(r, Err(CommandError::BadAmount));
    let r = add_transaction(
        &words(&["atd", "Expenses", "t", "1", "2024-05-32"]),
        &mut account_map,
    );
    assert_eq!(r, Err(CommandError::BadDate));
    let r = add_account(&words(&["aa", "Expenses"]), &mut account_map);
    assert_eq!(r, Err(CommandError::AccountExists));
    add_transaction(&words(&["atd", "Expenses", "t", "1", "2024-05-25"]), &mut account_map)
        .unwrap();
    let r = add_transaction(
        &words(&["atd", "Expenses", "t", "1", "2024-05-25"]),
        &mut account_map,
    );
    assert_eq!(
        r,
        Err(CommandError::Ledger(budgeting_app::errors::LedgerError::DuplicateKey))
    );
}

#[test]
fn dispatch_outcomes() {
    let mut account_map = Ledger::new();
    let day = today();
    assert_eq!(execute_command(&words(&["q"]), &mut account_map, day), Outcome::Quit);
    assert_eq!(execute_command(&words(&["s"]), &mut account_map, day), Outcome::Save);
    assert_eq!(execute_command(&words(&["u"]), &mut account_map, day), Outcome::Reload);
    assert_eq!(execute_command(&words(&["hello"]), &mut account_map, day), Outcome::Unknown);
    assert_eq!(
        execute_command(&words(&["aa", "Savings"]), &mut account_map, day),
        Outcome::Applied
    );
    assert_eq!(account_map.len(), 1);
    assert_eq!(
        execute_command(&words(&["aa", "Savings"]), &mut account_map, day),
        Outcome::Rejected(CommandError::AccountExists)
    );
    assert_eq!(
        execute_command(&words(&["at", "Savings", "coffee", "3.50"]), &mut account_map, day),
        Outcome::Applied
    );
    assert_eq!(account_map.get("savings").unwrap().balance(), 3_50);
}

#[test]
fn parse_args_checks() {
    let args = vec![String::from("prog"), String::from("ledger.csv")];
    assert_eq!(parse_args(&args), Ok("ledger.csv"));
    let args = vec![String::from("prog")];
    assert_eq!(parse_args(&args), Err(CommandError::WrongInputCount));
    let args = vec![String::from("prog"), String::from("a.csv"), String::from("b.csv")];
    assert_eq!(parse_args(&args), Err(CommandError::WrongInputCount));
    let args = vec![String::from("prog"), String::from("ledger.txt")];
    assert_eq!(parse_args(&args), Err(CommandError::BadFilePath));
    let args = vec![String::from("prog"), String::from("csv")];
    assert_eq!(parse_args(&args), Err(CommandError::BadFilePath));
}
