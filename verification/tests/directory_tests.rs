use employee_directory::directory::EmployeeDB;
use employee_directory::parser::{classify, EmployeeDBAction};

fn insert(db: &mut EmployeeDB, department: &str, employee: &str) {
    db.insert_employee(department.to_string(), employee.to_string());
}

fn roster(db: &EmployeeDB, department: &str) -> Option<Vec<String>> {
    db.list_department(&department.to_string()).map(|dept| dept.employees.clone())
}

#[test]
fn insertions_keep_the_roster_sorted() {
    let mut db = EmployeeDB::new();
    let names = ["Zed", "Amir", "Mona", "Bea", "amir", "Bea"];
    for (step, name) in names.iter().enumerate() {
        insert(&mut db, "Sales", name);
        let current = roster(&db, "Sales").expect("department must exist after an insertion");
        assert_eq!(current.len(), step + 1);
        for pair in current.windows(2) {
            assert!(pair[0] <= pair[1], "roster out of order: {:?}", current);
        }
    }
    assert_eq!(
        roster(&db, "Sales").unwrap(),
        vec!["Amir", "Bea", "Bea", "Mona", "Zed", "amir"]
    );
}

#[test]
fn insertion_is_stable_for_equal_names() {
    let mut db = EmployeeDB::new();
    insert(&mut db, "Sales", "Amir");
    insert(&mut db, "Sales", "Zed");
    insert(&mut db, "Sales", "Amir");
    assert_eq!(roster(&db, "Sales").unwrap(), vec!["Amir", "Amir", "Zed"]);
}

#[test]
fn departments_come_into_being_with_their_first_employee() {
    let mut db = EmployeeDB::new();
    assert!(roster(&db, "Sales").is_none());
    insert(&mut db, "Sales", "Amir");
    assert_eq!(roster(&db, "Sales").unwrap(), vec!["Amir"]);
    assert!(roster(&db, "Engineering").is_none());
}

#[test]
fn round_trip_add_then_show() {
    let mut db = EmployeeDB::new();
    let add = classify("add Sally to Engineering").expect("the add command must classify");
    assert!(db.send(add).is_none());
    let show = classify("show Engineering").expect("the show command must classify");
    let rendered = db.send(show).expect("a query must render output");
    assert_eq!(rendered, "Sally\n");
}

#[test]
fn unknown_department_renders_the_fixed_message_and_mutates_nothing() {
    let mut db = EmployeeDB::new();
    let show = classify("show Nonexistent").expect("the show command must classify");
    let rendered = db.send(show).expect("a query must render output");
    assert_eq!(rendered, "no department by that name");
    assert!(roster(&db, "Nonexistent").is_none());
    let all = db.send(EmployeeDBAction::ListAll).expect("a query must render output");
    assert_eq!(all, "");
}

#[test]
fn list_all_enumerates_every_department() {
    let mut db = EmployeeDB::new();
    insert(&mut db, "Sales", "Amir");
    insert(&mut db, "Engineering", "Sally");
    let all = db.send(EmployeeDBAction::ListAll).expect("a query must render output");
    assert_eq!(all, "Sales:\nAmir\nEngineering:\nSally\n");
}

#[test]
fn list_all_exposes_each_department_with_its_members() {
    let mut db = EmployeeDB::new();
    insert(&mut db, "Sales", "Amir");
    insert(&mut db, "Engineering", "Sally");
    let entries = db.list_all();
    assert_eq!(entries.len(), 2);
    assert_eq!(entries[0].name, "Sales");
    assert_eq!(entries[0].department.employees, vec!["Amir"]);
    assert_eq!(entries[1].name, "Engineering");
    assert_eq!(entries[1].department.employees, vec!["Sally"]);
}

#[test]
fn insertion_through_send_is_silent() {
    let mut db = EmployeeDB::new();
    let out = db.send(EmployeeDBAction::InsertEmployee {
        new_employee_name: "Amir".to_string(),
        department_name: "Sales".to_string(),
    });
    assert!(out.is_none());
    assert_eq!(roster(&db, "Sales").unwrap(), vec!["Amir"]);
}

#[test]
fn rendering_a_department_lists_one_name_per_line() {
    let mut db = EmployeeDB::new();
    insert(&mut db, "Sales", "Mona");
    insert(&mut db, "Sales", "Amir");
    let show = classify("show Sales").expect("the show command must classify");
    let rendered = db.send(show).expect("a query must render output");
    assert_eq!(rendered, "Amir\nMona\n");
}
