use employee_directory::parser::{classify, EmployeeDBAction, InputParser};

fn expect_insert(line: &str, employee: &str, department: &str) {
    match classify(line) {
        Some(EmployeeDBAction::InsertEmployee { new_employee_name, department_name }) => {
            assert_eq!(new_employee_name, employee);
            assert_eq!(department_name, department);
        }
        other => panic!("expected an insertion for {:?}, got {:?}", line, describe(&other)),
    }
}

fn describe(r: &Option<EmployeeDBAction>) -> String {
    match r {
        Some(EmployeeDBAction::InsertEmployee { new_employee_name, department_name }) => {
            format!("InsertEmployee({}, {})", new_employee_name, department_name)
        }
        Some(EmployeeDBAction::ListDepartment { department_name }) => {
            format!("ListDepartment({})", department_name)
        }
        Some(EmployeeDBAction::ListAll) => "ListAll".to_string(),
        None => "Unrecognized".to_string(),
    }
}

#[test]
fn classify_add_command() {
    expect_insert("add Sally to Engineering", "Sally", "Engineering");
}

#[test]
fn classify_add_keeps_case_and_word_characters() {
    expect_insert("add Bob_2 to R_and_D9", "Bob_2", "R_and_D9");
}

#[test]
fn classify_show_all() {
    assert!(matches!(classify("show"), Some(EmployeeDBAction::ListAll)));
}

#[test]
fn classify_show_department() {
    match classify("show sales") {
        Some(EmployeeDBAction::ListDepartment { department_name }) => {
            assert_eq!(department_name, "sales");
        }
        other => panic!("expected a department listing, got {}", describe(&other)),
    }
}

#[test]
fn classify_trims_surrounding_whitespace() {
    expect_insert("  add Sally to Engineering\n", "Sally", "Engineering");
    assert!(matches!(classify("  show  \r\n"), Some(EmployeeDBAction::ListAll)));
    match classify("\tshow sales\n") {
        Some(EmployeeDBAction::ListDepartment { department_name }) => {
            assert_eq!(department_name, "sales");
        }
        other => panic!("expected a department listing, got {}", describe(&other)),
    }
}

#[test]
fn classify_is_deterministic_on_the_same_text() {
    let line = "add Amir to Sales";
    let first = describe(&classify(line));
    let second = describe(&classify(line));
    assert_eq!(first, second);
    let unknown = "whatever else";
    assert_eq!(describe(&classify(unknown)), describe(&classify(unknown)));
}

#[test]
fn classify_rejects_missing_separators() {
    assert!(classify("addsallytoengineering").is_none());
    assert!(classify("add Sally to").is_none());
}

#[test]
fn classify_rejects_malformed_lines() {
    assert!(classify("").is_none());
    assert!(classify("   ").is_none());
    assert!(classify("shows").is_none());
    assert!(classify("showsales").is_none());
    assert!(classify("add  Sally to Engineering").is_none());
    assert!(classify("add Sally  to Engineering").is_none());
    assert!(classify("add Sally to Engineering Dept").is_none());
    assert!(classify("show sales figures").is_none());
    assert!(classify("add to to").is_none());
    assert!(classify("remove Sally from Engineering").is_none());
}

#[test]
fn classify_add_with_keyword_like_names() {
    expect_insert("add to to to", "to", "to");
    expect_insert("add show to add", "show", "add");
}

#[test]
fn parser_type_delegates_to_classify() {
    let parser = InputParser::new();
    match parser.parse("add Amir to Sales") {
        Some(EmployeeDBAction::InsertEmployee { new_employee_name, department_name }) => {
            assert_eq!(new_employee_name, "Amir");
            assert_eq!(department_name, "Sales");
        }
        other => panic!("expected an insertion, got {}", describe(&other)),
    }
    assert!(parser.parse("nonsense").is_none());
}
