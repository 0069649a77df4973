//! Classification of one line of input into a structured command.
//!
//! A command line, once stripped of surrounding whitespace, matches at most
//! one of three grammars: `add <employee> to <department>`,
//! `show <department>`, or exactly `show`. Employee and department names are
//! single word tokens. A line that matches no grammar is unrecognized.

use crate::text::{
    is_space, is_word, is_word_char, lemma_trim_end_at, lemma_trim_start_at, space_char, trim_spec,
    word_char,
};
use vstd::prelude::*;

verus! {

/// A structured command against the directory, as extracted from one line
/// of input.
pub enum EmployeeDBAction {
    InsertEmployee { new_employee_name: String, department_name: String },
    ListDepartment { department_name: String },
    ListAll,
}

/// The literal `add` keyword followed by its separating space.
pub open spec fn add_keyword() -> Seq<char> {
    seq!['a', 'd', 'd', ' ']
}

/// The literal `to` keyword with its surrounding spaces.
pub open spec fn to_keyword() -> Seq<char> {
    seq![' ', 't', 'o', ' ']
}

/// The literal `show` keyword on its own.
pub open spec fn show_keyword() -> Seq<char> {
    seq!['s', 'h', 'o', 'w']
}

/// The literal `show` keyword followed by its separating space.
pub open spec fn show_keyword_spaced() -> Seq<char> {
    seq!['s', 'h', 'o', 'w', ' ']
}

/// `t` is exactly `add <e> to <d>` for the word tokens `e` and `d`.
pub open spec fn is_add_command(t: Seq<char>, e: Seq<char>, d: Seq<char>) -> bool {
    is_word(e) && is_word(d) && t == add_keyword() + e + to_keyword() + d
}

pub open spec fn matches_add(t: Seq<char>) -> bool {
    exists|e: Seq<char>, d: Seq<char>| is_add_command(t, e, d)
}

/// `t` is exactly `show <d>` for the word token `d`.
pub open spec fn is_show_command(t: Seq<char>, d: Seq<char>) -> bool {
    is_word(d) && t == show_keyword_spaced() + d
}

pub open spec fn matches_show_department(t: Seq<char>) -> bool {
    exists|d: Seq<char>| is_show_command(t, d)
}

/// `t` is exactly `show`, with no trailing department.
pub open spec fn matches_show_all(t: Seq<char>) -> bool {
    t == show_keyword()
}

/// `t` matches at least one of the three grammars.
pub open spec fn recognized(t: Seq<char>) -> bool {
    matches_add(t) || matches_show_department(t) || matches_show_all(t)
}

/// What `classify` promises of its result: the trimmed line matches the
/// grammar of the returned command with exactly the returned names, and a
/// `None` result means no grammar matches at all.
pub open spec fn classify_post(line: Seq<char>, r: Option<EmployeeDBAction>) -> bool {
    let t = trim_spec(line);
    match r {
        Some(EmployeeDBAction::InsertEmployee { new_employee_name, department_name }) => {
            is_add_command(t, new_employee_name@, department_name@)
        },
        Some(EmployeeDBAction::ListDepartment { department_name }) => {
            is_show_command(t, department_name@)
        },
        Some(EmployeeDBAction::ListAll) => matches_show_all(t),
        None => !recognized(t),
    }
}

pub proof fn lemma_add_decomposition(t: Seq<char>, e: Seq<char>, d: Seq<char>)
    requires
        is_add_command(t, e, d),
    ensures
        t.len() == 8 + e.len() + d.len(),
        t.len() >= 10,
        t[0] == 'a' && t[1] == 'd' && t[2] == 'd' && t[3] == ' ',
        e =~= t.subrange(4, 4 + e.len() as int),
        t[4 + e.len() as int] == ' ',
        t[5 + e.len() as int] == 't',
        t[6 + e.len() as int] == 'o',
        t[7 + e.len() as int] == ' ',
        d =~= t.subrange(8 + e.len() as int, t.len() as int),
        forall|k: int| 4 <= k < 4 + e.len() ==> is_word_char(#[trigger] t[k]),
        forall|k: int| 8 + e.len() <= k < t.len() ==> is_word_char(#[trigger] t[k]),
{
    let el = e.len() as int;
    assert(add_keyword().len() == 4);
    assert(to_keyword().len() == 4);
    assert forall|k: int| 0 <= k < t.len() implies t[k] == (if k < 4 {
        add_keyword()[k]
    } else if k < 4 + el {
        e[k - 4]
    } else if k < 8 + el {
        to_keyword()[k - 4 - el]
    } else {
        d[k - 8 - el]
    }) by {
        assert(t[k] == (add_keyword() + e + to_keyword() + d)[k]);
    }
    assert forall|k: int| 4 <= k < 4 + e.len() implies is_word_char(#[trigger] t[k]) by {
        assert(t[k] == e[k - 4]);
    }
    assert forall|k: int| 8 + e.len() <= k < t.len() implies is_word_char(#[trigger] t[k]) by {
        assert(t[k] == d[k - 8 - el]);
    }
}

pub proof fn lemma_show_decomposition(t: Seq<char>, d: Seq<char>)
    requires
        is_show_command(t, d),
    ensures
        t.len() == 5 + d.len(),
        t.len() >= 6,
        t[0] == 's' && t[1] == 'h' && t[2] == 'o' && t[3] == 'w' && t[4] == ' ',
        d =~= t.subrange(5, t.len() as int),
        forall|k: int| 5 <= k < t.len() ==> is_word_char(#[trigger] t[k]),
{
    assert(show_keyword_spaced().len() == 5);
    assert forall|k: int| 0 <= k < t.len() implies t[k] == (if k < 5 {
        show_keyword_spaced()[k]
    } else {
        d[k - 5]
    }) by {
        assert(t[k] == (show_keyword_spaced() + d)[k]);
    }
    assert forall|k: int| 5 <= k < t.len() implies is_word_char(#[trigger] t[k]) by {
        assert(t[k] == d[k - 5]);
    }
}

/// Within a line of the `add` shape, the employee token extends exactly to
/// the end of the maximal word run that starts after the `add` keyword.
pub proof fn lemma_add_token_extent(t: Seq<char>, e: Seq<char>, d: Seq<char>, e_end: int)
    requires
        is_add_command(t, e, d),
        4 <= e_end <= t.len(),
        forall|k: int| 4 <= k < e_end ==> is_word_char(#[trigger] t[k]),
        e_end == t.len() || !is_word_char(t[e_end]),
    ensures
        e_end == 4 + e.len(),
{
    lemma_add_decomposition(t, e, d);
    if e_end < 4 + e.len() {
        assert(is_word_char(t[e_end]));
        assert(false);
    }
    if e_end > 4 + e.len() {
        assert(is_word_char(t[4 + e.len() as int]));
        assert(t[4 + e.len() as int] == ' ');
        assert(false);
    }
}

/// The names of an `add` command are determined by the line alone.
pub proof fn lemma_add_unique(
    t: Seq<char>,
    e1: Seq<char>,
    d1: Seq<char>,
    e2: Seq<char>,
    d2: Seq<char>,
)
    requires
        is_add_command(t, e1, d1),
        is_add_command(t, e2, d2),
    ensures
        e1 == e2,
        d1 == d2,
{
    lemma_add_decomposition(t, e1, d1);
    lemma_add_decomposition(t, e2, d2);
    if e1.len() < e2.len() {
        assert(t[4 + e1.len() as int] == ' ');
        assert(is_word_char(t[4 + e1.len() as int]));
        assert(false);
    }
    if e2.len() < e1.len() {
        assert(t[4 + e2.len() as int] == ' ');
        assert(is_word_char(t[4 + e2.len() as int]));
        assert(false);
    }
    assert(e1 =~= e2);
    assert(d1 =~= d2);
}

/// The department of a `show` command is determined by the line alone.
pub proof fn lemma_show_unique(t: Seq<char>, d1: Seq<char>, d2: Seq<char>)
    requires
        is_show_command(t, d1),
        is_show_command(t, d2),
    ensures
        d1 == d2,
{
    lemma_show_decomposition(t, d1);
    lemma_show_decomposition(t, d2);
    assert(d1 =~= d2);
}

/// The three grammars are mutually exclusive: no line matches two of them.
pub proof fn lemma_grammars_exclusive(t: Seq<char>)
    ensures
        !(matches_add(t) && matches_show_department(t)),
        !(matches_add(t) && matches_show_all(t)),
        !(matches_show_department(t) && matches_show_all(t)),
{
    if matches_add(t) {
        let (e, d) = choose|e: Seq<char>, d: Seq<char>| is_add_command(t, e, d);
        lemma_add_decomposition(t, e, d);
        if matches_show_department(t) {
            let d2 = choose|d2: Seq<char>| is_show_command(t, d2);
            lemma_show_decomposition(t, d2);
            assert(false);
        }
        if matches_show_all(t) {
            assert(t[0] == show_keyword()[0]);
            assert(false);
        }
    }
    if matches_show_department(t) && matches_show_all(t) {
        let d2 = choose|d2: Seq<char>| is_show_command(t, d2);
        lemma_show_decomposition(t, d2);
        assert(t.len() == show_keyword().len());
        assert(false);
    }
}

/// End of the maximal run of word characters that starts at `from`.
fn word_run_end(t: &str, from: usize, n: usize) -> (end: usize)
    requires
        n == t@.len(),
        from <= n,
    ensures
        from <= end <= n,
        forall|k: int| from <= k < end ==> is_word_char(#[trigger] t@[k]),
        end < n ==> !is_word_char(t@[end as int]),
{
    let mut end = from;
    while end < n && word_char(t.get_char(end))
        invariant
            from <= end <= n,
            n == t@.len(),
            forall|k: int| from <= k < end ==> is_word_char(#[trigger] t@[k]),
        decreases n - end,
    {
        end = end + 1;
    }
    end
}

/// Classifies one raw line of input. Surrounding whitespace, including the
/// line terminator handed over by a line-oriented reader, is ignored; the
/// remainder must match one of the three command grammars exactly.
pub fn classify(line: &str) -> (r: Option<EmployeeDBAction>)
    ensures
        classify_post(line@, r),
{
    let total = line.unicode_len();
    let mut lo: usize = 0;
    while lo < total && space_char(line.get_char(lo))
        invariant
            lo <= total,
            total == line@.len(),
            forall|k: int| 0 <= k < lo ==> is_space(#[trigger] line@[k]),
        decreases total - lo,
    {
        lo = lo + 1;
    }
    let mut hi: usize = total;
    while hi > lo && space_char(line.get_char(hi - 1))
        invariant
            lo <= hi <= total,
            total == line@.len(),
            forall|k: int| hi <= k < total ==> is_space(#[trigger] line@[k]),
        decreases hi,
    {
        hi = hi - 1;
    }
    let t = line.substring_char(lo, hi);
    proof {
        lemma_trim_start_at(line@, lo as int);
        let sub = line@.subrange(lo as int, line@.len() as int);
        assert forall|k: int| hi - lo <= k < sub.len() implies is_space(#[trigger] sub[k]) by {
            assert(sub[k] == line@[k + lo]);
        }
        if hi > lo {
            assert(sub[hi - lo - 1] == line@[hi - 1]);
        }
        lemma_trim_end_at(sub, hi as int - lo as int);
        assert(sub.subrange(0, hi - lo) =~= line@.subrange(lo as int, hi as int));
        assert(t@ == trim_spec(line@));
    }
    let n = t.unicode_len();
    if n >= 4 && t.get_char(0) == 'a' && t.get_char(1) == 'd' && t.get_char(2) == 'd'
        && t.get_char(3) == ' ' {
        let r = classify_add(t, n);
        proof {
            not_show_shaped(t@);
        }
        r
    } else if n >= 5 && t.get_char(0) == 's' && t.get_char(1) == 'h' && t.get_char(2) == 'o'
        && t.get_char(3) == 'w' && t.get_char(4) == ' ' {
        let r = classify_show_department(t, n);
        proof {
            not_add_shaped(t@);
            assert(show_keyword().len() == 4);
            assert(!matches_show_all(t@));
        }
        r
    } else if n == 4 && t.get_char(0) == 's' && t.get_char(1) == 'h' && t.get_char(2) == 'o'
        && t.get_char(3) == 'w' {
        proof {
            assert(t@ =~= show_keyword());
        }
        Some(EmployeeDBAction::ListAll)
    } else {
        proof {
            if matches_add(t@) {
                let (e, d) = choose|e: Seq<char>, d: Seq<char>| is_add_command(t@, e, d);
                lemma_add_decomposition(t@, e, d);
                assert(false);
            }
            if matches_show_department(t@) {
                let d = choose|d: Seq<char>| is_show_command(t@, d);
                lemma_show_decomposition(t@, d);
                assert(false);
            }
            if matches_show_all(t@) {
                assert(t@[0] == show_keyword()[0]);
                assert(t@[1] == show_keyword()[1]);
                assert(t@[2] == show_keyword()[2]);
                assert(t@[3] == show_keyword()[3]);
                assert(false);
            }
        }
        None
    }
}

/// What trying the `add` grammar alone yields: either an insertion whose
/// names decompose the line, or the certainty that the line is not of the
/// `add` shape.
pub open spec fn add_post(t: Seq<char>, r: Option<EmployeeDBAction>) -> bool {
    match r {
        Some(EmployeeDBAction::InsertEmployee { new_employee_name, department_name }) => {
            is_add_command(t, new_employee_name@, department_name@)
        },
        Some(_) => false,
        None => !matches_add(t),
    }
}

/// What trying the `show <department>` grammar alone yields.
pub open spec fn show_post(t: Seq<char>, r: Option<EmployeeDBAction>) -> bool {
    match r {
        Some(EmployeeDBAction::ListDepartment { department_name }) => {
            is_show_command(t, department_name@)
        },
        Some(_) => false,
        None => !matches_show_department(t),
    }
}

/// The `add <employee> to <department>` grammar, tried on a trimmed line
/// that is already known to start with the `add` keyword.
fn classify_add(t: &str, n: usize) -> (r: Option<EmployeeDBAction>)
    requires
        n == t@.len(),
        n >= 4,
        t@[0] == 'a' && t@[1] == 'd' && t@[2] == 'd' && t@[3] == ' ',
    ensures
        add_post(t@, r),
{
    let e_end = word_run_end(t, 4, n);
    if e_end > 4 && n - e_end >= 5 && t.get_char(e_end) == ' ' && t.get_char(e_end + 1) == 't'
        && t.get_char(e_end + 2) == 'o' && t.get_char(e_end + 3) == ' ' {
        let d_end = word_run_end(t, e_end + 4, n);
        if d_end == n {
            let employee = t.substring_char(4, e_end);
            let department = t.substring_char(e_end + 4, n);
            proof {
                let rhs = add_keyword() + employee@ + to_keyword() + department@;
                assert(rhs.len() == t@.len());
                assert forall|k: int| 0 <= k < t@.len() implies rhs[k] == t@[k] by {
                    if k < 4 {
                        assert(rhs[k] == add_keyword()[k]);
                    } else if k < e_end {
                        assert(rhs[k] == employee@[k - 4]);
                        assert(employee@[k - 4] == t@[k]);
                    } else if k < e_end + 4 {
                        assert(rhs[k] == to_keyword()[k - e_end]);
                    } else {
                        assert(rhs[k] == department@[k - e_end - 4]);
                        assert(department@[k - e_end - 4] == t@[k]);
                    }
                }
                assert(t@ =~= rhs);
                assert forall|i: int| 0 <= i < employee@.len() implies is_word_char(
                    #[trigger] employee@[i],
                ) by {
                    assert(employee@[i] == t@[4 + i]);
                }
                assert forall|i: int| 0 <= i < department@.len() implies is_word_char(
                    #[trigger] department@[i],
                ) by {
                    assert(department@[i] == t@[e_end + 4 + i]);
                }
                assert(is_add_command(t@, employee@, department@));
            }
            Some(
                EmployeeDBAction::InsertEmployee {
                    new_employee_name: employee.to_owned(),
                    department_name: department.to_owned(),
                },
            )
        } else {
            proof {
                if matches_add(t@) {
                    let (e, d) = choose|e: Seq<char>, d: Seq<char>| is_add_command(t@, e, d);
                    lemma_add_token_extent(t@, e, d, e_end as int);
                    lemma_add_decomposition(t@, e, d);
                    assert(is_word_char(t@[d_end as int]));
                    assert(false);
                }
            }
            None
        }
    } else {
        proof {
            if matches_add(t@) {
                let (e, d) = choose|e: Seq<char>, d: Seq<char>| is_add_command(t@, e, d);
                lemma_add_token_extent(t@, e, d, e_end as int);
                lemma_add_decomposition(t@, e, d);
                assert(e_end > 4);
                assert(n - e_end >= 5);
                assert(t@[e_end as int] == ' ');
                assert(t@[e_end + 1] == 't');
                assert(t@[e_end + 2] == 'o');
                assert(t@[e_end + 3] == ' ');
                assert(false);
            }
        }
        None
    }
}

/// The `show <department>` grammar, tried on a trimmed line that is already
/// known to start with the spaced `show` keyword.
fn classify_show_department(t: &str, n: usize) -> (r: Option<EmployeeDBAction>)
    requires
        n == t@.len(),
        n >= 5,
        t@[0] == 's' && t@[1] == 'h' && t@[2] == 'o' && t@[3] == 'w' && t@[4] == ' ',
    ensures
        show_post(t@, r),
{
    let d_end = word_run_end(t, 5, n);
    if d_end == n && n > 5 {
        let department = t.substring_char(5, n);
        proof {
            let rhs = show_keyword_spaced() + department@;
            assert(rhs.len() == t@.len());
            assert forall|k: int| 0 <= k < t@.len() implies rhs[k] == t@[k] by {
                if k < 5 {
                    assert(rhs[k] == show_keyword_spaced()[k]);
                } else {
                    assert(rhs[k] == department@[k - 5]);
                    assert(department@[k - 5] == t@[k]);
                }
            }
            assert(t@ =~= rhs);
            assert forall|i: int| 0 <= i < department@.len() implies is_word_char(
                #[trigger] department@[i],
            ) by {
                assert(department@[i] == t@[5 + i]);
            }
            assert(is_show_command(t@, department@));
        }
        Some(EmployeeDBAction::ListDepartment { department_name: department.to_owned() })
    } else {
        proof {
            if matches_show_department(t@) {
                let d = choose|d: Seq<char>| is_show_command(t@, d);
                lemma_show_decomposition(t@, d);
                assert(n > 5);
                if d_end < n {
                    assert(is_word_char(t@[d_end as int]));
                }
                assert(false);
            }
        }
        None
    }
}

/// A line that starts with `add ` matches neither `show` grammar.
proof fn not_show_shaped(t: Seq<char>)
    requires
        t.len() >= 4,
        t[0] == 'a',
    ensures
        !matches_show_department(t),
        !matches_show_all(t),
{
    if matches_show_department(t) {
        let d = choose|d: Seq<char>| is_show_command(t, d);
        lemma_show_decomposition(t, d);
        assert(false);
    }
    if matches_show_all(t) {
        assert(t[0] == show_keyword()[0]);
        assert(false);
    }
}

/// A line that starts with `show` matches no `add` grammar.
proof fn not_add_shaped(t: Seq<char>)
    requires
        t.len() >= 1,
        t[0] == 's',
    ensures
        !matches_add(t),
{
    if matches_add(t) {
        let (e, d) = choose|e: Seq<char>, d: Seq<char>| is_add_command(t, e, d);
        lemma_add_decomposition(t, e, d);
        assert(false);
    }
}

/// A ghost summary of a classification result, carrying only the views of
/// the extracted names.
pub enum CommandModel {
    Insert { employee: Seq<char>, department: Seq<char> },
    ListDept { department: Seq<char> },
    All,
    Unrecognized,
}

pub open spec fn action_model(r: Option<EmployeeDBAction>) -> CommandModel {
    match r {
        Some(
            EmployeeDBAction::InsertEmployee { new_employee_name, department_name },
        ) => CommandModel::Insert { employee: new_employee_name@, department: department_name@ },
        Some(
            EmployeeDBAction::ListDepartment { department_name },
        ) => CommandModel::ListDept { department: department_name@ },
        Some(EmployeeDBAction::ListAll) => CommandModel::All,
        None => CommandModel::Unrecognized,
    }
}

/// Classification is a pure function of the input line: any two results that
/// meet `classify`'s contract for the same line describe the same command
/// with the same names.
pub proof fn lemma_classify_deterministic(
    line: Seq<char>,
    r1: Option<EmployeeDBAction>,
    r2: Option<EmployeeDBAction>,
)
    requires
        classify_post(line, r1),
        classify_post(line, r2),
    ensures
        action_model(r1) == action_model(r2),
{
    let t = trim_spec(line);
    lemma_grammars_exclusive(t);
    match (r1, r2) {
        (
            Some(EmployeeDBAction::InsertEmployee { new_employee_name: e1, department_name: d1 }),
            Some(EmployeeDBAction::InsertEmployee { new_employee_name: e2, department_name: d2 }),
        ) => {
            lemma_add_unique(t, e1@, d1@, e2@, d2@);
        },
        (
            Some(EmployeeDBAction::ListDepartment { department_name: d1 }),
            Some(EmployeeDBAction::ListDepartment { department_name: d2 }),
        ) => {
            lemma_show_unique(t, d1@, d2@);
        },
        _ => {},
    }
}

/// The command classifier. It holds no state of its own: the grammar table
/// is fixed, and `parse` decides it directly.
pub struct InputParser {}

impl InputParser {
    pub fn new() -> (parser: InputParser) {
        InputParser {}
    }

    /// Classifies one raw line of input; see `classify`.
    pub fn parse(&self, input: &str) -> (r: Option<EmployeeDBAction>)
        ensures
            classify_post(input@, r),
    {
        classify(input)
    }
}

} // verus!

