//! The directory: a mapping from department names to sorted rosters.
//!
//! Each department's roster is kept in non-decreasing lexicographic order by
//! inserting every new employee at the first position whose element is not
//! less than the new name. Departments come into being with their first
//! employee and are listed in the order of their first insertion.

use crate::parser::EmployeeDBAction;
use crate::text::{
    lemma_lex_lt_asymmetric, lemma_lex_lt_connected, lemma_lex_lt_transitive, lex_leq, lex_lt,
    str_lex_lt,
};
use vstd::prelude::*;
use vstd::string::StringExecFns;

verus! {

/// The mathematical content of the directory: each department's name with
/// its roster, in listing order.
pub type DirView = Seq<(Seq<char>, Seq<Seq<char>>)>;

/// The roster is in non-decreasing lexicographic order.
pub open spec fn roster_sorted(r: Seq<Seq<char>>) -> bool {
    forall|i: int, j: int| 0 <= i <= j < r.len() ==> lex_leq(#[trigger] r[i], #[trigger] r[j])
}

/// The views of a sequence of employee names.
pub open spec fn roster_view(employees: Seq<String>) -> Seq<Seq<char>> {
    Seq::new(employees.len(), |i: int| employees[i]@)
}

/// The first index whose element is not lexicographically less than `x`;
/// the length if every element is less.
pub open spec fn insertion_point(r: Seq<Seq<char>>, x: Seq<char>) -> int
    decreases r.len(),
{
    if r.len() > 0 && lex_lt(r[0], x) {
        1 + insertion_point(r.drop_first(), x)
    } else {
        0
    }
}

/// The roster with `x` inserted at its insertion point.
pub open spec fn insert_sorted(r: Seq<Seq<char>>, x: Seq<char>) -> Seq<Seq<char>> {
    r.insert(insertion_point(r, x), x)
}

/// The insertion point is the first position whose element is not less than
/// the new name: everything before it is strictly less, so a new name equal
/// to names already present lands directly before the first of them and
/// after every name below it.
pub proof fn lemma_insertion_point_first_not_less(r: Seq<Seq<char>>, x: Seq<char>)
    ensures
        0 <= insertion_point(r, x) <= r.len(),
        forall|k: int| 0 <= k < insertion_point(r, x) ==> lex_lt(#[trigger] r[k], x),
        insertion_point(r, x) < r.len() ==> !lex_lt(r[insertion_point(r, x)], x),
    decreases r.len(),
{
    if r.len() > 0 && lex_lt(r[0], x) {
        lemma_insertion_point_first_not_less(r.drop_first(), x);
        let ip = insertion_point(r, x);
        assert forall|k: int| 0 <= k < ip implies lex_lt(#[trigger] r[k], x) by {
            if k > 0 {
                assert(r.drop_first()[k - 1] == r[k]);
            }
        }
        if ip < r.len() {
            assert(r.drop_first()[ip - 1] == r[ip]);
        }
    }
}

/// A position that is preceded only by lesser elements and holds no lesser
/// element is the insertion point.
pub proof fn lemma_first_not_less_is_insertion_point(r: Seq<Seq<char>>, x: Seq<char>, p: int)
    requires
        0 <= p <= r.len(),
        forall|k: int| 0 <= k < p ==> lex_lt(#[trigger] r[k], x),
        p < r.len() ==> !lex_lt(r[p], x),
    ensures
        p == insertion_point(r, x),
{
    lemma_insertion_point_first_not_less(r, x);
    let ip = insertion_point(r, x);
    if p < ip {
        assert(lex_lt(r[p], x));
        assert(false);
    }
    if ip < p {
        assert(lex_lt(r[ip], x));
        assert(false);
    }
}

/// Sorted insertion preserves sortedness: however many insertions a roster
/// has seen, it is sorted after each one.
pub proof fn lemma_insert_sorted_preserves_sorted(r: Seq<Seq<char>>, x: Seq<char>)
    requires
        roster_sorted(r),
    ensures
        roster_sorted(insert_sorted(r, x)),
{
    lemma_insertion_point_first_not_less(r, x);
    let ip = insertion_point(r, x);
    let r2 = insert_sorted(r, x);
    assert(r2.len() == r.len() + 1);
    assert forall|i: int, j: int| 0 <= i <= j < r2.len() implies lex_leq(
        #[trigger] r2[i],
        #[trigger] r2[j],
    ) by {
        lemma_insert_sorted_element(r, x, ip, i);
        lemma_insert_sorted_element(r, x, ip, j);
        let a = r2[i];
        let b = r2[j];
        if i < ip && j == ip {
            // a == r[i] is less than x == b
            lemma_lex_lt_asymmetric(a, b);
        } else if i == ip && j == ip {
            lemma_lex_lt_asymmetric(x, x);
        } else if i == ip && j > ip {
            // b == r[j - 1] with j - 1 >= ip, hence not less than x == a
            lemma_not_less_above_insertion_point(r, x, j - 1);
        } else if i < ip && j > ip {
            assert(lex_leq(r[i], r[j - 1]));
        } else if i > ip {
            assert(lex_leq(r[i - 1], r[j - 1]));
        }
    }
}

/// Where each element of an insertion result comes from.
proof fn lemma_insert_sorted_element(r: Seq<Seq<char>>, x: Seq<char>, ip: int, k: int)
    requires
        ip == insertion_point(r, x),
        0 <= k < r.len() + 1,
    ensures
        k < ip ==> insert_sorted(r, x)[k] == r[k],
        k == ip ==> insert_sorted(r, x)[k] == x,
        k > ip ==> insert_sorted(r, x)[k] == r[k - 1],
{
    lemma_insertion_point_first_not_less(r, x);
}

/// In a sorted roster, every element at or above the insertion point is not
/// less than the new name.
proof fn lemma_not_less_above_insertion_point(r: Seq<Seq<char>>, x: Seq<char>, k: int)
    requires
        roster_sorted(r),
        insertion_point(r, x) <= k < r.len(),
    ensures
        !lex_lt(r[k], x),
{
    lemma_insertion_point_first_not_less(r, x);
    let ip = insertion_point(r, x);
    if lex_lt(r[k], x) {
        assert(lex_leq(r[ip], r[k]));
        lemma_lex_lt_connected(x, r[ip]);
        if lex_lt(x, r[ip]) {
            lemma_lex_lt_transitive(r[k], x, r[ip]);
        }
        assert(false);
    }
}

/// One department's roster, sorted at all times.
pub struct Department {
    pub employees: Vec<String>,
}

impl View for Department {
    type V = Seq<Seq<char>>;

    open spec fn view(&self) -> Seq<Seq<char>> {
        roster_view(self.employees@)
    }
}

/// One department of the directory, under its name.
pub struct DeptEntry {
    pub name: String,
    pub department: Department,
}

/// The directory itself.
pub struct EmployeeDB {
    pub db: Vec<DeptEntry>,
}

impl View for EmployeeDB {
    type V = DirView;

    open spec fn view(&self) -> DirView {
        Seq::new(self.db@.len(), |i: int| (self.db@[i].name@, self.db@[i].department@))
    }
}

/// Some department of the directory bears this name.
pub open spec fn has_dept(v: DirView, name: Seq<char>) -> bool {
    exists|i: int| 0 <= i < v.len() && (#[trigger] v[i]).0 == name
}

/// The roster of the department bearing this name, if any.
pub open spec fn dept_roster(v: DirView, name: Seq<char>) -> Seq<Seq<char>>
    decreases v.len(),
{
    if v.len() == 0 {
        Seq::empty()
    } else if v[0].0 == name {
        v[0].1
    } else {
        dept_roster(v.drop_first(), name)
    }
}

/// The directory after inserting `en` into the department named `dn`: the
/// department's roster grows by sorted insertion if the department exists,
/// and otherwise a department holding only `en` is appended.
pub open spec fn spec_insert_db(v: DirView, dn: Seq<char>, en: Seq<char>) -> DirView
    decreases v.len(),
{
    if v.len() == 0 {
        seq![(dn, seq![en])]
    } else if v[0].0 == dn {
        seq![(v[0].0, insert_sorted(v[0].1, en))] + v.drop_first()
    } else {
        seq![v[0]] + spec_insert_db(v.drop_first(), dn, en)
    }
}

proof fn lemma_spec_insert_db_found(v: DirView, dn: Seq<char>, en: Seq<char>, i: int)
    requires
        0 <= i < v.len(),
        v[i].0 == dn,
        forall|k: int| 0 <= k < i ==> (#[trigger] v[k]).0 != dn,
    ensures
        spec_insert_db(v, dn, en) =~= v.update(i, (v[i].0, insert_sorted(v[i].1, en))),
    decreases v.len(),
{
    if i == 0 {
    } else {
        assert(v[0].0 != dn);
        assert forall|k: int| 0 <= k < i - 1 implies (#[trigger] v.drop_first()[k]).0 != dn by {
            assert(v.drop_first()[k] == v[k + 1]);
        }
        assert(v.drop_first()[i - 1] == v[i]);
        lemma_spec_insert_db_found(v.drop_first(), dn, en, i - 1);
    }
}

proof fn lemma_spec_insert_db_absent(v: DirView, dn: Seq<char>, en: Seq<char>)
    requires
        forall|k: int| 0 <= k < v.len() ==> (#[trigger] v[k]).0 != dn,
    ensures
        spec_insert_db(v, dn, en) =~= v.push((dn, seq![en])),
    decreases v.len(),
{
    if v.len() > 0 {
        assert forall|k: int| 0 <= k < v.drop_first().len() implies (#[trigger] v.drop_first()[k]).0
            != dn by {
            assert(v.drop_first()[k] == v[k + 1]);
        }
        lemma_spec_insert_db_absent(v.drop_first(), dn, en);
    }
}

proof fn lemma_dept_roster_at(v: DirView, name: Seq<char>, i: int)
    requires
        0 <= i < v.len(),
        v[i].0 == name,
        forall|k: int| 0 <= k < i ==> (#[trigger] v[k]).0 != name,
    ensures
        dept_roster(v, name) == v[i].1,
    decreases v.len(),
{
    if i > 0 {
        assert(v[0].0 != name);
        assert forall|k: int| 0 <= k < i - 1 implies (#[trigger] v.drop_first()[k]).0 != name by {
            assert(v.drop_first()[k] == v[k + 1]);
        }
        assert(v.drop_first()[i - 1] == v[i]);
        lemma_dept_roster_at(v.drop_first(), name, i - 1);
    }
}

/// The newline that ends each rendered employee name.
pub open spec fn newline() -> Seq<char> {
    seq!['\n']
}

/// The separator after a rendered department name.
pub open spec fn colon_newline() -> Seq<char> {
    seq![':', '\n']
}

/// The fixed message for a query against a department that does not exist.
pub open spec fn not_found_message() -> Seq<char> {
    "no department by that name"@
}

/// A rendered roster: each employee name on its own line.
pub open spec fn render_roster(r: Seq<Seq<char>>) -> Seq<char>
    decreases r.len(),
{
    if r.len() == 0 {
        Seq::empty()
    } else {
        r[0] + newline() + render_roster(r.drop_first())
    }
}

/// A rendered directory: each department's name, a colon, then its roster.
pub open spec fn render_db(v: DirView) -> Seq<char>
    decreases v.len(),
{
    if v.len() == 0 {
        Seq::empty()
    } else {
        v[0].0 + colon_newline() + render_roster(v[0].1) + render_db(v.drop_first())
    }
}

proof fn lemma_render_roster_push(r: Seq<Seq<char>>, x: Seq<char>)
    ensures
        render_roster(r.push(x)) =~= render_roster(r) + x + newline(),
    decreases r.len(),
{
    if r.len() == 0 {
        assert(r.push(x)[0] == x);
        assert(r.push(x).drop_first() =~= Seq::<Seq<char>>::empty());
        assert(render_roster(r.push(x).drop_first()) == Seq::<char>::empty());
        assert(render_roster(r) == Seq::<char>::empty());
        assert(render_roster(r.push(x)) == x + newline() + Seq::<char>::empty());
    } else {
        assert(r.push(x)[0] == r[0]);
        assert(r.push(x).drop_first() =~= r.drop_first().push(x));
        lemma_render_roster_push(r.drop_first(), x);
        assert(render_roster(r.push(x)) == r[0] + newline() + render_roster(
            r.drop_first().push(x),
        ));
        assert(render_roster(r.drop_first().push(x)) == render_roster(r.drop_first()) + x
            + newline());
    }
}

proof fn lemma_render_db_push(v: DirView, p: (Seq<char>, Seq<Seq<char>>))
    ensures
        render_db(v.push(p)) =~= render_db(v) + p.0 + colon_newline() + render_roster(p.1),
    decreases v.len(),
{
    if v.len() == 0 {
        assert(v.push(p)[0] == p);
        assert(v.push(p).drop_first() =~= Seq::<(Seq<char>, Seq<Seq<char>>)>::empty());
        assert(render_db(v.push(p).drop_first()) == Seq::<char>::empty());
        assert(render_db(v) == Seq::<char>::empty());
        assert(render_db(v.push(p)) == p.0 + colon_newline() + render_roster(p.1) + Seq::<
            char,
        >::empty());
    } else {
        assert(v.push(p)[0] == v[0]);
        assert(v.push(p).drop_first() =~= v.drop_first().push(p));
        lemma_render_db_push(v.drop_first(), p);
        assert(render_db(v.push(p)) == v[0].0 + colon_newline() + render_roster(v[0].1)
            + render_db(v.drop_first().push(p)));
        assert(render_db(v.drop_first().push(p)) == render_db(v.drop_first()) + p.0
            + colon_newline() + render_roster(p.1));
    }
}

impl Department {
    /// Renders the roster, one employee name per line.
    pub fn render(&self) -> (out: String)
        ensures
            out@ == render_roster(self@),
    {
        let mut out = String::new();
        proof {
            assert(self@.take(0) =~= Seq::<Seq<char>>::empty());
        }
        let mut i: usize = 0;
        while i < self.employees.len()
            invariant
                i <= self.employees.len(),
                self@.len() == self.employees@.len(),
                out@ == render_roster(self@.take(i as int)),
            decreases self.employees.len() - i,
        {
            out.append(self.employees[i].as_str());
            out.append("\n");
            proof {
                reveal_strlit("\n");
                assert("\n"@ =~= newline());
                assert(self@.take(i + 1) =~= self@.take(i as int).push(self@[i as int]));
                lemma_render_roster_push(self@.take(i as int), self@[i as int]);
                assert(self.employees@[i as int]@ == self@[i as int]);
            }
            i = i + 1;
        }
        proof {
            assert(self@.take(self@.len() as int) =~= self@);
        }
        out
    }
}

/// Binary search for the insertion point of `name` in a sorted roster.
fn find_insertion_index(employees: &Vec<String>, name: &String) -> (pos: usize)
    requires
        roster_sorted(roster_view(employees@)),
    ensures
        pos == insertion_point(roster_view(employees@), name@),
{
    let ghost r = roster_view(employees@);
    let mut lo: usize = 0;
    let mut hi: usize = employees.len();
    while lo < hi
        invariant
            lo <= hi <= employees.len(),
            r == roster_view(employees@),
            roster_sorted(r),
            forall|k: int| 0 <= k < lo ==> lex_lt(#[trigger] r[k], name@),
            forall|k: int| hi <= k < employees.len() ==> !lex_lt(#[trigger] r[k], name@),
        decreases hi - lo,
    {
        let mid = lo + (hi - lo) / 2;
        if str_lex_lt(employees[mid].as_str(), name.as_str()) {
            proof {
                assert forall|k: int| 0 <= k < mid + 1 implies lex_lt(#[trigger] r[k], name@) by {
                    if k < mid {
                        assert(lex_leq(r[k], r[mid as int]));
                        crate::text::lemma_lex_leq_lt_trans(r[k], r[mid as int], name@);
                    }
                }
            }
            lo = mid + 1;
        } else {
            proof {
                assert forall|k: int| mid <= k < employees.len() implies !lex_lt(
                    #[trigger] r[k],
                    name@,
                ) by {
                    if k > mid {
                        assert(lex_leq(r[mid as int], r[k]));
                        if lex_lt(r[k], name@) {
                            crate::text::lemma_lex_leq_lt_trans(r[mid as int], r[k], name@);
                        }
                    }
                }
            }
            hi = mid;
        }
    }
    proof {
        lemma_first_not_less_is_insertion_point(r, name@, lo as int);
    }
    lo
}

impl EmployeeDB {
    /// Every roster is sorted and non-empty, and department names are unique
    /// keys: a department exists exactly when an insertion has targeted it.
    pub open spec fn wf(&self) -> bool {
        &&& forall|i: int|
            0 <= i < self@.len() ==> roster_sorted((#[trigger] self@[i]).1) && self@[i].1.len() > 0
        &&& forall|i: int, j: int|
            0 <= i < j < self@.len() ==> (#[trigger] self@[i]).0 != (#[trigger] self@[j]).0
    }

    /// An empty directory.
    pub fn new() -> (db: EmployeeDB)
        ensures
            db.wf(),
            db@ == Seq::<(Seq<char>, Seq<Seq<char>>)>::empty(),
    {
        let db = EmployeeDB { db: Vec::new() };
        proof {
            assert(db@ =~= Seq::<(Seq<char>, Seq<Seq<char>>)>::empty());
        }
        db
    }

    /// The position of the department bearing this name, if any.
    fn find_dept_index(&self, department_name: &String) -> (r: Option<usize>)
        ensures
            match r {
                Some(i) => {
                    &&& i < self@.len()
                    &&& self@[i as int].0 == department_name@
                    &&& forall|k: int| 0 <= k < i ==> (#[trigger] self@[k]).0 != department_name@
                },
                None => !has_dept(self@, department_name@),
            },
    {
        let mut i: usize = 0;
        while i < self.db.len()
            invariant
                i <= self.db.len(),
                self@.len() == self.db@.len(),
                forall|k: int| 0 <= k < i ==> (#[trigger] self@[k]).0 != department_name@,
            decreases self.db.len() - i,
        {
            if self.db[i].name == *department_name {
                return Some(i);
            }
            i = i + 1;
        }
        None
    }

    /// Inserts the employee into the department, keeping the roster sorted;
    /// a department not seen before is created with this one employee.
    pub fn insert_employee(&mut self, department_name: String, new_employee_name: String)
        requires
            old(self).wf(),
        ensures
            final(self).wf(),
            final(self)@ == spec_insert_db(old(self)@, department_name@, new_employee_name@),
    {
        let found = self.find_dept_index(&department_name);
        match found {
            Some(i) => {
                let ghost v = self@;
                let ghost roster = self@[i as int].1;
                let mut entry = self.db.remove(i);
                proof {
                    assert(entry.department@ == roster);
                }
                let pos = find_insertion_index(&entry.department.employees, &new_employee_name);
                proof {
                    lemma_insertion_point_first_not_less(roster, new_employee_name@);
                    lemma_insert_sorted_preserves_sorted(roster, new_employee_name@);
                }
                let ghost before = entry.department.employees@;
                entry.department.employees.insert(pos, new_employee_name);
                proof {
                    before.insert_ensures(pos as int, new_employee_name);
                    roster.insert_ensures(pos as int, new_employee_name@);
                    let after = entry.department.employees@;
                    assert forall|k: int| 0 <= k < after.len() implies (#[trigger] after[k])@
                        == insert_sorted(roster, new_employee_name@)[k] by {
                        if k < pos {
                            assert(after[k] == before[k]);
                        } else if k > pos {
                            assert(after[k] == before[k - 1]);
                            assert(insert_sorted(roster, new_employee_name@)[k] == roster[k - 1]);
                        }
                    }
                    assert(entry.department@ =~= insert_sorted(roster, new_employee_name@));
                }
                self.db.insert(i, entry);
                proof {
                    lemma_spec_insert_db_found(v, department_name@, new_employee_name@, i as int);
                    assert(self@ =~= v.update(
                        i as int,
                        (v[i as int].0, insert_sorted(v[i as int].1, new_employee_name@)),
                    ));
                }
            },
            None => {
                let ghost v = self@;
                let mut employees: Vec<String> = Vec::new();
                employees.push(new_employee_name);
                let ghost en = employees@[0]@;
                self.db.push(DeptEntry { name: department_name, department: Department { employees } });
                proof {
                    assert forall|k: int| 0 <= k < v.len() implies (#[trigger] v[k]).0
                        != department_name@ by {}
                    lemma_spec_insert_db_absent(v, department_name@, en);
                    assert(self@[v.len() as int].1 =~= seq![en]);
                    assert(self@ =~= v.push((department_name@, seq![en])));
                    lemma_lex_lt_asymmetric(en, en);
                    assert(roster_sorted(seq![en]));
                }
            },
        }
    }

    /// Looks a department up by name; the returned roster is the one the
    /// directory holds under that name.
    pub fn list_department(&self, department_name: &String) -> (r: Option<&Department>)
        ensures
            match r {
                Some(dept) => {
                    &&& has_dept(self@, department_name@)
                    &&& dept@ == dept_roster(self@, department_name@)
                },
                None => !has_dept(self@, department_name@),
            },
    {
        let found = self.find_dept_index(department_name);
        match found {
            Some(i) => {
                proof {
                    lemma_dept_roster_at(self@, department_name@, i as int);
                    assert((self@[i as int]).0 == department_name@);
                }
                Some(&self.db[i].department)
            },
            None => None,
        }
    }

    /// Full enumeration: every department with its roster, in listing
    /// order, which is the order of each department's first insertion.
    pub fn list_all(&self) -> (r: &Vec<DeptEntry>)
        ensures
            r@.len() == self@.len(),
            forall|i: int|
                0 <= i < self@.len() ==> ((#[trigger] r@[i]).name@, r@[i].department@) == self@[i],
    {
        &self.db
    }

    /// Renders every department: its name, a colon, then its roster.
    pub fn render_all(&self) -> (out: String)
        ensures
            out@ == render_db(self@),
    {
        let mut out = String::new();
        proof {
            assert(self@.take(0) =~= Seq::<(Seq<char>, Seq<Seq<char>>)>::empty());
        }
        let mut i: usize = 0;
        while i < self.db.len()
            invariant
                i <= self.db.len(),
                self@.len() == self.db@.len(),
                out@ == render_db(self@.take(i as int)),
            decreases self.db.len() - i,
        {
            let dept_render = self.db[i].department.render();
            out.append(self.db[i].name.as_str());
            out.append(":\n");
            out.append(dept_render.as_str());
            proof {
                reveal_strlit(":\n");
                assert(":\n"@ =~= colon_newline());
                assert(self@.take(i + 1) =~= self@.take(i as int).push(self@[i as int]));
                lemma_render_db_push(self@.take(i as int), self@[i as int]);
            }
            i = i + 1;
        }
        proof {
            assert(self@.take(self@.len() as int) =~= self@);
        }
        out
    }

    /// Applies one structured command: an insertion mutates the directory
    /// silently, and a query leaves it unchanged and returns rendered text.
    pub fn send(&mut self, action: EmployeeDBAction) -> (out: Option<String>)
        requires
            old(self).wf(),
        ensures
            final(self).wf(),
            send_post(old(self)@, action, final(self)@, out),
    {
        match action {
            EmployeeDBAction::InsertEmployee { new_employee_name, department_name } => {
                self.insert_employee(department_name, new_employee_name);
                None
            },
            EmployeeDBAction::ListAll => {
                let rendered = self.render_all();
                Some(rendered)
            },
            EmployeeDBAction::ListDepartment { department_name } => {
                let found = self.find_dept_index(&department_name);
                match found {
                    Some(i) => {
                        proof {
                            lemma_dept_roster_at(self@, department_name@, i as int);
                            assert((self@[i as int]).0 == department_name@);
                        }
                        Some(self.db[i].department.render())
                    },
                    None => Some("no department by that name".to_owned()),
                }
            },
        }
    }
}

/// What `send` promises: an insertion updates the directory as
/// `spec_insert_db` says and renders nothing; either query leaves the
/// directory unchanged and renders the listing, or the fixed message for a
/// name no department bears.
pub open spec fn send_post(
    pre: DirView,
    action: EmployeeDBAction,
    post: DirView,
    out: Option<String>,
) -> bool {
    match action {
        EmployeeDBAction::InsertEmployee { new_employee_name, department_name } => {
            &&& post == spec_insert_db(pre, department_name@, new_employee_name@)
            &&& out is None
        },
        EmployeeDBAction::ListAll => {
            &&& post == pre
            &&& match out {
                Some(s) => s@ == render_db(pre),
                None => false,
            }
        },
        EmployeeDBAction::ListDepartment { department_name } => {
            &&& post == pre
            &&& match out {
                Some(s) => {
                    if has_dept(pre, department_name@) {
                        s@ == render_roster(dept_roster(pre, department_name@))
                    } else {
                        s@ == not_found_message()
                    }
                },
                None => false,
            }
        },
    }
}

} // verus!
