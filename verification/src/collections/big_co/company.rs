use vstd::prelude::*;
use crate::collections::big_co::command::Command;
use crate::collections::big_co::query::Query;

verus! {

/// The departments of a company in terms of plain text: each with its name
/// and the names of its employees, in the order in which they came.
pub type Roster = Seq<(Seq<char>, Seq<Seq<char>>)>;

/// The first department at or behind `from` that is called `name`, or the
/// number of departments if there is none.
pub open spec fn find_department(roster: Roster, name: Seq<char>, from: int) -> int
    decreases roster.len() - from,
{
    if from < 0 || from >= roster.len() {
        roster.len() as int
    } else if roster[from].0 == name {
        from
    } else {
        find_department(roster, name, from + 1)
    }
}

/// The roster after the employee joined the department: the first one of
/// that name, or a new one behind the others.
pub open spec fn added(roster: Roster, empl_name: Seq<char>, dept_name: Seq<char>) -> Roster {
    let i = find_department(roster, dept_name, 0);
    if i < roster.len() {
        roster.update(i, (roster[i].0, roster[i].1.push(empl_name)))
    } else {
        roster.push((dept_name, seq![empl_name]))
    }
}

/// The names without every `name`.
pub open spec fn without(names: Seq<Seq<char>>, name: Seq<char>) -> Seq<Seq<char>>
    decreases names.len(),
{
    if names.len() == 0 {
        Seq::empty()
    } else if names.last() == name {
        without(names.drop_last(), name)
    } else {
        without(names.drop_last(), name).push(names.last())
    }
}

/// The roster after everybody called `name` left.
pub open spec fn removed(roster: Roster, name: Seq<char>) -> Roster {
    Seq::new(roster.len(), |i: int| (roster[i].0, without(roster[i].1, name)))
}

/// The roster after everybody left.
pub open spec fn emptied(roster: Roster) -> Roster {
    Seq::new(roster.len(), |i: int| (roster[i].0, Seq::<Seq<char>>::empty()))
}

/// The lines that show a department: its name, then one line for each
/// employee.
pub open spec fn department_lines(department: (Seq<char>, Seq<Seq<char>>)) -> Seq<Seq<char>> {
    seq![department.0] + Seq::new(department.1.len(), |i: int| " - "@ + department.1[i])
}

/// The lines that show all the departments.
pub open spec fn roster_lines(roster: Roster) -> Seq<Seq<char>>
    decreases roster.len(),
{
    if roster.len() == 0 {
        Seq::empty()
    } else {
        roster_lines(roster.drop_last()) + department_lines(roster.last())
    }
}

/// What a command makes of a roster, and the lines that it reports.
pub open spec fn run_command(roster: Roster, command: Command) -> (Roster, Seq<Seq<char>>) {
    match command {
        Command::Get(Query::Name(name)) => {
            let i = find_department(roster, name@, 0);
            let heading = seq![" --- get "@ + name@ + "! ---"@];
            if i < roster.len() {
                (roster, heading + department_lines(roster[i]))
            } else {
                (roster, heading)
            }
        },
        Command::Get(Query::All) => (roster, seq![" --- get all! ---"@] + roster_lines(roster)),
        Command::Add { empl_name, dept_name } => (
            added(roster, empl_name@, dept_name@),
            seq![" --- add! ---"@, "added"@],
        ),
        Command::Remove(Query::Name(name)) => (
            removed(roster, name@),
            seq![" --- remove "@ + name@ + "! ---"@],
        ),
        Command::Remove(Query::All) => (emptied(roster), seq![" --- remove all! ---"@]),
        Command::Exit => (roster, Seq::empty()),
    }
}

/// `slice::concat` on two texts: the text of `a` followed by the text of
/// `b`.
#[verifier::external_body]
fn joined(a: &str, b: &str) -> (s: String)
    ensures
        s@ == a@ + b@,
{
    [a, b].concat()
}

struct Employee {
    name: String,
}

impl Employee {
    fn new(name: &str) -> (e: Employee)
        ensures
            e.name@ == name@,
    {
        Employee { name: name.to_owned() }
    }
}

struct Department {
    name: String,
    employees: Vec<Employee>,
}

spec fn names_of(employees: Seq<Employee>) -> Seq<Seq<char>> {
    Seq::new(employees.len(), |i: int| employees[i].name@)
}

impl Department {
    spec fn view(&self) -> (Seq<char>, Seq<Seq<char>>) {
        (self.name@, names_of(self.employees@))
    }

    fn new(name: &String) -> (d: Department)
        ensures
            d@ == (name@, Seq::<Seq<char>>::empty()),
    {
        let d = Department { name: name.clone(), employees: Vec::new() };
        assert(names_of(d.employees@) =~= Seq::<Seq<char>>::empty());
        d
    }

    /// The lines that show the department.
    fn print(&self, lines: &mut Vec<String>)
        ensures
            final(lines).deep_view() == old(lines).deep_view() + department_lines(self@),
    {
        let ghost start = lines.deep_view();
        let ghost names = names_of(self.employees@);
        lines.push(self.name.clone());
        assert(lines.deep_view() =~= start + seq![self.name@] + Seq::new(
            0,
            |i: int| " - "@ + names[i],
        ));
        let mut k: usize = 0;
        while k < self.employees.len()
            invariant
                k <= self.employees@.len(),
                names == names_of(self.employees@),
                lines.deep_view() == start + seq![self.name@] + Seq::new(
                    k as nat,
                    |i: int| " - "@ + names[i],
                ),
            decreases self.employees.len() - k,
        {
            let ghost before = lines.deep_view();
            let line = joined(" - ", self.employees[k].name.as_str());
            lines.push(line);
            proof {
                assert(lines.deep_view() =~= before.push(" - "@ + names[k as int]));
                assert(lines.deep_view() =~= start + seq![self.name@] + Seq::new(
                    (k + 1) as nat,
                    |i: int| " - "@ + names[i],
                ));
            }
            k = k + 1;
        }
        assert(lines.deep_view() =~= start + department_lines(self@));
    }
}

spec fn roster_of(departments: Seq<Department>) -> Roster {
    Seq::new(departments.len(), |i: int| departments[i]@)
}

/// A company: departments with their employees.
pub struct Company {
    // Departments have unique names once they are made through `run`.
    departments: Vec<Department>,
}

impl Company {
    /// The departments of the company in terms of plain text.
    pub closed spec fn view(&self) -> Roster {
        roster_of(self.departments@)
    }

    /// A company without departments.
    pub fn new() -> (company: Company)
        ensures
            company@ == Seq::<(Seq<char>, Seq<Seq<char>>)>::empty(),
    {
        let company = Company { departments: Vec::new() };
        assert(company@ =~= Seq::<(Seq<char>, Seq<Seq<char>>)>::empty());
        company
    }

    /// Carries out a command and returns the lines that it reports.
    pub fn run(&mut self, cmd: Command) -> (lines: Vec<String>)
        ensures
            final(self)@ == run_command(old(self)@, cmd).0,
            lines.deep_view() == run_command(old(self)@, cmd).1,
    {
        let mut lines: Vec<String> = Vec::new();
        assert(lines.deep_view() =~= Seq::<Seq<char>>::empty());
        match cmd {
            Command::Get(query) => {
                if let Query::Name(name) = query {
                    self.print_dept(name, &mut lines);
                } else {
                    self.print_all(&mut lines);
                }
            },
            Command::Add { empl_name, dept_name } => self.add(empl_name, dept_name, &mut lines),
            Command::Remove(query) => {
                if let Query::Name(name) = query {
                    self.remove_matching(name, &mut lines);
                } else {
                    self.remove_all(&mut lines);
                }
            },
            Command::Exit => (),
        }
        lines
    }

    fn print_all(&self, lines: &mut Vec<String>)
        requires
            old(lines).deep_view() == Seq::<Seq<char>>::empty(),
        ensures
            final(lines).deep_view() == seq![" --- get all! ---"@] + roster_lines(self@),
    {
        lines.push(" --- get all! ---".to_owned());
        let ghost roster = self@;
        assert(lines.deep_view() =~= seq![" --- get all! ---"@] + roster_lines(roster.take(0))) by {
            assert(roster.take(0) =~= Seq::<(Seq<char>, Seq<Seq<char>>)>::empty());
        }
        let mut k: usize = 0;
        while k < self.departments.len()
            invariant
                k <= self.departments@.len(),
                roster == roster_of(self.departments@),
                lines.deep_view() == seq![" --- get all! ---"@] + roster_lines(
                    roster.take(k as int),
                ),
            decreases self.departments.len() - k,
        {
            proof {
                assert(roster.take(k + 1).drop_last() =~= roster.take(k as int));
                assert(roster.take(k + 1).last() == self.departments@[k as int]@);
            }
            self.departments[k].print(lines);
            proof {
                assert(lines.deep_view() =~= seq![" --- get all! ---"@] + roster_lines(
                    roster.take(k + 1),
                ));
            }
            k = k + 1;
        }
        assert(roster.take(self.departments@.len() as int) =~= roster);
    }

    fn print_dept(&self, dept_name: String, lines: &mut Vec<String>)
        requires
            old(lines).deep_view() == Seq::<Seq<char>>::empty(),
        ensures
            final(lines).deep_view() == run_command(
                self@,
                Command::Get(Query::Name(dept_name)),
            ).1,
    {
        let heading = joined(joined(" --- get ", dept_name.as_str()).as_str(), "! ---");
        lines.push(heading);
        let ghost roster = self@;
        let ghost head = seq![" --- get "@ + dept_name@ + "! ---"@];
        assert(lines.deep_view() =~= head);
        let mut k: usize = 0;
        while k < self.departments.len()
            invariant
                k <= self.departments@.len(),
                roster == roster_of(self.departments@),
                lines.deep_view() == head,
                head == seq![" --- get "@ + dept_name@ + "! ---"@],
                find_department(roster, dept_name@, 0) == find_department(
                    roster,
                    dept_name@,
                    k as int,
                ),
            decreases self.departments.len() - k,
        {
            assert(roster[k as int] == self.departments@[k as int]@);
            if self.departments[k].name == dept_name {
                self.departments[k].print(lines);
                proof {
                    assert(roster[k as int].0 == dept_name@);
                    assert(find_department(roster, dept_name@, k as int) == k);
                }
                return ;
            }
            k = k + 1;
        }
    }

    fn add(&mut self, empl_name: String, dept_name: String, lines: &mut Vec<String>)
        requires
            old(lines).deep_view() == Seq::<Seq<char>>::empty(),
        ensures
            final(self)@ == added(old(self)@, empl_name@, dept_name@),
            final(lines).deep_view() == seq![" --- add! ---"@, "added"@],
    {
        lines.push(" --- add! ---".to_owned());
        assert(lines.deep_view() =~= seq![" --- add! ---"@]);
        lines.push("added".to_owned());
        assert(lines.deep_view() =~= seq![" --- add! ---"@].push("added"@));
        assert(lines.deep_view() =~= seq![" --- add! ---"@, "added"@]);
        let ghost roster = self@;
        let mut k: usize = 0;
        while k < self.departments.len()
            invariant
                k <= self.departments@.len(),
                roster == roster_of(self.departments@),
                self.departments == old(self).departments,
                lines.deep_view() == seq![" --- add! ---"@, "added"@],
                find_department(roster, dept_name@, 0) == find_department(
                    roster,
                    dept_name@,
                    k as int,
                ),
            decreases self.departments.len() - k,
        {
            assert(roster[k as int] == self.departments@[k as int]@);
            if self.departments[k].name == dept_name {
                let ghost names = names_of(self.departments@[k as int].employees@);
                self.departments[k].employees.push(Employee::new(empl_name.as_str()));
                proof {
                    assert(names_of(self.departments@[k as int].employees@) =~= names.push(
                        empl_name@,
                    ));
                    assert(self@ =~= roster.update(
                        k as int,
                        (roster[k as int].0, roster[k as int].1.push(empl_name@)),
                    ));
                }
                return ;
            }
            k = k + 1;
        }
        let mut new_dept = Department::new(&dept_name);
        new_dept.employees.push(Employee::new(empl_name.as_str()));
        proof {
            assert(names_of(new_dept.employees@) =~= seq![empl_name@]);
        }
        self.departments.push(new_dept);
        proof {
            assert(self@ =~= roster.push((dept_name@, seq![empl_name@])));
        }
    }

    fn remove_matching(&mut self, name: String, lines: &mut Vec<String>)
        requires
            old(lines).deep_view() == Seq::<Seq<char>>::empty(),
        ensures
            final(self)@ == removed(old(self)@, name@),
            final(lines).deep_view() == seq![" --- remove "@ + name@ + "! ---"@],
    {
        let heading = joined(joined(" --- remove ", name.as_str()).as_str(), "! ---");
        lines.push(heading);
        assert(lines.deep_view() =~= seq![" --- remove "@ + name@ + "! ---"@]);
        let ghost roster = self@;
        let mut k: usize = 0;
        while k < self.departments.len()
            invariant
                k <= self.departments@.len(),
                self.departments@.len() == roster.len(),
                forall|i: int|
                    0 <= i < k ==> (#[trigger] self.departments@[i])@ == (
                        roster[i].0,
                        without(roster[i].1, name@),
                    ),
                forall|i: int| k <= i < roster.len() ==> (#[trigger] self.departments@[i])@ == roster[i],
            decreases self.departments.len() - k,
        {
            let ghost names = names_of(self.departments@[k as int].employees@);
            let mut kept: Vec<Employee> = Vec::new();
            let mut staff: Vec<Employee> = Vec::new();
            std::mem::swap(&mut staff, &mut self.departments[k].employees);
            assert(names_of(staff@) == names);
            // The staff is taken from the back and put back in its order.
            let mut turned: Vec<Employee> = Vec::new();
            while staff.len() > 0
                invariant
                    staff@.len() + turned@.len() == names.len(),
                    forall|i: int| 0 <= i < staff@.len() ==> (#[trigger] staff@[i]).name@ == names[i],
                    forall|j: int|
                        0 <= j < turned@.len() ==> (#[trigger] turned@[j]).name@ == names[names.len()
                            - 1 - j],
                decreases staff.len(),
            {
                let e = staff.pop().unwrap();
                turned.push(e);
            }
            assert(names.take(0) =~= Seq::<Seq<char>>::empty());
            assert(names_of(kept@) =~= without(names.take(0), name@));
            while turned.len() > 0
                invariant
                    turned@.len() <= names.len(),
                    forall|j: int|
                        0 <= j < turned@.len() ==> (#[trigger] turned@[j]).name@ == names[names.len()
                            - 1 - j],
                    names_of(kept@) == without(names.take(names.len() - turned@.len()), name@),
                decreases turned.len(),
            {
                let ghost at = names.len() - turned@.len();
                let ghost before = names_of(kept@);
                let e = turned.pop().unwrap();
                proof {
                    assert(names.take(at + 1).drop_last() =~= names.take(at));
                    assert(names.take(at + 1).last() == e.name@);
                }
                if e.name != name {
                    kept.push(e);
                    assert(names_of(kept@) =~= before.push(e.name@));
                }
            }
            assert(names.take(names.len() as int) =~= names);
            self.departments[k].employees = kept;
            k = k + 1;
        }
        assert(self@ =~= removed(roster, name@));
    }

    fn remove_all(&mut self, lines: &mut Vec<String>)
        requires
            old(lines).deep_view() == Seq::<Seq<char>>::empty(),
        ensures
            final(self)@ == emptied(old(self)@),
            final(lines).deep_view() == seq![" --- remove all! ---"@],
    {
        lines.push(" --- remove all! ---".to_owned());
        assert(lines.deep_view() =~= seq![" --- remove all! ---"@]);
        let ghost roster = self@;
        let mut k: usize = 0;
        while k < self.departments.len()
            invariant
                k <= self.departments@.len(),
                self.departments@.len() == roster.len(),
                forall|i: int|
                    0 <= i < k ==> (#[trigger] self.departments@[i])@ == (
                        roster[i].0,
                        Seq::<Seq<char>>::empty(),
                    ),
                forall|i: int| k <= i < roster.len() ==> (#[trigger] self.departments@[i])@ == roster[i],
            decreases self.departments.len() - k,
        {
            self.departments[k].employees = Vec::new();
            assert(names_of(self.departments@[k as int].employees@) =~= Seq::<Seq<char>>::empty());
            k = k + 1;
        }
        assert(self@ =~= emptied(roster));
    }
}

} // verus!
