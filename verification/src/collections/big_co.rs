use vstd::prelude::*;

pub mod command;
pub mod company;
pub mod query;

use crate::collections::big_co::command::Command;
use crate::collections::big_co::company::{run_command, Company, Roster};

verus! {

/// The roster and the report after the commands up to the first `Exit` were
/// carried out on `roster`, one after the other.
pub open spec fn run_all(roster: Roster, commands: Seq<Command>) -> (Roster, Seq<Seq<char>>)
    decreases commands.len(),
{
    if commands.len() == 0 || commands.first() is Exit {
        (roster, Seq::empty())
    } else {
        let step = run_command(roster, commands.first());
        let rest = run_all(step.0, commands.drop_first());
        (rest.0, step.1 + rest.1)
    }
}

/// Starts an empty company, carries out the commands in their order until
/// one of them is `Exit`, and returns the lines that the commands report.
pub fn run(commands: Vec<Command>) -> (report: Vec<String>)
    ensures
        report.deep_view() == run_all(Seq::empty(), commands@).1,
{
    let mut company = Company::new();
    let mut report: Vec<String> = Vec::new();
    let ghost all = commands@;
    let mut stack = commands;
    let mut pending: Vec<Command> = Vec::new();
    // The commands are taken from the back, so they are turned round first.
    while stack.len() > 0
        invariant
            stack@.len() + pending@.len() == all.len(),
            forall|i: int| 0 <= i < stack@.len() ==> #[trigger] stack@[i] == all[i],
            forall|j: int| 0 <= j < pending@.len() ==> #[trigger] pending@[j] == all[all.len() - 1 - j],
        decreases stack.len(),
    {
        let c = stack.pop().unwrap();
        pending.push(c);
    }
    assert(report.deep_view() =~= Seq::<Seq<char>>::empty());
    assert(all.skip(0) =~= all);
    while pending.len() > 0
        invariant
            all == commands@,
            pending@.len() <= all.len(),
            forall|j: int| 0 <= j < pending@.len() ==> #[trigger] pending@[j] == all[all.len() - 1 - j],
            run_all(Seq::empty(), all).1 == report.deep_view() + run_all(
                company@,
                all.skip(all.len() - pending@.len()),
            ).1,
        decreases pending.len(),
    {
        let ghost at = all.len() - pending@.len();
        let ghost todo = all.skip(at);
        let ghost before = report.deep_view();
        let command = pending.pop().unwrap();
        proof {
            assert(todo.first() == command);
            assert(todo.drop_first() =~= all.skip(at + 1));
        }
        match command {
            Command::Exit => {
                proof {
                    assert(todo.first() is Exit);
                    assert(run_all(company@, todo).1 =~= Seq::<Seq<char>>::empty());
                    assert(before + Seq::<Seq<char>>::empty() =~= before);
                }
                return report;
            },
            _ => {
                let ghost roster = company@;
                let mut lines = company.run(command);
                proof {
                    assert(lines.deep_view() == run_command(roster, todo.first()).1);
                }
                let ghost added = lines.deep_view();
                append_lines(&mut report, lines);
                proof {
                    let rest = run_all(company@, all.skip(at + 1)).1;
                    assert((before + added) + rest =~= before + (added + rest));
                }
            },
        }
    }
    proof {
        assert(all.skip(all.len() as int) =~= Seq::<Command>::empty());
        assert(report.deep_view() + Seq::<Seq<char>>::empty() =~= report.deep_view());
    }
    report
}

fn append_lines(report: &mut Vec<String>, lines: Vec<String>)
    ensures
        final(report).deep_view() == old(report).deep_view() + lines.deep_view(),
{
    let ghost start = report.deep_view();
    let ghost added = lines.deep_view();
    let mut lines = lines;
    let mut turned: Vec<String> = Vec::new();
    while lines.len() > 0
        invariant
            lines@.len() + turned@.len() == added.len(),
            forall|i: int| 0 <= i < lines@.len() ==> (#[trigger] lines@[i])@ == added[i],
            forall|j: int|
                0 <= j < turned@.len() ==> (#[trigger] turned@[j])@ == added[added.len() - 1 - j],
        decreases lines.len(),
    {
        let line = lines.pop().unwrap();
        turned.push(line);
    }
    assert(report.deep_view() =~= start + added.take(0));
    while turned.len() > 0
        invariant
            turned@.len() <= added.len(),
            forall|j: int|
                0 <= j < turned@.len() ==> (#[trigger] turned@[j])@ == added[added.len() - 1 - j],
            report.deep_view() == start + added.take(added.len() - turned@.len()),
        decreases turned.len(),
    {
        let ghost at = added.len() - turned@.len();
        let ghost before = report.deep_view();
        let line = turned.pop().unwrap();
        report.push(line);
        proof {
            assert(report.deep_view() =~= before.push(added[at]));
            assert(start + added.take(at + 1) =~= (start + added.take(at)).push(added[at]));
        }
    }
    assert(added.take(added.len() as int) =~= added);
}

} // verus!
