use lowpoly::collections::big_co::command::{get_command, Command, CommandError};
use lowpoly::collections::big_co::company::Company;
use lowpoly::collections::big_co::query::Query;
use lowpoly::collections::big_co::run;
use lowpoly::collections::math::{summarize, tally, Summary};
use lowpoly::collections::pig_latin::{is_vowel, translate, translate_word};

fn add(empl: &str, dept: &str) -> Command {
    Command::Add { empl_name: empl.to_string(), dept_name: dept.to_string() }
}

fn lines(report: Vec<String>) -> Vec<String> {
    report
}

#[test]
fn employees_join_their_departments() {
    let mut company = Company::new();
    assert_eq!(lines(company.run(add("Sally", "Engineering"))), vec![" --- add! ---", "added"]);
    company.run(add("Amir", "Sales"));
    company.run(add("Bo", "Engineering"));
    assert_eq!(
        company.run(Command::Get(Query::All)),
        vec![" --- get all! ---", "Engineering", " - Sally", " - Bo", "Sales", " - Amir"]
    );
    assert_eq!(
        company.run(Command::Get(Query::Name("Sales".to_string()))),
        vec![" --- get Sales! ---", "Sales", " - Amir"]
    );
    assert_eq!(
        company.run(Command::Get(Query::Name("Legal".to_string()))),
        vec![" --- get Legal! ---"]
    );
}

#[test]
fn employees_leave_by_name_or_all_at_once() {
    let mut company = Company::new();
    company.run(add("Sally", "Engineering"));
    company.run(add("Amir", "Sales"));
    company.run(add("Sally", "Sales"));
    company.run(add("Bo", "Engineering"));
    assert_eq!(
        company.run(Command::Remove(Query::Name("Sally".to_string()))),
        vec![" --- remove Sally! ---"]
    );
    assert_eq!(
        company.run(Command::Get(Query::All)),
        vec![" --- get all! ---", "Engineering", " - Bo", "Sales", " - Amir"]
    );
    assert_eq!(company.run(Command::Remove(Query::All)), vec![" --- remove all! ---"]);
    assert_eq!(
        company.run(Command::Get(Query::All)),
        vec![" --- get all! ---", "Engineering", "Sales"]
    );
    assert_eq!(company.run(Command::Exit), Vec::<String>::new());
}

#[test]
fn commands_run_until_exit() {
    let report = run(vec![
        add("Sally", "Engineering"),
        Command::Get(Query::Name("Engineering".to_string())),
        Command::Exit,
        add("Amir", "Sales"),
        Command::Get(Query::All),
    ]);
    assert_eq!(
        report,
        vec![" --- add! ---", "added", " --- get Engineering! ---", "Engineering", " - Sally"]
    );
    assert_eq!(run(vec![]), Vec::<String>::new());
    assert_eq!(run(vec![Command::Get(Query::All)]), vec![" --- get all! ---"]);
}

#[test]
fn vowels_are_told_from_other_letters() {
    for c in ['a', 'e', 'i', 'o', 'u', 'y'] {
        assert!(is_vowel(c));
    }
    for c in ['b', 'z', 'A', ' ', 'é'] {
        assert!(!is_vowel(c));
    }
}

#[test]
fn commands_are_read_from_the_words_of_a_line() {
    assert!(matches!(get_command("get\n"), Ok(Command::Get(Query::All))));
    assert!(matches!(get_command("  get   all  "), Ok(Command::Get(Query::All))));
    match get_command("get\tSales now") {
        Ok(Command::Get(Query::Name(name))) => assert_eq!(name, "Sales"),
        _ => panic!("a get by name was expected"),
    }
    match get_command("add Sally to Engineering\n") {
        Ok(Command::Add { empl_name, dept_name }) => {
            assert_eq!(empl_name, "Sally");
            assert_eq!(dept_name, "Engineering");
        }
        _ => panic!("an add was expected"),
    }
    assert_eq!(get_command("add Sally Engineering").err(), Some(CommandError::AddFormat));
    assert_eq!(get_command("add Sally in Engineering").err(), Some(CommandError::AddFormat));
    assert_eq!(get_command("add Sally to").err(), Some(CommandError::AddFormat));
    assert_eq!(get_command("add").err(), Some(CommandError::AddFormat));
    assert!(matches!(get_command("remove"), Ok(Command::Remove(Query::All))));
    assert!(matches!(get_command("remove all"), Ok(Command::Remove(Query::All))));
    match get_command("remove Bo") {
        Ok(Command::Remove(Query::Name(name))) => assert_eq!(name, "Bo"),
        _ => panic!("a remove by name was expected"),
    }
    assert!(matches!(get_command("exit"), Ok(Command::Exit)));
    assert_eq!(get_command("").err(), Some(CommandError::Unrecognized));
    assert_eq!(get_command("   ").err(), Some(CommandError::Unrecognized));
    assert_eq!(get_command("Get").err(), Some(CommandError::Unrecognized));
    assert_eq!(get_command("quit").err(), Some(CommandError::Unrecognized));
    assert_eq!(CommandError::AddFormat.message(), "use `add EMPLOYEE to DEPARTMENT` format.");
    assert_eq!(CommandError::Unrecognized.message(), "unrecognized command.");
}

#[test]
fn a_phrase_is_put_into_pig_latin() {
    let word = |text: &str| -> String {
        translate_word(&text.chars().collect()).iter().collect()
    };
    assert_eq!(word("the"), "e-thay ");
    assert_eq!(word("quick"), "ick-quay ");
    assert_eq!(word("apple"), "apple-ay ");
    assert_eq!(word("by"), "y-bay ");
    assert_eq!(word("quu"), "");
    assert_eq!(word("brr"), "");
    assert_eq!(word(""), "");
    assert_eq!(word("squid"), "id-squay ");
    assert_eq!(word("sun"), "un-say ");
    assert_eq!(
        translate("the quick brown fox jumped over the lazy log or something"),
        "e-thay ick-quay own-bray ox-fay umped-jay over-ay e-thay azy-lay og-lay or-ay omething-say"
    );
    assert_eq!(translate(""), "");
    assert_eq!(translate(" brr  "), "");
    assert_eq!(translate("\tfox\n"), "ox-fay");
}

#[test]
fn numbers_are_summed_up() {
    let summary = summarize(vec![1, 2, 3, 4, 1, 2, 3, 2, 3, 1, 1, 1, 35]);
    assert_eq!(summary, Summary { sum: 59, len: 13, median: 2, mode: 3 });
    assert_eq!(summarize(vec![]), Summary { sum: 0, len: 0, median: 0, mode: 0 });
    assert_eq!(summarize(vec![5, -7]), Summary { sum: -2, len: 2, median: 5, mode: 5 });
    assert_eq!(
        summarize(vec![i32::MAX, i32::MAX, i32::MIN]),
        Summary { sum: i32::MAX as i128 - 1, len: 3, median: i32::MAX, mode: i32::MAX }
    );
    assert_eq!(summarize(vec![3, 1, 2]).median, 2);
    assert_eq!(summarize(vec![9, 9, 9, 9]).mode, 9);
    assert_eq!(summarize(vec![2, 2, 2, 1]).mode, 2);
    assert_eq!(summarize(vec![7, 7, 1]).mode, 7);
    assert_eq!(summarize(vec![1, 1, 1, 5, 5]).mode, 5);
}

#[test]
fn the_shows_of_the_phrase_and_of_the_numbers() {
    assert_eq!(
        lowpoly::collections::pig_latin::run(),
        "e-thay ick-quay own-bray ox-fay umped-jay over-ay e-thay azy-lay og-lay or-ay omething-say"
    );
    assert_eq!(
        lowpoly::collections::math::run(),
        Summary { sum: 59, len: 13, median: 2, mode: 3 }
    );
}

#[test]
fn the_tally_takes_the_numbers_as_they_stand() {
    assert_eq!(tally(&vec![3, 1, 2]), Summary { sum: 6, len: 3, median: 1, mode: 3 });
    assert_eq!(tally(&vec![1, 2, 3]), Summary { sum: 6, len: 3, median: 2, mode: 1 });
    assert_eq!(tally(&vec![]), Summary { sum: 0, len: 0, median: 0, mode: 0 });
    assert_eq!(tally(&vec![1, 1, 1, 5, 5]), summarize(vec![5, 1, 5, 1, 1]));
}
