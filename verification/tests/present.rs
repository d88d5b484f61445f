use freecores::cores::AffinityRecord;
use freecores::present::{join_cores, process_line, report, Options, Report};

fn record(process: &str, core: u32) -> AffinityRecord {
    AffinityRecord { process: String::from(process), core }
}

#[test]
fn options_start_with_the_defaults() {
    let options = Options::new(vec![3, 1]);
    assert_eq!(
        options,
        Options {
            par: 1,
            join: String::from(" "),
            newline: false,
            processes: false,
            available: vec![3, 1],
        }
    );
}

#[test]
fn newline_overrides_the_join_string() {
    let mut options = Options::new(vec![0]);
    assert_eq!(options.separator(), " ");
    options.join = String::from(", ");
    assert_eq!(options.separator(), ", ");
    options.newline = true;
    assert_eq!(options.separator(), "\n");
}

#[test]
fn cores_are_joined_with_the_separator() {
    assert_eq!(join_cores(&vec![0, 2], " "), "0 2");
    assert_eq!(join_cores(&vec![10, 2, 300], ","), "10,2,300");
    assert_eq!(join_cores(&vec![1, 2, 3], "\n"), "1\n2\n3");
    assert_eq!(join_cores(&vec![1, 2, 3], ""), "123");
    assert_eq!(join_cores(&vec![8, 9], " -> "), "8 -> 9");
}

#[test]
fn one_core_needs_no_separator() {
    assert_eq!(join_cores(&vec![7], ", "), "7");
}

#[test]
fn no_cores_give_an_empty_text() {
    assert_eq!(join_cores(&Vec::new(), ", "), "");
}

#[test]
fn process_line_pads_the_core_to_three() {
    assert_eq!(process_line(&record("42", 1)), "  1 : 42");
    assert_eq!(process_line(&record("7", 0)), "  0 : 7");
    assert_eq!(process_line(&record("1234", 17)), " 17 : 1234");
    assert_eq!(process_line(&record("1", 128)), "128 : 1");
    assert_eq!(process_line(&record("self", 1024)), "1024 : self");
    assert_eq!(process_line(&record("", 5)), "  5 : ");
}

#[test]
fn report_prints_the_free_cores() {
    let options = Options::new(vec![0, 1, 2, 3]);
    let records = vec![record("100", 1), record("200", 3)];
    assert_eq!(
        report(&options, &records),
        Report { output: vec![String::from("0 2")], exit_code: 0 }
    );
}

#[test]
fn report_without_free_cores_prints_nothing_and_fails() {
    let options = Options::new(vec![5]);
    let records = vec![record("100", 5)];
    assert_eq!(report(&options, &records), Report { output: Vec::new(), exit_code: 1 });
}

#[test]
fn report_without_candidates_prints_nothing_and_fails() {
    let mut options = Options::new(Vec::new());
    options.processes = true;
    let records = vec![record("100", 5)];
    assert_eq!(report(&options, &records), Report { output: Vec::new(), exit_code: 1 });
}

#[test]
fn report_prints_the_processes_first() {
    let mut options = Options::new(vec![0, 1, 2]);
    options.processes = true;
    let records = vec![record("42", 1), record("43", 11), record("44", 1)];
    assert_eq!(
        report(&options, &records),
        Report {
            output: vec![
                String::from("  1 : 42"),
                String::from(" 11 : 43"),
                String::from("  1 : 44"),
                String::from("0 2"),
            ],
            exit_code: 0,
        }
    );
}

#[test]
fn report_prints_the_processes_when_no_core_is_free() {
    let mut options = Options::new(vec![1]);
    options.processes = true;
    let records = vec![record("42", 1)];
    assert_eq!(
        report(&options, &records),
        Report { output: vec![String::from("  1 : 42")], exit_code: 1 }
    );
}

#[test]
fn report_joins_with_newlines_when_asked() {
    let mut options = Options::new(vec![4, 5, 6, 5]);
    options.join = String::from(",");
    let records = vec![record("9", 6)];
    assert_eq!(report(&options, &records).output, vec![String::from("4,5,5")]);
    options.newline = true;
    assert_eq!(report(&options, &records).output, vec![String::from("4\n5\n5")]);
}
