use parel::config::{
    check_identifiers, check_show, combination_space, parse_file_arg, ConfigError,
};
use parel::dispatch::JobCounter;
use parel::indexer::{product, total_combinations};
use parel::outcome::{error_label, report_channel, Channel, JobOutcome};
use parel::render::gen_command;
use parel::template::{precompute_template, Selector, Template};
use parel::text::{decimal_string, is_alphanumeric};
use parel::wordlist::{wordlist_lengths, Wordlist};

fn wordlist(identifier: &str, values: &[&str]) -> Wordlist {
    Wordlist {
        identifier: identifier.to_string(),
        values: values.iter().map(|v| v.to_string()).collect(),
    }
}

fn render_all(command: &str, index: &str, lists: &Vec<Wordlist>) -> Vec<String> {
    let template = precompute_template(command, index, lists);
    let lengths = wordlist_lengths(lists);
    let total = total_combinations(&lengths).unwrap();
    (0..total)
        .map(|i| gen_command(&template, i, lists, &lengths))
        .collect()
}

fn segments(t: &Template) -> Vec<(String, Selector)> {
    t.segments
        .iter()
        .map(|s| (s.literal.clone(), s.selector))
        .collect()
}

#[test]
fn two_wordlists_first_varies_fastest() {
    let lists = vec![wordlist("A", &["x", "y"]), wordlist("B", &["1", "2"])];
    let lengths = wordlist_lengths(&lists);
    assert_eq!(total_combinations(&lengths), Some(4));
    assert_eq!(
        render_all("echo A-B", "", &lists),
        vec!["echo x-1", "echo y-1", "echo x-2", "echo y-2"]
    );
}

#[test]
fn earlier_identifier_takes_precedence() {
    let lists = vec![wordlist("foo", &["X"]), wordlist("foobar", &["Y"])];
    let template = precompute_template("echo foobar", "", &lists);
    assert_eq!(
        segments(&template),
        vec![
            ("echo ".to_string(), Selector::Word(0)),
            ("bar".to_string(), Selector::End),
        ]
    );
    let lengths = wordlist_lengths(&lists);
    assert_eq!(gen_command(&template, 0, &lists, &lengths), "echo Xbar");
}

#[test]
fn later_registration_matches_when_earlier_absent() {
    let lists = vec![wordlist("foobar", &["Y"]), wordlist("foo", &["X"])];
    assert_eq!(render_all("echo foobar foo", "", &lists), vec!["echo Y X"]);
}

#[test]
fn single_value_gives_one_job() {
    let lists = vec![wordlist("W", &["only"])];
    let lengths = wordlist_lengths(&lists);
    let total = total_combinations(&lengths).unwrap();
    assert_eq!(total, 1);
    let mut counter = JobCounter::new(total);
    assert_eq!(counter.claim(), Some(0));
    for _ in 0..8 {
        assert_eq!(counter.claim(), None);
    }
    assert_eq!(render_all("cat W", "", &lists), vec!["cat only"]);
}

#[test]
fn counter_hands_out_each_index_once() {
    for total in [1usize, 2, 7, 30] {
        let mut counter = JobCounter::new(total);
        let mut seen = Vec::new();
        while let Some(i) = counter.claim() {
            seen.push(i);
        }
        assert_eq!(seen, (0..total).collect::<Vec<usize>>());
        assert_eq!(counter.claim(), None);
    }
}

#[test]
fn counter_with_no_jobs_hands_out_nothing() {
    let mut counter = JobCounter::new(0);
    assert_eq!(counter.claim(), None);
}

#[test]
fn indexer_is_a_bijection() {
    let sizes = vec![2usize, 3, 4];
    let total = total_combinations(&sizes).unwrap();
    assert_eq!(total, 24);
    let mut tuples = Vec::new();
    for i in 0..total {
        let offs = product(i, &sizes);
        assert_eq!(offs.len(), 3);
        for k in 0..3 {
            assert!(offs[k] < sizes[k]);
        }
        assert_eq!(offs[0] + 2 * offs[1] + 6 * offs[2], i);
        tuples.push(offs);
    }
    tuples.sort();
    tuples.dedup();
    assert_eq!(tuples.len(), 24);
}

#[test]
fn product_exact_values() {
    assert_eq!(product(5, &vec![2, 3]), vec![1, 2]);
    assert_eq!(product(23, &vec![2, 3, 4]), vec![1, 2, 3]);
    assert_eq!(product(0, &vec![]), Vec::<usize>::new());
    assert_eq!(product(7, &vec![1, 10]), vec![0, 7]);
}

#[test]
fn total_of_no_wordlists_is_one() {
    assert_eq!(total_combinations(&vec![]), Some(1));
}

#[test]
fn total_overflow_is_reported() {
    assert_eq!(total_combinations(&vec![usize::MAX, 2]), None);
    assert_eq!(total_combinations(&vec![usize::MAX, 1]), Some(usize::MAX));
}

#[test]
fn rendering_is_repeatable() {
    let lists = vec![wordlist("A", &["a", "b", "c"]), wordlist("B", &["1", "2"])];
    let template = precompute_template("run A B A", "N", &lists);
    let lengths = wordlist_lengths(&lists);
    for i in 0..6 {
        let first = gen_command(&template, i, &lists, &lengths);
        let second = gen_command(&template, i, &lists, &lengths);
        assert_eq!(first, second);
    }
}

#[test]
fn rendered_entries_match_offsets() {
    let lists = vec![wordlist("A", &["a", "b", "c"]), wordlist("B", &["1", "2"])];
    let template = precompute_template("<A|B>", "", &lists);
    let lengths = wordlist_lengths(&lists);
    for i in 0..6 {
        let offs = product(i, &lengths);
        let cmd = gen_command(&template, i, &lists, &lengths);
        let expected = format!("<{}|{}>", lists[0].values[offs[0]], lists[1].values[offs[1]]);
        assert_eq!(cmd, expected);
    }
}

#[test]
fn job_index_is_substituted() {
    let lists = vec![wordlist("A", &["x", "y"])];
    assert_eq!(
        render_all("echo N A N", "N", &lists),
        vec!["echo 0 x 0", "echo 1 y 1"]
    );
}

#[test]
fn index_identifier_precedes_wordlists() {
    let lists = vec![wordlist("ID", &["w"])];
    let template = precompute_template("ID", "I", &lists);
    assert_eq!(
        segments(&template),
        vec![
            ("".to_string(), Selector::JobIndex),
            ("D".to_string(), Selector::End),
        ]
    );
}

#[test]
fn large_index_in_decimal() {
    let lists = vec![wordlist("A", &["v"])];
    let template = precompute_template("job-IDX-A", "IDX", &lists);
    let lengths = wordlist_lengths(&lists);
    assert_eq!(gen_command(&template, 1234, &lists, &lengths), "job-1234-v");
    assert_eq!(decimal_string(0), "0");
    assert_eq!(decimal_string(907), "907");
    assert_eq!(decimal_string(usize::MAX), usize::MAX.to_string());
}

#[test]
fn template_without_placeholders() {
    let template = precompute_template("ls -l", "", &vec![]);
    assert_eq!(segments(&template), vec![("ls -l".to_string(), Selector::End)]);
    let empty = precompute_template("", "", &vec![]);
    assert_eq!(segments(&empty), vec![("".to_string(), Selector::End)]);
}

#[test]
fn non_ascii_command_is_kept() {
    let lists = vec![wordlist("A", &["é"])];
    assert_eq!(render_all("ü A ß", "", &lists), vec!["ü é ß"]);
}

#[test]
fn file_argument_splits_at_first_colon() {
    let a = parse_file_arg("abc.txt:foo").unwrap();
    assert_eq!(a.path, "abc.txt");
    assert_eq!(a.identifier, "foo");
    assert!(matches!(parse_file_arg("abc.txt"), Err(ConfigError::MissingIdentifier(l)) if l == "abc.txt"));
    assert!(matches!(parse_file_arg("abc.txt:"), Err(ConfigError::MissingIdentifier(_))));
    assert!(matches!(parse_file_arg("a:b:c"), Err(ConfigError::NotAlphanumeric(id)) if id == "b:c"));
    assert!(matches!(parse_file_arg("a:fo-o"), Err(ConfigError::NotAlphanumeric(id)) if id == "fo-o"));
    let b = parse_file_arg(":X1").unwrap();
    assert_eq!(b.path, "");
    assert_eq!(b.identifier, "X1");
}

#[test]
fn identifiers_are_checked() {
    let ids = |v: &[&str]| v.iter().map(|s| s.to_string()).collect::<Vec<String>>();
    assert!(check_identifiers("echo A B", "", &ids(&["A", "B"])).is_ok());
    assert!(check_identifiers("echo A B N", "N", &ids(&["A", "B"])).is_ok());
    assert!(matches!(
        check_identifiers("echo A", "", &ids(&["A", "A"])),
        Err(ConfigError::DuplicateIdentifier(s)) if s == "A"
    ));
    assert!(matches!(
        check_identifiers("echo A", "A", &ids(&["A"])),
        Err(ConfigError::DuplicateIdentifier(s)) if s == "A"
    ));
    assert!(matches!(
        check_identifiers("echo A", "", &ids(&["A", "C"])),
        Err(ConfigError::NotInCommand(s)) if s == "C"
    ));
    assert!(matches!(
        check_identifiers("echo A", "N", &ids(&["A"])),
        Err(ConfigError::NotInCommand(s)) if s == "N"
    ));
}

#[test]
fn combination_space_checks_wordlists() {
    let lists = vec![wordlist("A", &["x", "y"]), wordlist("B", &["1", "2", "3"])];
    let (lens, total) = combination_space(&lists).unwrap();
    assert_eq!(lens, vec![2, 3]);
    assert_eq!(total, 6);
    let lists = vec![wordlist("A", &["x"]), wordlist("E", &[]), wordlist("F", &[])];
    assert!(matches!(
        combination_space(&lists),
        Err(ConfigError::EmptyWordlist(id)) if id == "E"
    ));
    let (lens, total) = combination_space(&vec![]).unwrap();
    assert!(lens.is_empty());
    assert_eq!(total, 1);
}

#[test]
fn show_index_must_be_below_total() {
    assert!(check_show(3, 4).is_ok());
    assert!(matches!(
        check_show(4, 4),
        Err(ConfigError::ShowOutOfRange { show: 4, total: 4 })
    ));
}

#[test]
fn alphanumeric_identifiers() {
    assert!(is_alphanumeric("abcXYZ019"));
    assert!(is_alphanumeric(""));
    assert!(!is_alphanumeric("a_b"));
    assert!(!is_alphanumeric("é"));
}

#[test]
fn failed_job_does_not_stop_the_run() {
    let lists = vec![wordlist("A", &["ok", "fail", "ok2"])];
    let lengths = wordlist_lengths(&lists);
    let template = precompute_template("run A", "", &lists);
    let mut counter = JobCounter::new(3);
    let mut ran = Vec::new();
    while let Some(i) = counter.claim() {
        let cmd = gen_command(&template, i, &lists, &lengths);
        let outcome = if cmd == "run fail" { JobOutcome::Failed } else { JobOutcome::Succeeded };
        ran.push((cmd, report_channel(outcome, false)));
    }
    assert_eq!(
        ran,
        vec![
            ("run ok".to_string(), Some(Channel::Output)),
            ("run fail".to_string(), Some(Channel::Error)),
            ("run ok2".to_string(), Some(Channel::Output)),
        ]
    );
}

#[test]
fn silent_suppresses_output_but_not_warnings() {
    assert_eq!(report_channel(JobOutcome::Succeeded, true), None);
    assert_eq!(report_channel(JobOutcome::Failed, true), None);
    assert_eq!(report_channel(JobOutcome::NotLaunched, true), Some(Channel::Warning));
    assert_eq!(report_channel(JobOutcome::NotLaunched, false), Some(Channel::Warning));
}

#[test]
fn error_label_names_the_job() {
    assert_eq!(error_label(7), "Error in 7:");
    assert_eq!(error_label(42), "Error in 42:");
}
