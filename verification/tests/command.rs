use kvstore::command::{run, Command};
use kvstore::error::{Error, USAGE};
use kvstore::store::Database;

fn s(text: &str) -> String {
    String::from(text)
}

fn args(words: &[&str]) -> Vec<String> {
    words.iter().map(|w| String::from(*w)).collect()
}

fn parsed(words: &[&str]) -> Command {
    match Command::parse(&args(words)) {
        Ok(command) => command,
        Err(e) => panic!("parse failed: {:?}", e),
    }
}

fn refused(words: &[&str]) -> Error {
    match Command::parse(&args(words)) {
        Ok(command) => panic!("parse succeeded: {:?}", command),
        Err(e) => e,
    }
}

fn ran(contents: &str, words: &[&str]) -> (Vec<String>, String) {
    match run(contents, &args(words)) {
        Ok(done) => done,
        Err(e) => panic!("run failed: {:?}", e),
    }
}

fn failed(contents: &str, words: &[&str]) -> Error {
    match run(contents, &args(words)) {
        Ok(done) => panic!("run succeeded: {:?}", done),
        Err(e) => e,
    }
}

#[test]
fn parse_put_takes_key_and_value() {
    match parsed(&["put", "alpha", "1"]) {
        Command::Put { key, value } => {
            assert_eq!(key, "alpha");
            assert_eq!(value, "1");
        }
        other => panic!("unexpected command: {:?}", other),
    }
}

#[test]
fn parse_get_and_drop_take_a_key() {
    match parsed(&["get", "alpha"]) {
        Command::Get { key } => assert_eq!(key, "alpha"),
        other => panic!("unexpected command: {:?}", other),
    }
    match parsed(&["drop", "alpha"]) {
        Command::Drop { key } => assert_eq!(key, "alpha"),
        other => panic!("unexpected command: {:?}", other),
    }
}

#[test]
fn parse_show_takes_nothing() {
    assert!(matches!(parsed(&["show"]), Command::Show));
}

#[test]
fn parse_passes_over_further_arguments() {
    match parsed(&["put", "k", "v", "more"]) {
        Command::Put { key, value } => {
            assert_eq!(key, "k");
            assert_eq!(value, "v");
        }
        other => panic!("unexpected command: {:?}", other),
    }
    match parsed(&["get", "k", "more"]) {
        Command::Get { key } => assert_eq!(key, "k"),
        other => panic!("unexpected command: {:?}", other),
    }
    assert!(matches!(parsed(&["show", "more"]), Command::Show));
}

#[test]
fn parse_takes_other_names_as_unknown() {
    assert!(matches!(parsed(&["list"]), Command::Unknown));
    assert!(matches!(parsed(&[""]), Command::Unknown));
    assert!(matches!(parsed(&["puts", "k", "v"]), Command::Unknown));
    assert!(matches!(parsed(&["pu"]), Command::Unknown));
}

#[test]
fn parse_is_case_sensitive() {
    assert!(matches!(parsed(&["PUT", "k", "v"]), Command::Unknown));
    assert!(matches!(parsed(&["Get", "k"]), Command::Unknown));
    assert!(matches!(parsed(&["SHOW"]), Command::Unknown));
    assert!(matches!(parsed(&["Drop"]), Command::Unknown));
}

#[test]
fn parse_fails_without_command_name() {
    assert_eq!(refused(&[]), Error::MissingArgument);
}

#[test]
fn parse_fails_on_missing_key_or_value() {
    assert_eq!(refused(&["put"]), Error::MissingArgument);
    assert_eq!(refused(&["put", "k"]), Error::MissingArgument);
    assert_eq!(refused(&["get"]), Error::MissingArgument);
    assert_eq!(refused(&["drop"]), Error::MissingArgument);
}

#[test]
fn apply_put_reports_new_and_replaced() {
    let mut db = Database::new();
    assert_eq!(parsed(&["put", "k", "1"]).apply(&mut db), Ok(vec![s("Put: k -> 1")]));
    assert_eq!(
        parsed(&["put", "k", "2"]).apply(&mut db),
        Ok(vec![s("Replaced: k -> 2")])
    );
    assert_eq!(db.entries(), vec![(s("k"), s("2"))]);
}

#[test]
fn apply_get_prints_the_pair() {
    let mut db = Database::new();
    db.put(s("alpha"), s("1"));
    assert_eq!(parsed(&["get", "alpha"]).apply(&mut db), Ok(vec![s("alpha -> 1")]));
    assert_eq!(db.entries(), vec![(s("alpha"), s("1"))]);
}

#[test]
fn apply_get_fails_on_absent_key() {
    let mut db = Database::new();
    db.put(s("alpha"), s("1"));
    assert_eq!(parsed(&["get", "beta"]).apply(&mut db), Err(Error::KeyNotFound));
    assert_eq!(db.entries(), vec![(s("alpha"), s("1"))]);
}

#[test]
fn apply_drop_prints_the_removed_pair() {
    let mut db = Database::new();
    db.put(s("alpha"), s("1"));
    db.put(s("beta"), s("2"));
    assert_eq!(
        parsed(&["drop", "alpha"]).apply(&mut db),
        Ok(vec![s("Dropped: alpha -> 1")])
    );
    assert_eq!(db.entries(), vec![(s("beta"), s("2"))]);
}

#[test]
fn apply_drop_fails_on_absent_key() {
    let mut db = Database::new();
    db.put(s("alpha"), s("1"));
    assert_eq!(parsed(&["drop", "beta"]).apply(&mut db), Err(Error::KeyNotFound));
    assert_eq!(db.entries(), vec![(s("alpha"), s("1"))]);
}

#[test]
fn apply_show_lists_every_pair() {
    let mut db = Database::new();
    assert_eq!(parsed(&["show"]).apply(&mut db), Ok(Vec::<String>::new()));
    db.put(s("alpha"), s("1"));
    db.put(s("beta"), s("2"));
    assert_eq!(
        parsed(&["show"]).apply(&mut db),
        Ok(vec![s("alpha -> 1"), s("beta -> 2")])
    );
    assert_eq!(db.entries().len(), 2);
}

#[test]
fn apply_unknown_prints_usage() {
    let mut db = Database::new();
    db.put(s("alpha"), s("1"));
    assert_eq!(parsed(&["help"]).apply(&mut db), Ok(vec![s(USAGE)]));
    assert_eq!(db.entries(), vec![(s("alpha"), s("1"))]);
}

#[test]
fn messages_are_exact() {
    assert_eq!(USAGE, "Usage: ./kvstore [PUT|GET|SHOW|DROP] KEY VALUE");
    assert_eq!(Error::MissingArgument.message(), USAGE);
    assert_eq!(Error::KeyNotFound.message(), "Key not found.");
    assert_eq!(Error::CorruptData.message(), "Corrupt Database");
}

#[test]
fn run_end_to_end() {
    let (printed, saved) = ran("", &["put", "alpha", "1"]);
    assert_eq!(printed, vec![s("Put: alpha -> 1")]);
    let (printed, saved) = ran(&saved, &["put", "beta", "2"]);
    assert_eq!(printed, vec![s("Put: beta -> 2")]);
    let (printed, saved) = ran(&saved, &["get", "alpha"]);
    assert_eq!(printed, vec![s("alpha -> 1")]);
    assert_eq!(saved, "alpha\t1\nbeta\t2");
    let (printed, saved) = ran(&saved, &["drop", "alpha"]);
    assert_eq!(printed, vec![s("Dropped: alpha -> 1")]);
    let (printed, saved) = ran(&saved, &["show"]);
    assert_eq!(printed, vec![s("beta -> 2")]);
    assert_eq!(saved, "beta\t2");
}

#[test]
fn run_on_empty_text_starts_with_empty_store() {
    let (printed, saved) = ran("", &["show"]);
    assert!(printed.is_empty());
    assert_eq!(saved, "");
}

#[test]
fn run_put_replaces_stored_value() {
    let (printed, saved) = ran("a\t1\nb\t2", &["put", "a", "9"]);
    assert_eq!(printed, vec![s("Replaced: a -> 9")]);
    assert_eq!(saved, "a\t9\nb\t2");
}

#[test]
fn run_unknown_command_prints_usage_and_saves() {
    let (printed, saved) = ran("a\t1\n\nb\t2\n", &["frobnicate"]);
    assert_eq!(printed, vec![s(USAGE)]);
    assert_eq!(saved, "a\t1\nb\t2");
}

#[test]
fn run_fails_without_arguments() {
    assert_eq!(failed("a\t1", &[]), Error::MissingArgument);
    assert_eq!(failed("corrupt", &[]), Error::MissingArgument);
}

#[test]
fn run_reads_the_store_before_the_arguments() {
    assert_eq!(failed("corrupt", &["put"]), Error::CorruptData);
    assert_eq!(failed("corrupt", &["show"]), Error::CorruptData);
    assert_eq!(failed("a\t1", &["put", "k"]), Error::MissingArgument);
}

#[test]
fn run_fails_on_absent_key() {
    assert_eq!(failed("a\t1", &["get", "b"]), Error::KeyNotFound);
    assert_eq!(failed("a\t1", &["drop", "b"]), Error::KeyNotFound);
    assert_eq!(failed("", &["get", "a"]), Error::KeyNotFound);
}
