use clap::{Arg, ArgAction, Command};
use jcd::config::{Args, ConfigurationError};
use jcd::policy::DistinctFrom;

fn command() -> Command {
    Command::new("jcd")
        .arg(Arg::new("jar_list").short('j').long("jars").required(true))
        .arg(Arg::new("check").short('c').long("check"))
        .arg(
            Arg::new("exclude")
                .short('e')
                .long("exclude")
                .action(ArgAction::Append),
        )
}

fn try_parse_from(argv: &[&str]) -> Result<Args, String> {
    let matches = command()
        .try_get_matches_from(argv)
        .map_err(|e| e.to_string())?;
    let jar_list = matches.get_one::<String>("jar_list").cloned().unwrap();
    let check = matches.get_one::<String>("check").map(|s| s.as_str());
    let exclude: Vec<String> = matches
        .get_many::<String>("exclude")
        .map(|values| values.cloned().collect())
        .unwrap_or_default();
    Args::new(jar_list, check, exclude).map_err(|e| format!("{:?}", e))
}

fn parse_from(argv: &[&str]) -> Args {
    try_parse_from(argv).unwrap()
}

#[test]
fn test_parse() {
    // first argument is binary name
    let args = parse_from(&["", "--jars", "a.jar;b.jar"]);
    assert_eq!(args.check, DistinctFrom::Size);
    assert!(args.exclude.is_empty());

    let args = try_parse_from(&[""]);
    assert!(args.is_err());

    let args = parse_from(&["", "--jars", "a.jar", "-c", "crc"]);
    assert_eq!(args.check, DistinctFrom::Crc);

    let args = parse_from(&["", "--jars", "a.jar", "-c", "none"]);
    assert_eq!(args.check, DistinctFrom::Nothing);

    let args = try_parse_from(&["", "--jars", "a.jar", "-c", "none1"]);
    assert!(args.is_err());
}

#[test]
fn parse_keeps_jar_list_and_excludes() {
    let args = parse_from(&["", "-j", "a.jar;b.jar", "-e", "com/x/", "--exclude", "org/"]);
    assert_eq!(args.jar_list, "a.jar;b.jar");
    assert_eq!(args.exclude, vec!["com/x/".to_string(), "org/".to_string()]);
    assert_eq!(args.check, DistinctFrom::Size);
}

#[test]
fn args_new_defaults_to_size() {
    let args = Args::new("a.jar;b.jar".to_string(), None, Vec::new()).unwrap();
    assert_eq!(args.check, DistinctFrom::Size);
    assert_eq!(args.jar_list, "a.jar;b.jar");
    assert!(args.exclude.is_empty());
}

#[test]
fn args_new_reads_each_selector() {
    let size = Args::new("x".to_string(), Some("size"), Vec::new()).unwrap();
    assert_eq!(size.check, DistinctFrom::Size);
    let crc = Args::new("x".to_string(), Some("crc"), Vec::new()).unwrap();
    assert_eq!(crc.check, DistinctFrom::Crc);
    let none = Args::new("x".to_string(), Some("none"), Vec::new()).unwrap();
    assert_eq!(none.check, DistinctFrom::Nothing);
}

#[test]
fn args_new_rejects_unknown_selector() {
    for selector in ["none1", "", "Size", "CRC", " size", "sizes"] {
        let made = Args::new("a.jar;b.jar".to_string(), Some(selector), Vec::new());
        assert_eq!(made.err(), Some(ConfigurationError::UnknownPolicy));
    }
}

#[test]
fn policy_from_name() {
    assert_eq!(DistinctFrom::from_name("size"), Some(DistinctFrom::Size));
    assert_eq!(DistinctFrom::from_name("crc"), Some(DistinctFrom::Crc));
    assert_eq!(DistinctFrom::from_name("none"), Some(DistinctFrom::Nothing));
    assert_eq!(DistinctFrom::from_name("md5"), None);
    assert_eq!(DistinctFrom::from_name("siz"), None);
}

#[test]
fn single_archive_is_refused_before_collection() {
    let args = Args::new("a.jar".to_string(), None, Vec::new()).unwrap();
    assert_eq!(
        args.archive_paths().err(),
        Some(ConfigurationError::TooFewArchives(1))
    );
}

#[test]
fn empty_jar_list_counts_as_one_path() {
    let args = Args::new(String::new(), None, Vec::new()).unwrap();
    assert_eq!(
        args.archive_paths().err(),
        Some(ConfigurationError::TooFewArchives(1))
    );
}

#[test]
fn archive_paths_splits_at_semicolons() {
    let args = Args::new("lib/a.jar;lib/b.jar;c.jar".to_string(), None, Vec::new()).unwrap();
    assert_eq!(
        args.archive_paths().unwrap(),
        vec!["lib/a.jar".to_string(), "lib/b.jar".to_string(), "c.jar".to_string()]
    );
    let trailing = Args::new("a.jar;".to_string(), None, Vec::new()).unwrap();
    assert_eq!(
        trailing.archive_paths().unwrap(),
        vec!["a.jar".to_string(), String::new()]
    );
}
