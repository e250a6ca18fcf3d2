use rust_redis::config_parser::ConfigParser;
use rust_redis::databasehelper::{DataBaseError, SuccessQuery};

const VERBOSE: &str = "verbose";
const PORT: &str = "port";
const TIMEOUT: &str = "timeout";
const DBFILENAME: &str = "dbfilename";
const LOGFILE: &str = "logfile";
const VERBOSE_VALUE: &str = "0";
const PORT_VALUE: &str = "8888";
const TIMEOUT_VALUE: &str = "0";
const DBFILENAME_VALUE: &str = "dump.rdb";
const LOGFILE_VALUE: &str = "lf.log";

/// The lines of the configuration file the tests read.
const FILE: [&str; 5] = [
    "verbose = 0",
    "port = 8888",
    "timeout = 0",
    "dbfilename = dump.rdb",
    "logfile = lf.log",
];

fn create_config_parser() -> ConfigParser {
    ConfigParser::new(FILE.to_vec()).unwrap()
}

#[test]
#[should_panic]
fn getu32_dbfilename_panic() {
    let cp = ConfigParser::new(FILE.to_vec()).unwrap();

    // should panic here
    cp.getu32(DBFILENAME).unwrap();
}

#[test]
fn verbose_save_correctly() {
    let cp = create_config_parser();

    assert_eq!(cp.get(VERBOSE).unwrap(), VERBOSE_VALUE);
}

#[test]
fn port_save_correctly() {
    let cp = create_config_parser();

    assert_eq!(cp.get(PORT).unwrap(), PORT_VALUE);
}

#[test]
fn getu32_port_8888() {
    let cp = create_config_parser();

    assert_eq!(cp.getu32(PORT).unwrap(), PORT_VALUE.parse::<u32>().unwrap());
}

#[test]
fn timeout_save_correctly() {
    let cp = create_config_parser();

    assert_eq!(cp.get(TIMEOUT).unwrap(), TIMEOUT_VALUE);
}

#[test]
fn dbfilename_save_correctly() {
    let cp = create_config_parser();

    assert_eq!(cp.get(DBFILENAME).unwrap(), DBFILENAME_VALUE);
}

#[test]
fn logfile_save_correctly() {
    let cp = create_config_parser();

    assert_eq!(cp.get(LOGFILE).unwrap(), LOGFILE_VALUE);
}

#[test]
fn config_parser_get_all_config() {
    let cp = create_config_parser();
    if let Ok(SuccessQuery::List(list)) = cp.get_config("*") {
        let list: Vec<String> = list.iter().map(|x| x.to_string()).collect();

        assert!(list.contains(&format!("{}: {}", VERBOSE, VERBOSE_VALUE)));
        assert!(list.contains(&format!("{}: {}", PORT, PORT_VALUE)));
        assert!(list.contains(&format!("{}: {}", TIMEOUT, TIMEOUT_VALUE)));
        assert!(list.contains(&format!("{}: {}", DBFILENAME, DBFILENAME_VALUE)));
        assert!(list.contains(&format!("{}: {}", LOGFILE, LOGFILE_VALUE)));
    }
}

#[test]
fn get_verbose_config() {
    let cp = create_config_parser();
    if let Ok(SuccessQuery::List(list)) = cp.get_config(VERBOSE) {
        let list: Vec<String> = list.iter().map(|x| x.to_string()).collect();

        assert!(list.contains(&format!("{}: {}", VERBOSE, VERBOSE_VALUE)));
    }
}

#[test]
fn config_parser_set_verbose_correctly() {
    let mut cp = create_config_parser();
    assert_eq!(cp.get(VERBOSE).unwrap(), "0");

    let r = cp.set_config(VERBOSE, "1").unwrap();
    assert_eq!(r, SuccessQuery::Success);

    assert_eq!(cp.get(VERBOSE).unwrap(), "1");
}

#[test]
fn config_parser_set_non_existent_option() {
    let mut cp = create_config_parser();

    let r = cp.set_config("non-option", "no-value").unwrap_err();
    assert_eq!(r, DataBaseError::NonExistentConfigOption);

    assert_eq!(
        cp.get_config("non-option").unwrap_err(),
        DataBaseError::NonExistentConfigOption
    );
}
