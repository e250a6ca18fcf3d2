use rust_redis::server_conf::{ServerConf, ServerError, SuccessServerRequest};

const VERBOSE: &str = "verbose";
const PORT: &str = "port";
const TIMEOUT: &str = "timeout";
const DBFILENAME: &str = "dbfilename";
const LOGFILE: &str = "logfile";
const DEFAULT_VERBOSE: u64 = 0;
const DEFAULT_PORT: u64 = 8888;
const DEFAULT_TIMEOUT: u64 = 0;
const DEFAULT_DBFILENAME: &str = "dump.txt";
const DEFAULT_LOGFILE: &str = "lf.log";
const ADDR_VALUE: &str = "0.0.0.0:8888";
const DEFAULT_VERBOSE_TO_BOOLEAN: bool = false;

/// The lines of the configuration file the tests read.
const FILE: [&str; 4] = ["verbose = 0", "port = 8888", "timeout = 0", "logfile = lf.log"];

fn create_config_parser() -> ServerConf {
    ServerConf::new(FILE.to_vec()).unwrap()
}

#[test]
fn file_save_correctly() {
    let cp = create_config_parser();

    assert_eq!(cp.verbose(), DEFAULT_VERBOSE_TO_BOOLEAN);
    assert_eq!(cp.addr(), ADDR_VALUE);
    assert_eq!(cp.time_out(), DEFAULT_TIMEOUT);
    assert_eq!(cp.dbfilename(), DEFAULT_DBFILENAME);
    assert_eq!(cp.logfile(), DEFAULT_LOGFILE);
}

#[test]
fn server_conf_get_all_config() {
    let cp = create_config_parser();
    if let Ok(SuccessServerRequest::List(list)) = cp.get_config("*") {
        let list: Vec<String> = list.iter().map(|x| x.to_string()).collect();

        assert!(list.contains(&format!("{}: {}", VERBOSE, DEFAULT_VERBOSE)));
        assert!(list.contains(&format!("{}: {}", PORT, DEFAULT_PORT)));
        assert!(list.contains(&format!("{}: {}", TIMEOUT, DEFAULT_TIMEOUT)));
        assert!(list.contains(&format!("{}: {}", DBFILENAME, DEFAULT_DBFILENAME)));
        assert!(list.contains(&format!("{}: {}", LOGFILE, DEFAULT_LOGFILE)));
    }
}

#[test]
fn get_config_verbose() {
    let cp = create_config_parser();
    if let Ok(SuccessServerRequest::List(list)) = cp.get_config(VERBOSE) {
        let list: Vec<String> = list.iter().map(|x| x.to_string()).collect();

        assert!(list.contains(&format!("{}: {}", VERBOSE, DEFAULT_VERBOSE)));
    }
}

#[test]
fn get_config_dbfilename() {
    let cp = create_config_parser();
    if let Ok(SuccessServerRequest::List(list)) = cp.get_config(DBFILENAME) {
        let list: Vec<String> = list.iter().map(|x| x.to_string()).collect();

        assert!(list.contains(&format!("{}: {}", DBFILENAME, DEFAULT_DBFILENAME)));
    }
}

#[test]
fn server_conf_set_verbose_correctly() {
    let mut cp = create_config_parser();
    assert_eq!(cp.verbose(), DEFAULT_VERBOSE_TO_BOOLEAN);

    let r = cp.set_config(VERBOSE, "1").unwrap();
    assert_eq!(r, SuccessServerRequest::Success);

    assert_eq!(cp.verbose(), true);
}

#[test]
fn set_verbose_with_a_non_integer() {
    let mut cp = create_config_parser();
    assert_eq!(cp.verbose(), DEFAULT_VERBOSE_TO_BOOLEAN);

    let r = cp.set_config(VERBOSE, "non-number").unwrap_err();
    assert_eq!(r, ServerError::NotAnInteger);

    assert_eq!(cp.verbose(), DEFAULT_VERBOSE_TO_BOOLEAN);
}

#[test]
fn server_conf_set_non_existent_option() {
    let mut cp = create_config_parser();

    let r = cp.set_config("non-option", "no-value").unwrap_err();
    assert_eq!(r, ServerError::NonExistentConfigOption);

    assert_eq!(
        cp.get_config("non-option").unwrap_err(),
        ServerError::NonExistentConfigOption
    );
}
