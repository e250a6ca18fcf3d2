use rust_redis::channels::Channels;
use rust_redis::database::Database;
use rust_redis::databasehelper::{DataBaseError, KeyTtl, MessageTtl, SortFlags, StorageValue, StorageValueError, SuccessQuery};
use rust_redis::http::{build_answer, get_command};
use rust_redis::logger::{log_line, Logger};
use rust_redis::matcher::{glob_to_regex, matcher};
use rust_redis::request::{Query, Reponse, Request, RequestError};
use rust_redis::server_conf::{ServerConf, ServerError, SuccessServerRequest};
use rust_redis::session::Session;
use std::sync::mpsc::channel;

fn db() -> Database {
    Database::new("unused_dump.txt".to_string())
}

fn text(r: Result<SuccessQuery, DataBaseError>) -> String {
    match r {
        Ok(q) => q.to_string(),
        Err(e) => format!("Error: {}", e.to_string()),
    }
}

fn conf() -> ServerConf {
    ServerConf::new(vec!["verbose = 0", "port = 8888", "timeout = 0", "logfile = lf.log"]).unwrap()
}

// What a read gives back of a write, what one command undoes of another.

#[test]
fn get_after_set_gives_the_value() {
    let mut d = db();
    d.set("k", "v").unwrap();
    assert_eq!(d.get("k").unwrap(), SuccessQuery::String("v".to_string()));
}

#[test]
fn set_drops_the_expiry_time() {
    let mut d = db();
    d.set("k", "v").unwrap();
    d.expire("k", 100).unwrap();
    d.set("k", "w").unwrap();
    assert_eq!(d.ttl("k").unwrap(), SuccessQuery::Integer(-1));
}

#[test]
fn exists_after_del_is_false() {
    let mut d = db();
    d.set("k", "v").unwrap();
    d.del("k").unwrap();
    assert_eq!(d.exists_key("k").unwrap(), SuccessQuery::Boolean(false));
}

#[test]
fn rename_moves_the_value_and_the_expiry_time() {
    let mut d = db();
    d.set("a", "v").unwrap();
    d.expire("a", 100).unwrap();
    assert_eq!(d.rename("a", "b").unwrap(), SuccessQuery::Success);
    assert_eq!(d.get("b").unwrap(), SuccessQuery::String("v".to_string()));
    assert_eq!(d.exists_key("a").unwrap(), SuccessQuery::Boolean(false));
    match d.ttl("b").unwrap() {
        SuccessQuery::Integer(n) => assert!(n == 100 || n == 99),
        other => panic!("unexpected {:?}", other),
    }
    assert_eq!(d.ttl("a").unwrap(), SuccessQuery::Integer(-2));
}

#[test]
fn rename_of_a_missing_key_fails() {
    let mut d = db();
    assert_eq!(d.rename("a", "b").unwrap_err(), DataBaseError::NonExistentKey);
}

#[test]
fn dbsize_after_flushdb_is_zero() {
    let mut d = db();
    d.set("a", "1").unwrap();
    d.set("b", "2").unwrap();
    assert_eq!(d.dbsize().unwrap(), SuccessQuery::Integer(2));
    d.flushdb().unwrap();
    assert_eq!(d.dbsize().unwrap(), SuccessQuery::Integer(0));
}

#[test]
fn lpop_after_lpush_gives_the_value() {
    let mut d = db();
    d.lpush("l", vec!["a", "b"]).unwrap();
    d.lpush("l", vec!["x"]).unwrap();
    assert_eq!(d.lpop("l").unwrap(), SuccessQuery::String("x".to_string()));
}

#[test]
fn rpop_after_rpush_gives_the_value() {
    let mut d = db();
    d.rpush("l", vec!["a", "b"]).unwrap();
    d.rpush("l", vec!["x"]).unwrap();
    assert_eq!(d.rpop("l").unwrap(), SuccessQuery::String("x".to_string()));
}

#[test]
fn lpush_puts_the_last_value_first() {
    let mut d = db();
    d.lpush("l", vec!["a", "b", "c"]).unwrap();
    assert_eq!(text(d.lrange("l", 0, -1)), "c b a ");
}

#[test]
fn llen_after_lpush_is_the_length_lpush_gave() {
    let mut d = db();
    let r = d.lpush("l", vec!["a", "b", "c"]).unwrap();
    assert_eq!(r, SuccessQuery::Integer(3));
    assert_eq!(d.llen("l").unwrap(), SuccessQuery::Integer(3));
}

#[test]
fn sadd_twice_adds_nothing() {
    let mut d = db();
    assert_eq!(d.sadd("s", vec!["a", "b", "a"]).unwrap(), SuccessQuery::Integer(2));
    assert_eq!(d.sadd("s", vec!["a", "b", "a"]).unwrap(), SuccessQuery::Integer(0));
    assert_eq!(d.scard("s").unwrap(), SuccessQuery::Integer(2));
}

#[test]
fn sismember_after_sadd_is_true_and_after_srem_false() {
    let mut d = db();
    d.sadd("s", vec!["a", "b"]).unwrap();
    assert_eq!(d.sismember("s", "a").unwrap(), SuccessQuery::Boolean(true));
    assert_eq!(d.srem("s", vec!["a", "z"]).unwrap(), SuccessQuery::Integer(1));
    assert_eq!(d.sismember("s", "a").unwrap(), SuccessQuery::Boolean(false));
    assert_eq!(d.sismember("s", "b").unwrap(), SuccessQuery::Boolean(true));
}

#[test]
fn decrby_undoes_incrby() {
    let mut d = db();
    d.set("n", "-7").unwrap();
    assert_eq!(d.incrby("n", 12).unwrap(), SuccessQuery::Integer(5));
    assert_eq!(d.decrby("n", 12).unwrap(), SuccessQuery::Integer(-7));
    assert_eq!(d.get("n").unwrap(), SuccessQuery::String("-7".to_string()));
}

#[test]
fn incrby_of_a_missing_key_starts_from_zero() {
    let mut d = db();
    assert_eq!(d.incrby("n", 4).unwrap(), SuccessQuery::Integer(4));
    assert_eq!(d.get("n").unwrap(), SuccessQuery::String("4".to_string()));
}

#[test]
fn incrby_keeps_the_expiry_time() {
    let mut d = db();
    d.set("n", "1").unwrap();
    d.expire("n", 100).unwrap();
    d.incrby("n", 1).unwrap();
    match d.ttl("n").unwrap() {
        SuccessQuery::Integer(n) => assert!(n == 100 || n == 99),
        other => panic!("unexpected {:?}", other),
    }
}

#[test]
fn lindex_after_lset_gives_the_value() {
    let mut d = db();
    d.rpush("l", vec!["a", "b", "c"]).unwrap();
    assert_eq!(d.lset("l", 1, "x").unwrap(), SuccessQuery::Success);
    assert_eq!(d.lindex("l", 1).unwrap(), SuccessQuery::String("x".to_string()));
    assert_eq!(d.lindex("l", -1).unwrap(), SuccessQuery::String("c".to_string()));
}

#[test]
fn ttl_after_persist_is_minus_one() {
    let mut d = db();
    d.set("k", "v").unwrap();
    d.expire("k", 100).unwrap();
    assert_eq!(d.persist("k").unwrap(), SuccessQuery::Boolean(true));
    assert_eq!(d.ttl("k").unwrap(), SuccessQuery::Integer(-1));
}

#[test]
fn persist_without_a_timeout_or_of_a_missing_key_is_zero() {
    let mut d = db();
    d.set("p", "x").unwrap();
    assert_eq!(d.persist("p").unwrap(), SuccessQuery::Boolean(false));
    assert_eq!(d.persist("none").unwrap(), SuccessQuery::Boolean(false));
    assert_eq!(SuccessQuery::Boolean(false).to_string(), "(integer) 0");
}

#[test]
fn get_type_names_the_types() {
    let mut d = db();
    d.set("s", "x").unwrap();
    d.lpush("l", vec!["x"]).unwrap();
    d.sadd("t", vec!["x"]).unwrap();
    assert_eq!(d.get_type("s").unwrap(), SuccessQuery::String("string".to_string()));
    assert_eq!(d.get_type("l").unwrap(), SuccessQuery::String("list".to_string()));
    assert_eq!(d.get_type("t").unwrap(), SuccessQuery::String("set".to_string()));
    assert_eq!(d.get_type("none").unwrap(), SuccessQuery::String("none".to_string()));
}

#[test]
fn del_clears_the_timeout() {
    let mut d = db();
    d.set("KEY", "VALUE").unwrap();
    d.expire("KEY", 100).unwrap();
    assert_eq!(d.del("KEY").unwrap(), SuccessQuery::Success);
    assert_eq!(d.get("KEY").unwrap(), SuccessQuery::Nil);
    assert_eq!(d.del("NOKEY").unwrap(), SuccessQuery::Success);
    d.append("KEY", "x").unwrap();
    assert_eq!(d.ttl("KEY").unwrap(), SuccessQuery::Integer(-1));
}

#[test]
fn expireat_with_a_negative_time_deletes_a_live_key() {
    let mut d = db();
    d.set("k", "v").unwrap();
    assert_eq!(d.expireat("k", -5).unwrap(), SuccessQuery::Boolean(true));
    assert_eq!(d.get("k").unwrap(), SuccessQuery::Nil);
    assert_eq!(d.expireat("absent", -5).unwrap(), SuccessQuery::Boolean(false));
}

#[test]
fn sort_limit_stops_at_the_end_of_the_list() {
    let mut d = db();
    let mut v = vec!["1".to_string(), "3".to_string(), "2".to_string()];
    assert_eq!(
        d._sort(&mut v, SortFlags::Limit(1, 5)).unwrap(),
        vec![SuccessQuery::String("2".to_string()), SuccessQuery::String("3".to_string())]
    );
}

#[test]
fn sort_by_uses_the_key_the_pattern_names() {
    let mut d = db();
    d.rpush("l", vec!["1", "2"]).unwrap();
    d.set("weight_10", "-100").unwrap();
    d.set("weight_1", "5").unwrap();
    d.set("weight_2", "3").unwrap();
    assert_eq!(text(d.sort("l", SortFlags::By("weight_*"))), "2 1 ");
}

#[test]
fn ttl_of_a_missing_key_is_minus_two() {
    let mut d = db();
    assert_eq!(d.ttl("k").unwrap(), SuccessQuery::Integer(-2));
}

#[test]
fn expired_key_is_gone() {
    let mut d = db();
    d.set("k", "v").unwrap();
    d.expire("k", 1).unwrap();
    let start = std::time::Instant::now();
    while start.elapsed() < std::time::Duration::from_millis(2500) {
        std::hint::spin_loop();
    }
    assert_eq!(d.get("k").unwrap(), SuccessQuery::Nil);
    assert_eq!(d.exists_key("k").unwrap(), SuccessQuery::Boolean(false));
}

#[test]
fn expire_with_negative_seconds_deletes_the_key() {
    let mut d = db();
    d.set("k", "v").unwrap();
    assert_eq!(d.expire("k", -1).unwrap(), SuccessQuery::Boolean(true));
    assert_eq!(d.exists_key("k").unwrap(), SuccessQuery::Boolean(false));
}

#[test]
fn expireat_in_the_past_deletes_the_key() {
    let mut d = db();
    d.set("k", "v").unwrap();
    assert_eq!(d.expireat("k", 1000).unwrap(), SuccessQuery::Boolean(true));
    assert_eq!(d.exists_key("k").unwrap(), SuccessQuery::Boolean(false));
}

#[test]
fn expireat_of_a_missing_key_is_false() {
    let mut d = db();
    assert_eq!(d.expireat("k", 1000).unwrap(), SuccessQuery::Boolean(false));
}

#[test]
fn getdel_deletes_the_key() {
    let mut d = db();
    d.set("k", "v").unwrap();
    assert_eq!(d.getdel("k").unwrap(), SuccessQuery::String("v".to_string()));
    assert_eq!(d.exists_key("k").unwrap(), SuccessQuery::Boolean(false));
}

#[test]
fn get_after_getset_gives_the_new_value() {
    let mut d = db();
    d.set("k", "old").unwrap();
    assert_eq!(d.getset("k", "new").unwrap(), SuccessQuery::String("old".to_string()));
    assert_eq!(d.get("k").unwrap(), SuccessQuery::String("new".to_string()));
}

#[test]
fn getset_on_a_list_fails_and_changes_nothing() {
    let mut d = db();
    d.rpush("l", vec!["a"]).unwrap();
    assert_eq!(d.getset("l", "x").unwrap_err(), DataBaseError::NotAString);
    assert_eq!(d.llen("l").unwrap(), SuccessQuery::Integer(1));
}

#[test]
fn append_to_a_missing_key_works_as_set() {
    let mut d = db();
    assert_eq!(d.append("k", "hola").unwrap(), SuccessQuery::Integer(4));
    assert_eq!(d.get("k").unwrap(), SuccessQuery::String("hola".to_string()));
    assert_eq!(d.append("k", "adios").unwrap(), SuccessQuery::Integer(9));
    assert_eq!(d.get("k").unwrap(), SuccessQuery::String("holaadios".to_string()));
}

#[test]
fn mget_after_mset_gives_the_last_value_of_each_key() {
    let mut d = db();
    d.mset(vec!["a", "1", "b", "2", "a", "3"]).unwrap();
    assert_eq!(text(d.mget(vec!["a", "b", "c"])), "3 2 (Nil) ");
}

#[test]
fn sort_orders_numbers_up_and_down() {
    let mut d = db();
    d.rpush("l", vec!["3", "-1", "10", "3"]).unwrap();
    assert_eq!(text(d.sort("l", SortFlags::WithoutFlags)), "-1 3 3 10 ");
    assert_eq!(text(d.sort("l", SortFlags::Desc)), "10 3 3 -1 ");
}

#[test]
fn sort_alpha_orders_lexicographically() {
    let mut d = db();
    d.rpush("l", vec!["pear", "apple", "fig"]).unwrap();
    assert_eq!(text(d.sort("l", SortFlags::Alpha)), "apple fig pear ");
}

#[test]
fn sort_limit_takes_a_window() {
    let mut d = db();
    d.rpush("l", vec!["5", "4", "3", "2", "1"]).unwrap();
    assert_eq!(text(d.sort("l", SortFlags::Limit(1, 2))), "2 3 ");
}

#[test]
fn sort_of_words_fails_with_sort_parse_error() {
    let mut d = db();
    d.rpush("l", vec!["a", "1"]).unwrap();
    assert_eq!(d.sort("l", SortFlags::WithoutFlags).unwrap_err(), DataBaseError::SortParseError);
}

#[test]
fn sort_by_external_weights() {
    let mut d = db();
    d.rpush("l", vec!["1", "2", "3"]).unwrap();
    d.set("w_1", "30").unwrap();
    d.set("w_2", "10").unwrap();
    d.set("w_3", "20").unwrap();
    assert_eq!(text(d.sort("l", SortFlags::By("w_*"))), "2 3 1 ");
}

#[test]
fn keys_lists_the_matching_keys() {
    let mut d = db();
    d.set("firstname", "alex").unwrap();
    d.set("lastname", "arbieto").unwrap();
    d.set("age", "22").unwrap();
    match d.keys("*name").unwrap() {
        SuccessQuery::List(l) => {
            let mut names: Vec<String> = l.iter().map(|q| q.to_string()).collect();
            names.sort();
            assert_eq!(names, vec!["firstname".to_string(), "lastname".to_string()]);
        }
        other => panic!("unexpected {:?}", other),
    }
}

// Each error of the database.

#[test]
fn errors_of_the_database() {
    let mut d = db();
    d.rpush("l", vec!["a"]).unwrap();
    d.set("s", "x").unwrap();
    d.sadd("m", vec!["a"]).unwrap();
    assert_eq!(d.get("l").unwrap_err(), DataBaseError::NotAString);
    assert_eq!(d.rename("missing", "x").unwrap_err(), DataBaseError::NonExistentKey);
    assert_eq!(d.incrby("s", 1).unwrap_err(), DataBaseError::NotAnInteger);
    assert_eq!(d.copy("s", "l").unwrap_err(), DataBaseError::KeyAlredyExist);
    assert_eq!(d.sismember("s", "a").unwrap_err(), DataBaseError::NotASet);
    assert_eq!(d.llen("s").unwrap_err(), DataBaseError::NotAList);
    assert_eq!(d.lset("l", 5, "x").unwrap_err(), DataBaseError::IndexOutOfRange);
    d.rpush("n", vec!["1", "2"]).unwrap();
    d.set("w_1", "x").unwrap();
    d.set("w_2", "1").unwrap();
    assert_eq!(d.sort("n", SortFlags::By("w_*")).unwrap_err(), DataBaseError::SortByParseError);
    assert_eq!(
        DataBaseError::NonExistentConfigOption.to_string(),
        "Non-existent config option"
    );
}

// The texts of replies.

#[test]
fn reply_texts() {
    assert_eq!(SuccessQuery::Success.to_string(), "Ok");
    assert_eq!(SuccessQuery::Boolean(true).to_string(), "(integer) 1");
    assert_eq!(SuccessQuery::Integer(-12).to_string(), "(integer) -12");
    assert_eq!(SuccessQuery::Nil.to_string(), "(Nil)");
    assert_eq!(SuccessQuery::List(vec![]).to_string(), "(empty list or set)");
    assert_eq!(
        SuccessQuery::List(vec![SuccessQuery::String("a".to_string()), SuccessQuery::Integer(2)])
            .to_string(),
        "a (integer) 2 "
    );
    assert_eq!(DataBaseError::NotAList.to_string(), "Value isn't a List");
}

// Serialization and the dump file.

#[test]
fn unserialize_undoes_serialize() {
    let values = vec![
        StorageValue::String("hola".to_string()),
        StorageValue::List(vec!["a".to_string(), "b".to_string(), "a".to_string()]),
        StorageValue::StringSet(vec!["x".to_string(), "y".to_string()]),
    ];
    for v in values {
        let s = v.serialize();
        let back = StorageValue::unserialize(&s).unwrap();
        assert_eq!(back.serialize(), s);
        assert_eq!(back.get_type(), v.get_type());
        assert_eq!(back.to_string(), v.to_string());
    }
    assert_eq!(StorageValue::List(vec!["a".to_string(), "b".to_string()]).serialize(), "List a b ");
}

#[test]
fn unserialize_of_an_unknown_kind_fails() {
    assert_eq!(StorageValue::unserialize("Hash a b").unwrap_err(), StorageValueError::NonExisten);
    assert_eq!(StorageValue::unserialize("").unwrap_err(), StorageValueError::NonExisten);
    assert_eq!(StorageValue::unserialize("String a b").unwrap_err(), StorageValueError::NonExisten);
}

#[test]
fn a_set_read_back_keeps_each_member_once() {
    let v = StorageValue::unserialize("Set a b a").unwrap();
    assert_eq!(v.to_string(), "a b ");
}

#[test]
fn dump_text_lists_expiry_times_then_values() {
    let mut d = db();
    d.set("k", "v").unwrap();
    d.rpush("l", vec!["a", "b"]).unwrap();
    d.expireat("k", 99999999999).unwrap();
    let t = d.dump_text();
    let lines: Vec<&str> = t.lines().collect();
    assert_eq!(lines[0], "TTL Key:k,Ttl:99999999999;");
    let mut rest: Vec<&str> = lines[1..].to_vec();
    rest.sort();
    assert_eq!(rest, vec!["Key:k,String v", "Key:l,List a b "]);
}

#[test]
fn load_after_dump_gives_back_the_database() {
    let mut d = db();
    d.set("k", "v").unwrap();
    d.rpush("l", vec!["a", "b"]).unwrap();
    d.sadd("s", vec!["x", "y"]).unwrap();
    d.expire("k", 1000).unwrap();
    d.set("gone", "soon").unwrap();
    let t = d.dump_text();
    let lines: Vec<&str> = t.lines().collect();
    let mut e = db();
    e.load(lines);
    assert_eq!(e.get("k").unwrap(), SuccessQuery::String("v".to_string()));
    assert_eq!(text(e.lrange("l", 0, -1)), "a b ");
    assert_eq!(e.scard("s").unwrap(), SuccessQuery::Integer(2));
    assert_eq!(e.dbsize().unwrap(), SuccessQuery::Integer(4));
    assert_eq!(e.ttl("gone").unwrap(), SuccessQuery::Integer(-1));
    match e.ttl("k").unwrap() {
        SuccessQuery::Integer(n) => assert!(998 <= n && n <= 1000),
        other => panic!("unexpected {:?}", other),
    }
}

#[test]
fn load_drops_a_key_whose_time_has_passed() {
    let mut e = db();
    e.load(vec!["TTL Key:k,Ttl:5;", "Key:k,String v", "Key:j,List a "]);
    assert_eq!(e.exists_key("k").unwrap(), SuccessQuery::Boolean(false));
    assert_eq!(text(e.lrange("j", 0, -1)), "a ");
}

// The glob patterns of `keys` (through the regular-expression crate).

#[test]
fn glob_patterns() {
    assert_eq!(glob_to_regex("h?llo*"), "^h.llo.*$");
    assert!(matcher("hello", "h?llo"));
    assert!(matcher("hallo", "h?llo"));
    assert!(!matcher("hllo", "h?llo"));
    assert!(matcher("hllo", "h*llo"));
    assert!(matcher("heeeello", "h*llo"));
    assert!(matcher("hello", "h[ae]llo"));
    assert!(!matcher("hillo", "h[ae]llo"));
    assert_eq!(glob_to_regex("h{ae}llo"), "^h[ae]llo$");
    assert!(matcher("hello", "h{ae}llo"));
    assert!(matcher("hallo", "h{ae}llo"));
    assert!(!matcher("hillo", "h{ae}llo"));
    assert!(matcher("hallo", "h{^e}llo"));
    assert!(matcher("hbllo", "h{^e}llo"));
    assert!(!matcher("hello", "h{^e}llo"));
    assert!(matcher("hbllo", "h{a-b}llo"));
    assert!(!matcher("hillo", "h{a-b}llo"));
    assert!(!matcher("ahello", "hello"));
    assert!(!matcher("anything", "("));
}

// The configuration.

#[test]
fn config_get_after_set_gives_the_new_value() {
    let mut c = conf();
    assert_eq!(c.set_config("timeout", "30").unwrap(), SuccessServerRequest::Success);
    assert_eq!(c.time_out(), 30);
    assert_eq!(c.get_config("timeout").unwrap().to_string(), "timeout: 30 ");
}

#[test]
fn errors_of_the_configuration() {
    let mut c = conf();
    assert_eq!(c.set_config("verbose", "x").unwrap_err(), ServerError::NotAnInteger);
    assert_eq!(
        c.set_config("port", "9000").unwrap_err(),
        ServerError::NoSeteableOption("port".to_string())
    );
    assert_eq!(c.set_config("nothing", "1").unwrap_err(), ServerError::NonExistentConfigOption);
    assert_eq!(c.get_config("zz*").unwrap_err(), ServerError::NonExistentConfigOption);
    assert_eq!(c.port(), 8888);
    assert_eq!(c.addr(), "0.0.0.0:8888");
    assert_eq!(c.dbfilename(), "dump.txt");
}

#[test]
fn a_bad_configuration_line_is_refused() {
    assert!(ServerConf::new(vec!["port 8888"]).is_err());
}

// Requests.

#[test]
fn requests_are_read_from_text() {
    match Request::new("set key value", false) {
        Request::DataBase(q) => assert_eq!(q.to_string(), "Set - Key: key - Value: value"),
        _ => panic!("not a query"),
    }
    assert!(matches!(Request::new("close", false), Request::CloseClient));
    assert!(matches!(Request::new("info", false), Request::Server(_)));
    assert!(matches!(Request::new("subscribe a b", false), Request::Suscriber(_)));
    assert!(matches!(Request::new("publish a hi", false), Request::Publisher(_)));
}

#[test]
fn refused_requests() {
    assert!(matches!(
        Request::new("incrby k x", false),
        Request::Invalid(_, RequestError::ParseError)
    ));
    assert!(matches!(
        Request::new("get k", true),
        Request::Invalid(_, RequestError::InvalidCommandSubscribeMode)
    ));
    assert!(matches!(
        Request::new("frobnicate", false),
        Request::Invalid(_, RequestError::UnknownRequest)
    ));
    assert!(matches!(
        Request::new("mset a 1 b", false),
        Request::Invalid(_, RequestError::InvalidNumberOfArguments)
    ));
}

#[test]
fn a_query_runs_on_the_database() {
    let mut d = db();
    match Request::new("append key hola", false) {
        Request::DataBase(q) => {
            assert!(q.can_run(&d));
            assert_eq!(q.exec_query(&mut d), Reponse::Valid("(integer) 4".to_string()));
        }
        _ => panic!("not a query"),
    }
    let q = Query::Get("key");
    assert_eq!(q.exec_query(&mut d), Reponse::Valid("hola".to_string()));
    let q = Query::Llen("key");
    assert_eq!(q.exec_query(&mut d), Reponse::Error("Value isn't a List".to_string()));
}

#[test]
fn an_odd_mset_cannot_run() {
    let d = db();
    let q = Query::Mset(vec!["a", "1", "b"]);
    assert!(!q.can_run(&d));
}

// A client's session.

#[test]
fn a_session_runs_requests_and_closes() {
    let mut d = db();
    let mut ch = Channels::new();
    let mut c = conf();
    let mut s = Session::new(7);
    let (tx, _rx) = channel();
    let r = s.handle(Request::new("set key 1", false), &mut d, &mut ch, &mut c, 1, 0, 1, tx.clone(), tx.clone());
    assert_eq!(r, (Reponse::Valid("Ok".to_string()), true));
    let r = s.handle(Request::new("get key", false), &mut d, &mut ch, &mut c, 1, 0, 1, tx.clone(), tx.clone());
    assert_eq!(r, (Reponse::Valid("1".to_string()), true));
    let r = s.handle(Request::new("nonsense here", false), &mut d, &mut ch, &mut c, 1, 0, 1, tx.clone(), tx.clone());
    assert!(matches!(r, (Reponse::Error(_), true)));
    let r = s.handle(Request::new("close", false), &mut d, &mut ch, &mut c, 1, 0, 1, tx.clone(), tx);
    assert_eq!(r, (Reponse::Valid("OK".to_string()), false));
}

#[test]
fn a_session_subscribes_and_a_publisher_reaches_it() {
    let mut d = db();
    let mut ch = Channels::new();
    let mut c = conf();
    let mut s = Session::new(3);
    let (tx, rx) = channel();
    let r = s.handle(Request::new("subscribe news", false), &mut d, &mut ch, &mut c, 1, 0, 1, tx.clone(), tx.clone());
    assert_eq!(r, (Reponse::Valid("subscribe news 1 ".to_string()), true));
    assert!(s.subscription_mode());
    assert_eq!(ch.subcriptors_number("news"), 1);
    let r = s.handle(Request::new("publish news hi", false), &mut d, &mut ch, &mut c, 1, 0, 1, tx.clone(), tx.clone());
    assert_eq!(r, (Reponse::Valid("1".to_string()), true));
    assert_eq!(rx.try_recv().unwrap(), "news hi ");
    s.close(&mut ch);
    assert_eq!(ch.subcriptors_number("news"), 0);
}

#[test]
fn unsubscribe_undoes_subscribe() {
    let mut ch = Channels::new();
    let (tx, _rx) = channel();
    ch.subscribe("c", tx.clone(), 1);
    ch.subscribe("c", tx, 2);
    assert_eq!(ch.subcriptors_number("c"), 2);
    ch.unsubscribe("c", 2);
    assert_eq!(ch.subcriptors_number("c"), 1);
}

#[test]
fn the_monitor_gets_the_requests_of_clients() {
    let mut ch = Channels::new();
    let rx = ch.add_monitor();
    ch.send_monitor(4, "get k");
    assert_eq!(rx.try_recv().unwrap(), "Client: 4 get k");
}

#[test]
fn the_logger_writes_each_message_on_a_line() {
    let (tx, rx) = channel();
    let logger = Logger::new("log.txt", rx);
    assert_eq!(logger.file_path(), "log.txt");
    tx.send("Message".to_string()).unwrap();
    assert_eq!(logger.next_line(), Some("Message\n".to_string()));
    drop(tx);
    assert_eq!(logger.next_line(), None);
    assert_eq!(log_line("a"), "a\n");
}

#[test]
fn info_describes_the_server() {
    let mut d = db();
    let mut ch = Channels::new();
    let mut c = conf();
    let mut s = Session::new(1);
    let (tx, _rx) = channel();
    let r = s.handle(Request::new("info", false), &mut d, &mut ch, &mut c, 42, 90000, 3, tx.clone(), tx);
    assert_eq!(
        r.0,
        Reponse::Valid(
            "process_id:42\r\ntcp_port:8888\r\nuptime_in_seconds:90000\r\nuptime_in_days:1\r\nclients:3"
                .to_string()
        )
    );
}

// The web front end.

#[test]
fn the_command_of_a_posted_form() {
    let req = "POST / HTTP/1.1\r\nHost: x\r\n\r\ntodo=set+key+1";
    assert_eq!(get_command(req), "o=set key 1");
    let req = "POST / HTTP/1.1\r\n\r\ncmd=x tocommand=get+key";
    assert_eq!(get_command(req), "ommand=get key");
}

#[test]
fn the_answer_lists_the_records() {
    let records = vec![("get k".to_string(), "1".to_string())];
    assert_eq!(
        build_answer(&records),
        "</div><div id=\"answer\"><ol><li>Request: get k Reponse: 1</li></ol>"
    );
    assert_eq!(build_answer(&vec![]), "</div><div id=\"answer\"><ol></ol>");
}

#[test]
fn decrby_of_the_smallest_number_from_a_negative_number() {
    let mut d = db();
    d.set("n", "-1").unwrap();
    assert_eq!(d.decrby("n", i32::MIN).unwrap(), SuccessQuery::Integer(i32::MAX));
    assert!(Query::Decrby("missing", i32::MIN).can_run(&d));
    assert_eq!(d.decrby("missing", i32::MIN), Err(DataBaseError::NotAnInteger));
    assert_eq!(d.get("missing").unwrap(), SuccessQuery::String("0".to_string()));
}

#[test]
fn incrby_past_the_largest_number_is_not_an_integer() {
    let mut d = db();
    d.set("n", "2147483647").unwrap();
    assert_eq!(d.incrby("n", 1), Err(DataBaseError::NotAnInteger));
    assert_eq!(d.get("n").unwrap(), SuccessQuery::String("2147483647".to_string()));
    assert_eq!(d.incrby("n", -1).unwrap(), SuccessQuery::Integer(2147483646));
}

#[test]
fn a_failing_getdel_keeps_the_key_and_its_expiry_time() {
    let mut d = db();
    d.set("KEY", "VALUE").unwrap();
    d.lpush("L", vec!["x"]).unwrap();
    d.expire("L", 100).unwrap();
    assert_eq!(d.getdel("KEY").unwrap(), SuccessQuery::String("VALUE".to_string()));
    assert_eq!(d.get("KEY").unwrap(), SuccessQuery::Nil);
    assert_eq!(d.getdel("NOKEY").unwrap(), SuccessQuery::Nil);
    assert_eq!(d.getdel("L"), Err(DataBaseError::NotAString));
    assert_eq!(text(d.lrange("L", 0, -1)), "x ");
    match d.ttl("L").unwrap() {
        SuccessQuery::Integer(n) => assert!(0 <= n && n <= 100),
        other => panic!("unexpected {:?}", other),
    }
}

#[test]
fn expireat_at_the_current_second_deletes_the_key() {
    let mut d = db();
    d.set("k", "v").unwrap();
    let now = std::time::SystemTime::now()
        .duration_since(std::time::UNIX_EPOCH)
        .unwrap()
        .as_secs() as i64;
    assert_eq!(d.expireat("k", now).unwrap(), SuccessQuery::Boolean(true));
    assert_eq!(d.exists_key("k").unwrap(), SuccessQuery::Boolean(false));
    assert_eq!(d.get("k").unwrap(), SuccessQuery::Nil);
    d.set("later", "v").unwrap();
    assert_eq!(d.expireat("later", now + 1000).unwrap(), SuccessQuery::Boolean(true));
    assert_eq!(d.exists_key("later").unwrap(), SuccessQuery::Boolean(true));
}

#[test]
fn srem_request_takes_the_members_after_the_key() {
    match Request::new("srem s a b", false) {
        Request::DataBase(Query::Srem(k, m)) => {
            assert_eq!(k, "s");
            assert_eq!(m, vec!["a", "b"]);
        }
        _ => panic!("not a srem request"),
    }
}

#[test]
fn sort_is_refused_in_subscription_mode() {
    assert!(matches!(
        Request::new("sort l", true),
        Request::Invalid(_, RequestError::InvalidCommandSubscribeMode)
    ));
    assert!(matches!(
        Request::new("sort l desc limit 0 2", true),
        Request::Invalid(_, RequestError::InvalidCommandSubscribeMode)
    ));
    assert!(matches!(Request::new("subscribe c", true), Request::Suscriber(_)));
}

#[test]
fn keys_with_brace_patterns() {
    let mut d = db();
    for k in ["hello", "hallo", "hillo", "hbllo"] {
        d.set(k, "v").unwrap();
    }
    let sorted = |r: Result<SuccessQuery, DataBaseError>| match r.unwrap() {
        SuccessQuery::List(l) => {
            let mut v: Vec<String> = l.iter().map(|q| q.to_string()).collect();
            v.sort();
            v
        }
        other => panic!("unexpected {:?}", other),
    };
    assert_eq!(sorted(d.keys("h{ae}llo")), vec!["hallo", "hello"]);
    assert_eq!(sorted(d.keys("h{^e}llo")), vec!["hallo", "hbllo", "hillo"]);
    assert_eq!(sorted(d.keys("h{a-b}llo")), vec!["hallo", "hbllo"]);
}

#[test]
fn a_monitor_sees_the_requests_and_the_logger_the_answers() {
    let mut d = db();
    let mut ch = Channels::new();
    let mut c = conf();
    let (log_tx, log_rx) = channel();
    ch.add_logger(log_tx);
    let mut watcher = Session::new(1);
    let (mon_tx, mon_rx) = channel();
    let (sub_tx, _sub_rx) = channel();
    watcher.handle(Request::new("monitor", false), &mut d, &mut ch, &mut c, 1, 0, 2, mon_tx, sub_tx.clone());
    let mut client = Session::new(2);
    let (tx, _rx) = channel();
    client.handle(Request::new("set k v", false), &mut d, &mut ch, &mut c, 1, 0, 2, tx.clone(), tx);
    assert_eq!(mon_rx.try_recv().unwrap(), "Client: 2 Set - Key: k - Value: v");
    let logged: Vec<String> = log_rx.try_iter().collect();
    assert!(logged.contains(&"2  Set - Key: k - Value: v".to_string()));
    assert!(logged.contains(&"2  Ok".to_string()));
    assert_eq!(rust_redis::pubsub::subscription_line("hi"), "message hi ");
    assert_eq!(rust_redis::session::read_timeout(5, false), Some(5));
    assert_eq!(rust_redis::session::read_timeout(5, true), None);
    assert_eq!(rust_redis::session::read_timeout(0, false), None);
}

fn unix_secs() -> u64 {
    std::time::SystemTime::now()
        .duration_since(std::time::UNIX_EPOCH)
        .unwrap()
        .as_secs()
}

fn spin_for_millis(ms: u64) {
    let start = std::time::Instant::now();
    while start.elapsed() < std::time::Duration::from_millis(ms) {
        std::hint::spin_loop();
    }
}

#[test]
fn ttl_supervisor_run_supervises_two_keys() {
    let mut d = db();
    d.append("KEY_A", "VALUE_A").unwrap();
    d.append("KEY_B", "VALUE_B").unwrap();
    // Start just after the clock turns to a new second.
    let s0 = unix_secs();
    while unix_secs() == s0 {
        std::hint::spin_loop();
    }
    let now = unix_secs();
    assert_eq!(d.exists_key("KEY_A").unwrap(), SuccessQuery::Boolean(true));
    assert_eq!(d.exists_key("KEY_B").unwrap(), SuccessQuery::Boolean(true));
    assert!(d.ttl_supervisor_run(MessageTtl::Expire(KeyTtl::new("KEY_A", now + 1))).is_none());
    assert!(d.ttl_supervisor_run(MessageTtl::Expire(KeyTtl::new("KEY_B", now + 3))).is_none());
    spin_for_millis(1500);
    assert_eq!(d.exists_key("KEY_A").unwrap(), SuccessQuery::Boolean(false));
    assert_eq!(d.exists_key("KEY_B").unwrap(), SuccessQuery::Boolean(true));
    spin_for_millis(2000);
    assert_eq!(d.exists_key("KEY_B").unwrap(), SuccessQuery::Boolean(false));
}

#[test]
fn sort_by_keeps_the_order_of_equal_weights() {
    let mut d = db();
    d.rpush("l", vec!["a", "b", "c", "d"]).unwrap();
    d.set("w_a", "2").unwrap();
    d.set("w_b", "1").unwrap();
    d.set("w_c", "2").unwrap();
    assert_eq!(text(d.sort("l", SortFlags::By("w_*"))), "d b a c ");
    let mut items = vec!["c".to_string(), "a".to_string(), "b".to_string()];
    let v = d.sort_by(&mut items, "w_*").unwrap();
    assert_eq!(v, vec!["b".to_string(), "c".to_string(), "a".to_string()]);
}

#[test]
fn expire_on_one_key_leaves_the_others() {
    let mut d = db();
    d.set("a", "1").unwrap();
    d.set("b", "2").unwrap();
    d.expire("b", 100).unwrap();
    d.expire("a", 50).unwrap();
    assert_eq!(d.get("b").unwrap(), SuccessQuery::String("2".to_string()));
    match d.ttl("b").unwrap() {
        SuccessQuery::Integer(n) => assert!(90 <= n && n < 100),
        other => panic!("unexpected {:?}", other),
    }
    assert_eq!(d.exists_key("a").unwrap(), SuccessQuery::Boolean(true));
}
