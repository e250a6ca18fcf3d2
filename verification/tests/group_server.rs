use rust_redis::database::Database;
use rust_redis::databasehelper::{DataBaseError, SortFlags, StorageValue, SuccessQuery};

fn entry(db: &Database, key: &str) -> Option<(StorageValue, u64)> {
    db.dictionary().get(key).map(|s| (s.value.duplicate(), s.last_access))
}

const KEY1: &str = "key1";
const VALUE1: &str = "value1";
const KEY2: &str = "key2";
const VALUE2: &str = "value2";

const DB_DUMP: &str = "db_dump_path.txt";

fn create_database() -> Database {
    let db = Database::new(DB_DUMP.to_string());
    db
}


    #[test]
    fn flushdb_clear_dictionary() {
        let mut db = create_database();

        db.mset(vec![KEY1, VALUE1, KEY2, VALUE2]).unwrap();
        let r = db.get(KEY1).unwrap();
        assert_eq!(r, SuccessQuery::String(VALUE1.to_owned()));
        let r = db.get(KEY2).unwrap();
        assert_eq!(r, SuccessQuery::String(VALUE2.to_owned()));

        let r = db.flushdb().unwrap();
        assert_eq!(r, SuccessQuery::Success);

                    assert!(db.dictionary().len() == 0);
    }


    #[test]
    fn dbsize_empty_gets_0() {
        let db = create_database();

        let r = db.dbsize().unwrap();
        assert_eq!(r, SuccessQuery::Integer(0));
    }

    #[test]
    fn dbsize_with_one_element_gets_1() {
        let mut db = create_database();
        let _ = db.set(KEY1, VALUE1);
        let r = db.get(KEY1).unwrap();
        assert_eq!(r, SuccessQuery::String(VALUE1.to_owned()));

        let r = db.dbsize().unwrap();
        assert_eq!(r, SuccessQuery::Integer(1));
    }

    #[test]
    fn dbsize_with_two_element_gets_2() {
        let mut db = create_database();
        let _ = db.mset(vec![KEY1, VALUE1, KEY2, VALUE2]);
        let r = db.get(KEY1).unwrap();
        assert_eq!(r, SuccessQuery::String(VALUE1.to_owned()));
        let r = db.get(KEY2).unwrap();
        assert_eq!(r, SuccessQuery::String(VALUE2.to_owned()));

        let r = db.dbsize().unwrap();
        assert_eq!(r, SuccessQuery::Integer(2));
    }
