use rust_redis::database::Database;
use rust_redis::databasehelper::{DataBaseError, SortFlags, StorageValue, SuccessQuery};

fn entry(db: &Database, key: &str) -> Option<(StorageValue, u64)> {
    db.dictionary().get(key).map(|s| (s.value.duplicate(), s.last_access))
}



const KEY: &str = "KEY";
const VALUE: &str = "VALUE";

const DB_DUMP: &str = "db_dump_path.txt";

fn create_database_with_string() -> Database {
    let mut db = Database::new(DB_DUMP.to_string());
    db.set(KEY, VALUE).unwrap();
    db
}

fn create_database() -> Database {
    let db = Database::new(DB_DUMP.to_string());
    db
}



    #[test]
    fn test_append_new_key_return_lenght_of_the_value() {
        let mut database = create_database();

        if let SuccessQuery::Integer(lenght) = database.append(KEY, VALUE).unwrap() {
            assert_eq!(lenght, 5);
        }
    }

    #[test]
    fn test_append_key_with_old_value_return_lenght_of_the_total_value() {
        let mut database = create_database();

        if let SuccessQuery::Integer(lenght) = database.append(KEY, VALUE).unwrap() {
            assert_eq!(lenght, 5);
            if let SuccessQuery::Integer(lenght) = database.append(KEY, VALUE).unwrap() {
                assert_eq!(lenght, 10);
            }
        }
    }



    #[test]
    fn test_get_returns_value_of_key() {
        let mut database = create_database_with_string();

        if let SuccessQuery::String(value) = database.get(KEY).unwrap() {
            assert_eq!(VALUE, value.to_string());
        }
    }

    #[test]
    fn test_get_returns_error_if_the_key_does_not_exist() {
        let mut database = create_database();

        let result = database.get(KEY).unwrap();

        assert_eq!(result, SuccessQuery::Nil);
    }


    #[test]
    fn test_set_returns_ok() {
        let mut database = create_database();

        let result = database.set(KEY, VALUE).unwrap();
        assert_eq!(SuccessQuery::Success, result);

        if let SuccessQuery::String(value) = database.get(KEY).unwrap() {
            assert_eq!(VALUE, value.to_string());
        }
    }


    #[test]
    fn test_getdel_returns_old_value_of_key_and_after_value_of_key_what_not_exists_in_database_is_nul(
    ) {
        let mut database = create_database_with_string();

        if let SuccessQuery::String(value) = database.getdel(KEY).unwrap() {
            assert_eq!(value.to_string(), VALUE);
        }

        let result = database.get(KEY).unwrap();
        assert_eq!(result, SuccessQuery::Nil);
    }

    #[test]
    fn test_getdel_returns_nil_value_if_key_not_exist_in_database() {
        let mut database = create_database();

        let result = database.getdel(KEY).unwrap();
        assert_eq!(result, SuccessQuery::Nil);
    }


    #[test]
    fn test_incrby_returns_lenght_of_the_resulting_value_after_increment() {
        let mut database = create_database();

        database.set(KEY, "1").unwrap();

        let result = database.incrby(KEY, 4).unwrap();

        assert_eq!(result, SuccessQuery::Integer(5));
    }

    #[test]
    fn test_incrby_returns_error_if_the_value_of_key_not_hold_parseable_value_to_number() {
        let mut database = create_database();

        database.set(KEY, "1a").unwrap();

        let result = database.incrby(KEY, 4).unwrap_err();

        assert_eq!(result, DataBaseError::NotAnInteger);
    }


    #[test]
    fn test_decrby_returns_lenght_of_the_resulting_value_after_increment() {
        let mut database = create_database();

        database.set(KEY, "5").unwrap();
        let result = database.decrby(KEY, 4).unwrap();

        assert_eq!(result, SuccessQuery::Integer(1));
    }

    #[test]
    fn test_decrby_returns_error_if_the_value_of_key_not_hold_parseable_value_to_number() {
        let mut database = create_database();

        database.set(KEY, "5a").unwrap();
        let result = database.decrby(KEY, 4).unwrap_err();

        assert_eq!(result, DataBaseError::NotAnInteger);
    }


    #[test]
    fn test_strlen_returns_the_lenght_of_value_key() {
        let mut database = create_database();

        database.set(KEY, VALUE).unwrap();

        if let SuccessQuery::Integer(value) = database.strlen(KEY).unwrap() {
            assert_eq!(value, 5);
        }
    }

    #[test]
    fn test_strlen_returns_zero_if_the_key_not_exists_in_database() {
        let mut database = create_database();

        if let SuccessQuery::Integer(value) = database.strlen(KEY).unwrap() {
            assert_eq!(value, 0);
        }
    }


const KEY_A: &str = "KEY_A";
const VALUE_A: &str = "VALUE_A";

const KEY_B: &str = "KEY_B";
const VALUE_B: &str = "VALUE_B";

const KEY_C: &str = "KEY_C";
const VALUE_C: &str = "VALUE_C";

const KEY_D: &str = "KEY_D";
const VALUE_D: &str = "VALUE_D";

    #[test]
    fn test_mset_set_multiple_key_and_value_ok() {
        let mut database = create_database();

        let vec_key_value = vec![
            KEY_A, VALUE_A, KEY_B, VALUE_B, KEY_C, VALUE_C, KEY_D, VALUE_D,
        ];

        let result = database.mset(vec_key_value).unwrap();
        assert_eq!(result, SuccessQuery::Success);

        let result_get1 = database.get(KEY_A).unwrap();
        let result_get2 = database.get(KEY_B).unwrap();
        let result_get3 = database.get(KEY_C).unwrap();
        let result_get4 = database.get(KEY_D).unwrap();

        assert_eq!(result_get1, SuccessQuery::String(VALUE_A.to_owned()));
        assert_eq!(result_get2, SuccessQuery::String(VALUE_B.to_owned()));
        assert_eq!(result_get3, SuccessQuery::String(VALUE_C.to_owned()));
        assert_eq!(result_get4, SuccessQuery::String(VALUE_D.to_owned()));
    }






    fn create_a_database_with_key_values() -> Database {
        let mut database = create_database();

        database.set(KEY_A, VALUE_A).unwrap();
        database.set(KEY_B, VALUE_B).unwrap();
        database.set(KEY_C, VALUE_C).unwrap();
        database.set(KEY_D, VALUE_D).unwrap();

        database
    }

    #[test]
    fn test_mget_return_all_values_of_keys_if_all_keys_are_in_database() {
        let mut database = create_a_database_with_key_values();

        let vec_keys = vec![KEY_A, KEY_B, KEY_C, KEY_D];

        if let SuccessQuery::List(list) = database.mget(vec_keys).unwrap() {
            assert_eq!(list[0], SuccessQuery::String(VALUE_A.to_owned()));
            assert_eq!(list[1], SuccessQuery::String(VALUE_B.to_owned()));
            assert_eq!(list[2], SuccessQuery::String(VALUE_C.to_owned()));
            assert_eq!(list[3], SuccessQuery::String(VALUE_D.to_owned()));
        }
    }

    #[test]
    fn test_mget_returns_nil_for_some_key_that_no_exists_in_database() {
        let mut database = create_database();

        database.set(KEY_A, VALUE_A).unwrap();
        database.set(KEY_B, VALUE_B).unwrap();

        let vec_keys = vec![KEY_A, KEY_B, KEY_C, KEY_D];

        if let SuccessQuery::List(list) = database.mget(vec_keys).unwrap() {
            assert_eq!(list[0], SuccessQuery::String(VALUE_A.to_owned()));
            assert_eq!(list[1], SuccessQuery::String(VALUE_B.to_owned()));
            assert_eq!(list[2], SuccessQuery::Nil);
            assert_eq!(list[3], SuccessQuery::Nil);
        }
    }
