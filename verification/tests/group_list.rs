use rust_redis::database::Database;
use rust_redis::databasehelper::{DataBaseError, SortFlags, StorageValue, SuccessQuery};

fn entry(db: &Database, key: &str) -> Option<(StorageValue, u64)> {
    db.dictionary().get(key).map(|s| (s.value.duplicate(), s.last_access))
}


const KEY: &str = "KEY";
const VALUE: &str = "VALUE";

const VALUEA: &str = "ValueA";
const VALUEB: &str = "ValueB";
const VALUEC: &str = "ValueC";
const VALUED: &str = "ValueD";

const DB_DUMP: &str = "db_dump_path.txt";

fn create_database() -> Database {
    let db = Database::new(DB_DUMP.to_string());
    db
}

fn database_with_a_list() -> Database {
    let mut database = create_database();

    database
        .lpush(KEY, [VALUEA, VALUEB, VALUEC, VALUED].to_vec())
        .unwrap();

    database
}

fn database_with_a_three_repeated_values() -> Database {
    let mut database = create_database();

    database
        .lpush(KEY, [VALUEA, VALUEA, VALUEC, VALUEA].to_vec())
        .unwrap();

    database
}

fn database_with_a_string() -> Database {
    let mut database = create_database();

    database.append(KEY, VALUE).unwrap();

    database
}



    #[test]
    fn test_llen_on_a_non_existent_key_gets_len_zero() {
        let mut database = create_database();

        let result = database.llen(KEY);

        assert_eq!(result.unwrap(), SuccessQuery::Integer(0));
    }

    #[test]
    fn test_llen_on_a_list_with_one_value() {
        let mut database = create_database();

        database.lpush(KEY, [VALUE].to_vec()).unwrap();

        let result = database.llen(KEY);

        assert_eq!(result.unwrap(), SuccessQuery::Integer(1));
    }

    #[test]
    fn test_llen_on_a_list_with_more_than_one_value() {
        let mut database = database_with_a_list();

        let result = database.llen(KEY).unwrap();

        assert_eq!(result, SuccessQuery::Integer(4));
    }

    #[test]
    fn test_llen_on_an_existent_key_that_isnt_a_list() {
        let mut database = database_with_a_string();

        let result = database.llen(KEY);

        assert_eq!(result.unwrap_err(), DataBaseError::NotAList);
    }


    #[test]
    fn test_lindex_on_a_non_existent_key() {
        let mut database = create_database();

        let result = database.lindex(KEY, 10);

        assert_eq!(result.unwrap(), SuccessQuery::Nil);
    }

    #[test]
    fn test_lindex_with_a_list_with_one_value_on_idex_zero() {
        let mut database = create_database();

        database.lpush(KEY, [VALUE].to_vec()).unwrap();

        if let SuccessQuery::String(value) = database.lindex(KEY, 0).unwrap() {
            assert_eq!(value, VALUE);
        }
    }

    #[test]
    fn test_lindex_with_more_than_one_value() {
        let mut database = database_with_a_list();

        if let SuccessQuery::String(value) = database.lindex(KEY, 3).unwrap() {
            assert_eq!(value, VALUEA);
        }
    }

    #[test]
    fn test_lindex_with_more_than_one_value_with_a_negative_index() {
        let mut database = database_with_a_list();

        if let SuccessQuery::String(value) = database.lindex(KEY, -1).unwrap() {
            assert_eq!(value, VALUEA);
        }
    }

    #[test]
    fn test_lindex_on_a_reverse_out_of_bound() {
        let mut database = database_with_a_list();

        let result = database.lindex(KEY, -5);

        assert_eq!(result.unwrap(), SuccessQuery::Nil);
    }

    #[test]
    fn test_lindex_on_an_out_of_bound() {
        let mut database = database_with_a_list();

        let result = database.lindex(KEY, 100);

        assert_eq!(result.unwrap(), SuccessQuery::Nil);
    }


    #[test]
    fn test_lpop_on_a_non_existent_key() {
        let mut database = create_database();

        let result = database.lpop(KEY).unwrap();

        assert_eq!(result, SuccessQuery::Nil);
    }

    #[test]
    fn test_lpop_with_a_list_with_one_value_on_idex_zero() {
        let mut database = create_database();

        database.lpush(KEY, [VALUE].to_vec()).unwrap();

        if let SuccessQuery::String(val) = database.lpop(KEY).unwrap() {
            assert_eq!(val.to_string(), VALUE);
        }

        let result = database.llen(KEY).unwrap();
        assert_eq!(result, SuccessQuery::Integer(0));
    }

    #[test]
    fn test_lpop_with_a_list_with_more_than_one_value() {
        let mut database = database_with_a_list();

        if let SuccessQuery::String(val) = database.lpop(KEY).unwrap() {
            assert_eq!(val.to_string(), VALUED);
        }

        if let (StorageValue::List(list), _) = entry(&database, KEY).unwrap() {
            assert_eq!(list[0], VALUEC);
        }
    }

    #[test]
    fn test_lpop_on_an_empty_list() {
        let mut database = create_database();

        database.lpush(KEY, [VALUE].to_vec()).unwrap();

        if let SuccessQuery::String(val) = database.lpop(KEY).unwrap() {
            assert_eq!(val.to_string(), VALUE);
        }

        let value = database.lpop(KEY).unwrap();
        assert_eq!(value, SuccessQuery::Nil);


        if let (StorageValue::List(list), _) = entry(&database, KEY).unwrap() {
            assert!(list.is_empty());
        }
    }



    #[test]
    fn test_lpush_on_a_non_existent_key_creates_a_list_with_new_value() {
        let mut database = create_database();

        let result = database.lpush(KEY, [VALUE].to_vec()).unwrap();
        assert_eq!(result, SuccessQuery::Integer(1));


        if let (StorageValue::List(list), _) = entry(&database, KEY).unwrap() {
            assert_eq!(list.len(), 1);
            assert_eq!(list[0], VALUE);
        }
    }

    #[test]
    fn test_lpush_on_an_existent_key_is_valid() {
        let mut database = create_database();

        database.lpush(KEY, [VALUEA].to_vec()).unwrap();

        let result = database.lpush(KEY, [VALUEB].to_vec()).unwrap();

        assert_eq!(result, SuccessQuery::Integer(2));


        if let (StorageValue::List(list), _) = entry(&database, KEY).unwrap() {
            assert_eq!(list.len(), 2);
            assert_eq!(list[1], VALUEA);
            assert_eq!(list[0], VALUEB);
        }
    }

    #[test]
    fn test_lpush_on_an_existent_key_that_isnt_a_list() {
        let mut database = create_database();

        database.append(KEY, VALUE).unwrap();

        let result = database.lpush(KEY, [VALUE].to_vec()).unwrap_err();

        assert_eq!(result, DataBaseError::NotAList);
    }

    #[test]
    fn test_lpush_more_than_one_value_with_a_key_non_existent() {
        let mut database = create_database();

        let result = database
            .lpush(KEY, [VALUEA, VALUEB, VALUEC].to_vec())
            .unwrap();

        assert_eq!(result, SuccessQuery::Integer(3));


        if let (StorageValue::List(list), _) = entry(&database, KEY).unwrap() {
            assert_eq!(list.len(), 3);
            assert_eq!(list[2], VALUEA);
            assert_eq!(list[1], VALUEB);
            assert_eq!(list[0], VALUEC);
        }
    }

    #[test]
    fn test_lpush_more_than_one_value_with_a_key_with_list() {
        let mut database = create_database();

        database.lpush(KEY, [VALUEA].to_vec()).unwrap();
        let result = database.lpush(KEY, [VALUEB, VALUEC].to_vec()).unwrap();

        assert_eq!(result, SuccessQuery::Integer(3));


        if let (StorageValue::List(list), _) = entry(&database, KEY).unwrap() {
            assert_eq!(list.len(), 3);
            assert_eq!(list[2], VALUEA);
            assert_eq!(list[1], VALUEB);
            assert_eq!(list[0], VALUEC);
        }
    }


    #[test]
    fn test_lrange_on_zero_zero_range() {
        let mut database = create_database();

        database.lpush(KEY, [VALUE].to_vec()).unwrap();

        if let SuccessQuery::List(list) = database.lrange(KEY, 0, 0).unwrap() {
            assert_eq!(list[0].to_string(), VALUE);
        }
    }

    #[test]
    fn test_lrange_on_zero_two_range_applied_to_a_list_with_four_elements() {
        let mut database = database_with_a_list();

        if let SuccessQuery::List(list) = database.lrange(KEY, 0, 2).unwrap() {
            let list: Vec<String> = list.iter().map(|x| x.to_string()).collect();
            let second_list: Vec<&str> = vec![VALUED, VALUEC, VALUEB];
            let pair_list: Vec<(&String, &str)> = list.iter().zip(second_list).collect();
            pair_list.iter().for_each(|x| {
                assert_eq!(x.0, x.1);
            })
        }
    }

    #[test]
    fn test_lrange_on_one_three_range_applied_to_a_list_with_four_elements() {
        let mut database = database_with_a_list();

        if let SuccessQuery::List(list) = database.lrange(KEY, 1, 3).unwrap() {
            let list: Vec<String> = list.iter().map(|x| x.to_string()).collect();
            let second_list: Vec<&str> = vec![VALUEC, VALUEB, VALUEA];
            let pair_list: Vec<(&String, &str)> = list.iter().zip(second_list).collect();
            pair_list.iter().for_each(|x| {
                assert_eq!(x.0, x.1);
            })
        }
    }

    #[test]
    fn test_lrange_on_a_superior_out_of_bound() {
        let mut database = database_with_a_list();

        let result = database.lrange(KEY, 1, 5).unwrap();

        assert_eq!(result, SuccessQuery::List(Vec::new()));
    }

    #[test]
    fn test_lrange_on_an_inferior_out_of_bound() {
        let mut database = database_with_a_list();

        let result = database.lrange(KEY, -10, 3).unwrap();

        assert_eq!(result, SuccessQuery::List(Vec::new()));
    }

    #[test]
    fn test_lrange_on_an_two_way_out_of_bound() {
        let mut database = database_with_a_list();

        let result = database.lrange(KEY, -10, 10).unwrap();

        assert_eq!(result, SuccessQuery::List(Vec::new()));
    }

    #[test]
    fn test_lrange_with_valid_negative_bounds() {
        let mut database = database_with_a_list();

        if let SuccessQuery::List(list) = database.lrange(KEY, -3, -1).unwrap() {
            let list: Vec<String> = list.iter().map(|x| x.to_string()).collect();
            let second_list: Vec<&str> = vec![VALUEC, VALUEB, VALUEA];
            let pair_list: Vec<(&String, &str)> = list.iter().zip(second_list).collect();
            pair_list.iter().for_each(|x| {
                assert_eq!(x.0, x.1);
            })
        }
    }


    #[test]
    fn test_lrem_2_on_a_list() {
        let mut database = database_with_a_three_repeated_values();

        let result = database.lrem(KEY, 2, VALUEA);

        assert_eq!(SuccessQuery::Integer(2), result.unwrap());


        if let Some((StorageValue::List(list), _)) = entry(&database, KEY) {
            assert_eq!(list[0], VALUEC);
            assert_eq!(list[1], VALUEA);
        }
    }

    #[test]
    fn test_lrem_negative_2_on_a_list() {
        let mut database = database_with_a_three_repeated_values();

        let result = database.lrem(KEY, -2, VALUEA);

        assert_eq!(SuccessQuery::Integer(2), result.unwrap());


        if let (StorageValue::List(list), _) = entry(&database, KEY).unwrap() {
            assert_eq!(list[0], VALUEA);
            assert_eq!(list[1], VALUEC);
        }
    }

    #[test]
    fn test_lrem_zero_on_a_list() {
        let mut database = database_with_a_three_repeated_values();

        let result = database.lrem(KEY, 0, VALUEA);


        assert_eq!(SuccessQuery::Integer(1), result.unwrap());
        if let (StorageValue::List(list), _) = entry(&database, KEY).unwrap() {
            assert_eq!(list[0], VALUEC);
        }
    }

    #[test]
    fn test_lset_with_a_non_existen_key() {
        let mut database = create_database();

        let result = database.lset(KEY, 0, &VALUEA).unwrap_err();

        assert_eq!(result, DataBaseError::NonExistentKey);
    }

    #[test]
    fn test_lset_with_a_value_that_isn_a_list() {
        let mut database = database_with_a_string();

        let result = database.lset(KEY, 0, &VALUEA).unwrap_err();

        assert_eq!(result, DataBaseError::NotAList);
    }

    #[test]
    fn test_lset_on_a_list_with_values() {
        let mut database = database_with_a_list();

        let result = database.lset(KEY, 0, &VALUEA);
        assert_eq!(SuccessQuery::Success, result.unwrap());


        if let (StorageValue::List(list), _) = entry(&database, KEY).unwrap() {
            assert_eq!(list[0], VALUEA);
        }
    }
