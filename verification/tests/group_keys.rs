use rust_redis::database::Database;
use rust_redis::databasehelper::{DataBaseError, SortFlags, StorageValue, SuccessQuery};

fn entry(db: &Database, key: &str) -> Option<(StorageValue, u64)> {
    db.dictionary().get(key).map(|s| (s.value.duplicate(), s.last_access))
}


const DB_DUMP: &str = "db_dump_path.txt.txt";

fn create_database() -> Database {
    let db = Database::new(DB_DUMP.to_string());
    db
}

const KEY: &str = "KEY";
const SECOND_KEY: &str = "SECOND_KEY";

const VALUE: &str = "VALUE";
const SECOND_VALUE: &str = "SECOND_VALUE";


    #[test]
    fn test_copy_set_dolly_sheep_then_copy_to_clone() {
        let mut database = create_database();

        database.set(KEY, VALUE).unwrap();
        let result = database.copy(KEY, SECOND_KEY);
        assert_eq!(result.unwrap(), SuccessQuery::Success);
        if let SuccessQuery::String(value) = database.strlen(SECOND_KEY).unwrap() {
            assert_eq!(value.to_string(), VALUE);
        }
    }

    #[test]
    fn test_copy_set_dolly_sheep_then_copy_to_clone_when_clone_exist() {
        let mut database = create_database();

        database.set(KEY, VALUE).unwrap();
        database.set(SECOND_KEY, SECOND_VALUE).unwrap();
        let result = database.copy(KEY, SECOND_KEY);

        assert_eq!(result.unwrap_err(), DataBaseError::KeyAlredyExist);
    }

    #[test]
    fn test_copy_try_to_copy_a_key_does_not_exist() {
        let mut database = create_database();
        let result = database.copy(KEY, SECOND_KEY);

        assert_eq!(result.unwrap_err(), DataBaseError::NonExistentKey);
    }


    #[test]
    fn test_del_key_value_returns_succes() {
        let mut database = create_database();
        database.set(KEY, VALUE).unwrap();

        let result = database.del(KEY);
        assert_eq!(result.unwrap(), SuccessQuery::Success);
        assert_eq!(database.get(KEY).unwrap(), SuccessQuery::Nil);
    }
    #[test]
    fn test_del_key_non_exist_returns_nil() {
        let mut database = create_database();

        let result = database.del(KEY);
        assert_eq!(result.unwrap(), SuccessQuery::Success);
    }



    #[test]
    fn test_exists_key_non_exist_returns_bool_false() {
        let mut database = create_database();

        let result = database.exists_key(KEY);
        assert_eq!(result.unwrap(), SuccessQuery::Boolean(false));
        assert_eq!(database.get(KEY).unwrap(), SuccessQuery::Nil);
    }

    #[test]
    fn test_exists_key_hello_returns_bool_true() {
        let mut database = create_database();
        database.set(KEY, VALUE).unwrap();

        let result = database.exists_key(KEY);

        assert_eq!(result.unwrap(), SuccessQuery::Boolean(true));

        if let SuccessQuery::String(value) = database.strlen(KEY).unwrap() {
            assert_eq!(value.to_string(), VALUE);
        }
    }


const FIRST_NAME: &str = "firstname";
const LAST_NAME: &str = "lastname";
const AGE: &str = "age";

const FIRST_NAME_VALUE: &str = "Alex";
const LAST_NAME_VALUE: &str = "Arbieto";
const AGE_VALUE: &str = "22";

    fn create_database_with_keys() -> Database {
        let mut database = create_database();
        database.set(FIRST_NAME, FIRST_NAME_VALUE).unwrap();
        database.set(LAST_NAME, LAST_NAME_VALUE).unwrap();
        database.set(AGE, AGE_VALUE).unwrap();
        database
    }

    #[test]
    fn test_keys_obtain_keys_with_name() {
        let mut database = create_database_with_keys();

        if let Ok(SuccessQuery::List(list)) = database.keys("*name") {
            let list: Vec<String> = list.iter().map(|x| x.to_string()).collect();

            assert!(list.contains(&FIRST_NAME.to_owned()));
            assert!(list.contains(&LAST_NAME.to_owned()));
        }
    }

    #[test]
    fn test_keys_obtain_keys_with_four_question_name() {
        let mut database = create_database_with_keys();
        if let Ok(SuccessQuery::List(list)) = database.keys("????name") {
            let list: Vec<String> = list.iter().map(|x| x.to_string()).collect();

            assert!(list.contains(&LAST_NAME.to_owned()));
        }
    }

const KEY_A: &str = "key";
const KEY_B: &str = "keeeey";
const KEY_C: &str = "ky";
const NO_MATCH: &str = "notmatch";

const VAL_A: &str = "valA";
const VAL_B: &str = "valB";
const VAL_C: &str = "valC";
const VAL_D: &str = "valD";

    fn create_database_with_keys_two() -> Database {
        let mut database = create_database();

        database.set(KEY_A, VAL_A).unwrap();
        database.set(KEY_B, VAL_B).unwrap();
        database.set(KEY_C, VAL_C).unwrap();
        database.set(NO_MATCH, VAL_D).unwrap();

        database
    }

    #[test]
    fn test_keys_obtain_all_keys_with_an_asterisk_in_the_middle() {
        let mut database = create_database_with_keys_two();

        if let Ok(SuccessQuery::List(list)) = database.keys("k*y") {
            let list: Vec<String> = list.iter().map(|x| x.to_string()).collect();

            assert!(list.contains(&KEY_A.to_owned()));
            assert!(list.contains(&KEY_B.to_owned()));
            assert!(list.contains(&KEY_C.to_owned()));
        }
    }

    #[test]
    fn test_keys_obtain_all_keys_with_question_in_the_middle() {
        let mut database = create_database_with_keys_two();

        if let Ok(SuccessQuery::List(list)) = database.keys("k?y") {
            let list: Vec<String> = list.iter().map(|x| x.to_string()).collect();

            assert!(list.contains(&KEY_A.to_owned()));
        }
    }

const HALL: &str = "hall";
const HELLO: &str = "hello";
const HEEEELLO: &str = "heeeeeello";
const HALLO: &str = "hallo";
const HXLLO: &str = "hxllo";
const HLLO: &str = "hllo";
const RHLLO: &str = r"h\llo";
const AHLLO: &str = "ahllo";
const HALLOWN: &str = "hallown";

    fn create_database_with_keys_three() -> Database {
        let mut database = create_database();
        database.set(HELLO, VAL_A).unwrap();
        database.set(HEEEELLO, VAL_A).unwrap();
        database.set(HALLO, VAL_B).unwrap();
        database.set(HXLLO, VAL_C).unwrap();
        database.set(HLLO, VAL_C).unwrap();
        database.set(RHLLO, VAL_D).unwrap();
        database.set(AHLLO, VAL_D).unwrap();
        database.set(HALLOWN, VAL_D).unwrap();
        database.set(HALL, VAL_D).unwrap();

        database
    }

    #[test]
    fn test_keys_obtain_keys_with_h_question_llo_matches_correctly() {
        let mut database = create_database_with_keys_three();

        if let Ok(SuccessQuery::List(list)) = database.keys("h?llo") {
            let list: Vec<String> = list.iter().map(|x| x.to_string()).collect();

            assert!(list.contains(&HELLO.to_owned()));
            assert!(list.contains(&HXLLO.to_owned()));
            assert!(list.contains(&RHLLO.to_owned()));
            assert!(list.contains(&HXLLO.to_owned()));
            assert!(list.contains(&RHLLO.to_owned()));
        }
    }

    #[test]
    fn test_keys_obtain_keys_with_h_asterisk_llo_matches_correctly() {
        let mut database = create_database_with_keys_three();

        if let Ok(SuccessQuery::List(list)) = database.keys("h*llo") {
            let list: Vec<String> = list.iter().map(|x| x.to_string()).collect();

            assert!(list.contains(&HELLO.to_owned()));
            assert!(list.contains(&HALLO.to_owned()));
            assert!(list.contains(&HEEEELLO.to_owned()));
            assert!(list.contains(&HELLO.to_owned()));
        }
    }

    #[test]
    fn test_keys_obtain_keys_with_nomatch_returns_empty_list() {
        let mut database = create_database_with_keys();

        if let SuccessQuery::List(list) = database.keys("nomatch").unwrap() {
            assert_eq!(list.len(), 0);
        }
    }


    #[test]
    fn test_rename_key_with_mykey_get_hello() {
        let mut database = create_database();
        database.set(KEY, VALUE).unwrap();

        let result = database.rename(KEY, SECOND_KEY).unwrap();
        assert_eq!(result, SuccessQuery::Success);

        let result = database.get(KEY).unwrap();
        assert_eq!(result, SuccessQuery::Nil);
    }

    #[test]
    fn test_rename_key_non_exists_error() {
        let mut database = create_database();

        let result = database.rename(KEY, SECOND_KEY).unwrap_err();

        assert_eq!(result, DataBaseError::NonExistentKey);
    }

const LIST: &str = "list";
const SET: &str = "set";
const VALUE_1: &str = "1";
const VALUE_2: &str = "2";
const VALUE_3: &str = "3";
const VALUE_A: &str = "a";

const LIMIT_OFFSET_OFF: i32 = 0;
const LIMIT_COUNT_OFF: i32 = -1;
const LIMIT_COUNT_ZERO: i32 = 0;

const PATTERN: &str = "weight_*";
const UNMATCH_PATTERN: &str = "no_exist";

const KEY_WEIGHT_1: &str = "weight_1";
const KEY_WEIGHT_2: &str = "weight_2";
const KEY_WEIGHT_3: &str = "weight_3";

const VAL_WEIGHT_1: &str = "10";
const VAL_WEIGHT_2: &str = "30";
const VAL_WEIGHT_3: &str = "20";
const VAL_WEIGHT_2_NOT_NUMBER: &str = "a";

    #[test]
    fn test_sort_list_without_flags_return_sorted_list_with_numbers_ascending() {
        let mut database = create_database();
        database
            .lpush(LIST, [VALUE_3, VALUE_1, VALUE_2].to_vec())
            .unwrap();

        if let SuccessQuery::List(list) = database.sort(LIST, SortFlags::WithoutFlags).unwrap()
        {
            let list_result: Vec<String> = list.iter().map(|x| x.to_string()).collect();
            let to_compare_list: Vec<&str> = vec![VALUE_1, VALUE_2, VALUE_3];
            let pair_list: Vec<(&String, &str)> =
                list_result.iter().zip(to_compare_list).collect();
            pair_list.iter().for_each(|x| {
                assert_eq!(x.0, x.1);
            });
        }
    }

    #[test]
    fn test_sort_list_without_flags_return_err_if_elem_in_list_are_not_numbers() {
        let mut database = create_database();
        database
            .lpush(LIST, [VALUE_1, VALUE_2, VALUE_A].to_vec())
            .unwrap();

        let result = database.sort(LIST, SortFlags::WithoutFlags);

        assert_eq!(result.unwrap_err(), DataBaseError::SortParseError);
    }

    #[test]
    fn test_sort_list_with_alpha_on_return_sorted_list_with_numbers_and_string_values() {
        let mut database = create_database();
        database
            .lpush(LIST, [VALUE_A, VALUE_2, VALUE_3].to_vec())
            .unwrap();

        if let SuccessQuery::List(list) = database.sort(LIST, SortFlags::Alpha).unwrap() {
            let list_result: Vec<String> = list.iter().map(|x| x.to_string()).collect();
            let to_compare_list: Vec<&str> = vec![VALUE_2, VALUE_3, VALUE_A];
            let pair_list: Vec<(&String, &str)> =
                list_result.iter().zip(to_compare_list).collect();
            pair_list.iter().for_each(|x| {
                assert_eq!(x.0, x.1);
            });
        }
    }

    #[test]
    fn test_sort_list_with_desc_on_return_sorted_list_with_numbers_descending() {
        let mut database = create_database();
        database
            .lpush(LIST, [VALUE_1, VALUE_3, VALUE_2].to_vec())
            .unwrap();

        if let SuccessQuery::List(list) = database.sort(LIST, SortFlags::Desc).unwrap() {
            let list_result: Vec<String> = list.iter().map(|x| x.to_string()).collect();
            let to_compare_list: Vec<&str> = vec![VALUE_3, VALUE_2, VALUE_1];
            let pair_list: Vec<(&String, &str)> =
                list_result.iter().zip(to_compare_list).collect();
            pair_list.iter().for_each(|x| {
                assert_eq!(x.0, x.1);
            });
        }
    }

    #[test]
    fn test_sort_list_with_limit_offset_count_0_return_empty_list() {
        let mut database = create_database();
        database
            .lpush(LIST, [VALUE_1, VALUE_3, VALUE_2].to_vec())
            .unwrap();

        if let SuccessQuery::List(list) = database
            .sort(LIST, SortFlags::Limit(LIMIT_OFFSET_OFF, LIMIT_COUNT_ZERO))
            .unwrap()
        {
            assert!(list.is_empty());
        }
    }

    #[test]
    fn test_sort_list_with_limit_offset_count_in_range_of_list_return_sorted_list_with_count_elem(
    ) {
        let mut database = create_database();
        database
            .lpush(LIST, [VALUE_1, VALUE_3, VALUE_2].to_vec())
            .unwrap();

        if let SuccessQuery::List(list) = database
            .sort(LIST, SortFlags::Limit(LIMIT_OFFSET_OFF, 2))
            .unwrap()
        {
            let list_result: Vec<String> = list.iter().map(|x| x.to_string()).collect();
            let to_compare_list: Vec<&str> = vec![VALUE_1, VALUE_2];
            let pair_list: Vec<(&String, &str)> =
                list_result.iter().zip(to_compare_list).collect();
            pair_list.iter().for_each(|x| {
                assert_eq!(x.0, x.1);
            });
            assert_eq!(list.len(), 2);
        }
    }

    #[test]
    fn test_sort_list_with_limit_offset_count_negative_return_sorted_list_with_all_elements() {
        let mut database = create_database();
        database
            .lpush(LIST, [VALUE_1, VALUE_3, VALUE_2].to_vec())
            .unwrap();

        if let SuccessQuery::List(list) = database
            .sort(LIST, SortFlags::Limit(LIMIT_OFFSET_OFF, -1))
            .unwrap()
        {
            let list_result: Vec<String> = list.iter().map(|x| x.to_string()).collect();
            let to_compare_list: Vec<&str> = vec![VALUE_1, VALUE_2, VALUE_3];
            let pair_list: Vec<(&String, &str)> =
                list_result.iter().zip(to_compare_list).collect();
            pair_list.iter().for_each(|x| {
                assert_eq!(x.0, x.1);
            });
            assert_eq!(list.len(), 3);
        }
    }

    #[test]
    fn test_sort_list_with_limit_offset_neg_count_0_return_emptylist() {
        let mut database = create_database();
        database
            .lpush(LIST, [VALUE_1, VALUE_3, VALUE_2].to_vec())
            .unwrap();

        if let SuccessQuery::List(list) = database
            .sort(LIST, SortFlags::Limit(-2, LIMIT_COUNT_ZERO))
            .unwrap()
        {
            assert!(list.is_empty());
        }
    }

    #[test]
    fn test_sort_list_with_limit_offset_out_of_range_of_list_count_return_empty_list() {
        let mut database = create_database();
        database
            .lpush(LIST, [VALUE_1, VALUE_3, VALUE_2].to_vec())
            .unwrap();

        if let SuccessQuery::List(list) = database
            .sort(LIST, SortFlags::Limit(4, LIMIT_COUNT_OFF))
            .unwrap()
        {
            assert!(list.is_empty());
        }
    }

    #[test]
    fn test_sort_list_with_limit_offset_negative_count_negative_return_sorted_list_with_all_elements(
    ) {
        let mut database = create_database();
        database
            .lpush(LIST, [VALUE_1, VALUE_3, VALUE_2].to_vec())
            .unwrap();

        if let SuccessQuery::List(list) = database.sort(LIST, SortFlags::Limit(-2, -2)).unwrap()
        {
            let list_result: Vec<String> = list.iter().map(|x| x.to_string()).collect();
            let to_compare_list: Vec<&str> = vec![VALUE_1, VALUE_2, VALUE_3];
            let pair_list: Vec<(&String, &str)> =
                list_result.iter().zip(to_compare_list).collect();
            pair_list.iter().for_each(|x| {
                assert_eq!(x.0, x.1);
            });
            assert_eq!(list.len(), 3);
        }
    }

    #[test]
    fn test_sort_list_with_limit_offset_in_range_count_2_return_sorted_sublist_of_2_elements() {
        let mut database = create_database();
        database
            .lpush(LIST, [VALUE_1, VALUE_3, VALUE_2].to_vec())
            .unwrap();

        if let SuccessQuery::List(list) = database.sort(LIST, SortFlags::Limit(1, 2)).unwrap() {
            let list_result: Vec<String> = list.iter().map(|x| x.to_string()).collect();
            let to_compare_list: Vec<&str> = vec![VALUE_2, VALUE_3];
            let pair_list: Vec<(&String, &str)> =
                list_result.iter().zip(to_compare_list).collect();
            pair_list.iter().for_each(|x| {
                assert_eq!(x.0, x.1);
            });
            assert_eq!(list.len(), 2);
        }
    }

    #[test]
    fn test_sort_set_by_weight_return_list_ordered_by_weight() {
        let mut database = create_database();

        database.set(KEY_WEIGHT_3, VAL_WEIGHT_3).unwrap();
        database.set(KEY_WEIGHT_1, VAL_WEIGHT_1).unwrap();
        database.set(KEY_WEIGHT_2, VAL_WEIGHT_2).unwrap();

        database.sadd(SET, [VALUE_1].to_vec()).unwrap();
        database.sadd(SET, [VALUE_3].to_vec()).unwrap();
        database.sadd(SET, [VALUE_2].to_vec()).unwrap();

        if let SuccessQuery::List(list) = database.sort(SET, SortFlags::By(PATTERN)).unwrap() {
            let list_result: Vec<String> = list.iter().map(|x| x.to_string()).collect();
            let to_compare_list: Vec<&str> = vec![VALUE_1, VALUE_3, VALUE_2];
            let pair_list: Vec<(&String, &str)> =
                list_result.iter().zip(to_compare_list).collect();
            pair_list.iter().for_each(|x| {
                assert_eq!(x.0, x.1);
            });
            assert_eq!(list.len(), 3);
        }
    }

    #[test]
    fn test_sort_list_by_weight_with_pattern_that_no_match_return_list_unordered() {
        let mut database = create_database();

        database.set(KEY_WEIGHT_3, VAL_WEIGHT_3).unwrap();
        database.set(KEY_WEIGHT_1, VAL_WEIGHT_1).unwrap();
        database.set(KEY_WEIGHT_2, VAL_WEIGHT_2).unwrap();

        database.rpush(LIST, vec![VALUE_1]).unwrap();
        database.rpush(LIST, vec![VALUE_3]).unwrap();
        database.rpush(LIST, vec![VALUE_2]).unwrap();

        if let SuccessQuery::List(list) =
            database.sort(LIST, SortFlags::By(UNMATCH_PATTERN)).unwrap()
        {
            let list_result: Vec<String> = list.iter().map(|x| x.to_string()).collect();
            let to_compare_list: Vec<&str> = vec![VALUE_1, VALUE_3, VALUE_2];
            let pair_list: Vec<(&String, &str)> =
                list_result.iter().zip(to_compare_list).collect();
            pair_list.iter().for_each(|x| {
                assert_eq!(x.0, x.1);
            });
            assert_eq!(list.len(), 3);
        }
    }

    #[test]
    fn test_sort_set_by_weight_if_weight_of_elem_that_does_not_match_weight_is_set_to_zero_and_return_list_ordered_by_pattern(
    ) {
        let mut database = create_database();

        database.set(KEY_WEIGHT_3, VAL_WEIGHT_3).unwrap();
        database.set(KEY_WEIGHT_1, VAL_WEIGHT_1).unwrap();
        // Weight of VALUE_2 is zero.

        database.sadd(SET, [VALUE_1].to_vec()).unwrap();
        database.sadd(SET, [VALUE_3].to_vec()).unwrap();
        database.sadd(SET, [VALUE_2].to_vec()).unwrap();

        if let SuccessQuery::List(list) = database.sort(SET, SortFlags::By(PATTERN)).unwrap() {
            let list_result: Vec<String> = list.iter().map(|x| x.to_string()).collect();
            let to_compare_list: Vec<&str> = vec![VALUE_2, VALUE_1, VALUE_3];
            let pair_list: Vec<(&String, &str)> =
                list_result.iter().zip(to_compare_list).collect();
            pair_list.iter().for_each(|x| {
                assert_eq!(x.0, x.1);
            });
            assert_eq!(list.len(), 3);
        }
    }

    #[test]
    fn test_sort_set_by_weight_and_only_weight_isnt_a_number_return_err() {
        let mut database = create_database();

        database.set(KEY_WEIGHT_3, VAL_WEIGHT_3).unwrap();
        database.set(KEY_WEIGHT_1, VAL_WEIGHT_1).unwrap();
        database.set(KEY_WEIGHT_2, VAL_WEIGHT_2_NOT_NUMBER).unwrap();

        database.sadd(SET, [VALUE_1].to_vec()).unwrap();
        database.sadd(SET, [VALUE_3].to_vec()).unwrap();
        database.sadd(SET, [VALUE_2].to_vec()).unwrap();

        let result = database.sort(SET, SortFlags::By(PATTERN));
        assert_eq!(result.unwrap_err(), DataBaseError::SortByParseError);
    }
