use rust_redis::database::Database;
use rust_redis::databasehelper::{DataBaseError, SortFlags, StorageValue, SuccessQuery};

fn entry(db: &Database, key: &str) -> Option<(StorageValue, u64)> {
    db.dictionary().get(key).map(|s| (s.value.duplicate(), s.last_access))
}


const KEY: &str = "KEY";
const KEY_WITH_STR: &str = "KEY_WITH_STRING";
const VALUE_A: &str = "VALUE_A";
const NON_EXIST_KEY: &str = "NON_EXIST_KEY";
const NON_EXIST_ELEMENT: &str = "NON_EXIST_ELEMENT";
const ELEMENT: &str = "ELEMENT";
const ELEMENT_2: &str = "ELEMENT2";
const ELEMENT_3: &str = "ELEMENT3";
const OTHER_ELEMENT: &str = "OTHER_ELEMENT";

const DB_DUMP: &str = "db_dump_path.txt";

fn create_database() -> Database {
    let db = Database::new(DB_DUMP.to_string());
    db
}


    #[test]
    fn test_sadd_create_new_set_with_element_returns_1_if_key_set_not_exist_in_database() {
        let mut database = create_database();

        let result = database.sadd(KEY, [ELEMENT].to_vec()).unwrap();
        assert_eq!(result, SuccessQuery::Integer(1));
        let is_member = database.sismember(KEY, ELEMENT).unwrap();
        assert_eq!(is_member, SuccessQuery::Boolean(true));
    }

    #[test]
    fn test_sadd_create_set_with_repeating_elements_returns_0() {
        let mut database = create_database();

        database.sadd(KEY, [ELEMENT].to_vec()).unwrap();

        let result = database.sadd(KEY, [ELEMENT].to_vec()).unwrap();
        assert_eq!(result, SuccessQuery::Integer(0));
        let len_set = database.scard(KEY).unwrap();
        assert_eq!(len_set, SuccessQuery::Integer(1));
    }

    #[test]
    fn test_sadd_key_with_another_type_of_set_returns_err() {
        let mut database = create_database();
        database.set(KEY, ELEMENT).unwrap();

        let result = database.sadd(KEY, [ELEMENT].to_vec()).unwrap_err();
        assert_eq!(result, DataBaseError::NotASet);
    }

    #[test]
    fn test_sadd_add_element_with_set_created_returns_1() {
        let mut database = create_database();
        database.sadd(KEY, [ELEMENT].to_vec()).unwrap();

        let result = database.sadd(KEY, [OTHER_ELEMENT].to_vec()).unwrap();
        assert_eq!(result, SuccessQuery::Integer(1));
        let len_set = database.scard(KEY).unwrap();
        assert_eq!(len_set, SuccessQuery::Integer(2));
    }

    #[test]
    fn test_sadd_add_multiple_elem_in_set_returns_lenght_of_correctly_added_set() {
        let mut database = create_database();
        database.sadd(KEY, [ELEMENT].to_vec()).unwrap();

        let result = database
            .sadd(KEY, [ELEMENT, ELEMENT_2, ELEMENT_3].to_vec())
            .unwrap();

        assert_eq!(result, SuccessQuery::Integer(2));
        let len_set = database.scard(KEY).unwrap();
        assert_eq!(len_set, SuccessQuery::Integer(3));
    }

    #[test]
    fn test_sadd_add_multiple_elem_in_key_that_not_contains_set_return_err() {
        let mut database = create_database();
        database.sadd(KEY, [ELEMENT].to_vec()).unwrap();
        database.set(KEY, ELEMENT).unwrap();

        let result = database
            .sadd(KEY, [ELEMENT, ELEMENT_2, ELEMENT_3].to_vec())
            .unwrap_err();

        assert_eq!(result, DataBaseError::NotASet);
    }


    #[test]
    fn test_sismember_set_with_element_returns_1() {
        let mut database = create_database();
        database.sadd(KEY, [ELEMENT].to_vec()).unwrap();

        let is_member = database.sismember(KEY, ELEMENT).unwrap();

        assert_eq!(is_member, SuccessQuery::Boolean(true));
    }

    #[test]
    fn test_sismember_set_without_element_returns_0() {
        let mut database = create_database();
        database.sadd(KEY, [ELEMENT].to_vec()).unwrap();

        let result = database.sismember(KEY, OTHER_ELEMENT).unwrap();

        assert_eq!(result, SuccessQuery::Boolean(false));
    }

    #[test]
    fn test_sismember_key_with_another_type_of_set_returns_err() {
        let mut database = create_database();
        database.set(KEY, ELEMENT).unwrap();
        let result = database.sismember(KEY, ELEMENT).unwrap_err();

        assert_eq!(result, DataBaseError::NotASet);
    }

    #[test]
    fn test_sismember_with_non_exist_key_set_returns_0() {
        let mut database = create_database();

        let result = database.sismember(KEY, ELEMENT).unwrap();

        assert_eq!(result, SuccessQuery::Boolean(false));
    }

    #[test]
    fn test_srem_one_member_in_set_returns_1_if_set_contains_member() {
        let members = vec![ELEMENT];
        let mut database = create_database();
        database.sadd(KEY, [ELEMENT].to_vec()).unwrap();
        let result = database.srem(KEY, members).unwrap();
        let is_member = database.sismember(KEY, &ELEMENT.to_string()).unwrap();
        assert_eq!(result, SuccessQuery::Integer(1));
        assert_eq!(is_member, SuccessQuery::Boolean(false));
    }
    #[test]
    fn test_srem_key_no_exits_in_database_returns_0() {
        let mut database = create_database();
        let members_to_rmv = vec![ELEMENT];
        let result = database.srem(KEY, members_to_rmv).unwrap();
        assert_eq!(result, SuccessQuery::Boolean(false));
    }
    #[test]
    fn test_srem_multiple_members_in_set_returns_lenght_of_removed_elements_in_the_set() {
        let mut database = create_database();
        let members = vec![ELEMENT, ELEMENT_2, ELEMENT_3];
        let members_to_rmv = vec![ELEMENT, ELEMENT_2, ELEMENT_3, NON_EXIST_ELEMENT];

        let _ = database.sadd(KEY, members.clone());

        let result = database.srem(KEY, members_to_rmv).unwrap();
        assert_eq!(result, SuccessQuery::Integer(3));
        for member in members {
            let is_member = database.sismember(KEY, &member.to_string()).unwrap();
            assert_eq!(is_member, SuccessQuery::Boolean(false));
        }
    }
    #[test]
    fn test_srem_key_with_another_type_another_besides_set_return_err() {
        let mut database = create_database();
        let members_to_rmv = vec![ELEMENT];
        let _ = database.set(KEY_WITH_STR, VALUE_A).unwrap();
        let result = database.srem(KEY_WITH_STR, members_to_rmv).unwrap_err();
        assert_eq!(result, DataBaseError::NotASet);
    }

#[test]
fn test_scard_set_with_one_element_returns_1() {
    let mut database = create_database();
    database.sadd(KEY, [ELEMENT].to_vec()).unwrap();

    let len_set = database.scard(KEY).unwrap();

    assert_eq!(len_set, SuccessQuery::Integer(1));
}

#[test]
fn test_scard_create_set_with_multiple_elements_returns_lenght_of_set() {
    let mut database = create_database();
    let elements = vec!["0", "1", "2", "3"];

    let _ = database.sadd(KEY, elements);

    let len_set = database.scard(KEY).unwrap();
    assert_eq!(len_set, SuccessQuery::Integer(4));
}

#[test]
fn test_scard_key_with_another_type_of_set_returns_err() {
    let mut database = create_database();
    database.set(KEY, ELEMENT).unwrap();

    let result = database.scard(KEY).unwrap_err();

    assert_eq!(result, DataBaseError::NotASet);
}

#[test]
fn test_scard_key_set_not_exist_in_database_returns_0() {
    let mut database = create_database();

    let result = database.scard(KEY).unwrap();

    assert_eq!(result, SuccessQuery::Boolean(false));
}


    #[test]
    fn test_smembers_with_elements_return_list_of_elements() {
        let mut database = create_database();
        database.sadd(KEY, [ELEMENT].to_vec()).unwrap();
        database.sadd(KEY, [OTHER_ELEMENT].to_vec()).unwrap();

        if let SuccessQuery::List(list) = database.smembers(KEY).unwrap() {
            for elem in list {
                let is_member = database.sismember(KEY, &elem.to_string()).unwrap();
                assert_eq!(is_member, SuccessQuery::Boolean(true));
            }
        }
    }

    #[test]
    fn test_smembers_with_non_exist_key_return_empty_list() {
        let mut database = create_database();

        let result = database.smembers(NON_EXIST_KEY).unwrap();

        assert_eq!(result, SuccessQuery::List(Vec::new()));
    }

    #[test]
    fn test_smembers_key_with_another_type_another_besides_set_return_err() {
        let mut database = create_database();

        let _ = database.set(KEY_WITH_STR, VALUE_A);

        let result = database.smembers(KEY_WITH_STR).unwrap_err();

        assert_eq!(result, DataBaseError::NotASet);
    }
