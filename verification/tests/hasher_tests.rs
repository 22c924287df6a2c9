use data_structs::hasher_trait::KeyToIndexHasherTrait;
use data_structs::hasher_trait::DEFAULT_MAX_SIZE;

struct TestKeyToIndexStruct {}

impl<'a> KeyToIndexHasherTrait<&'a str> for TestKeyToIndexStruct {}

impl KeyToIndexHasherTrait<i32> for TestKeyToIndexStruct {}

impl KeyToIndexHasherTrait<String> for TestKeyToIndexStruct {}

impl TestKeyToIndexStruct {
    fn new() -> Self {
        TestKeyToIndexStruct {}
    }
}

#[test]
fn get_index_string() {
    let test_struct = TestKeyToIndexStruct::new();

    let index = test_struct.get_index("A");

    assert_eq!(index, 163);
}

#[test]
fn get_index_integer() {
    let test_struct = TestKeyToIndexStruct::new();

    let index = test_struct.get_index(128);

    assert_eq!(index, 15);
}

#[test]
fn test_that_same_key_returns_the_same_index() {
    let test_struct = TestKeyToIndexStruct::new();
    let index_1 = test_struct.get_index("KeyA");
    let index_2 = test_struct.get_index("KeyA");

    assert_eq!(index_1, index_2, "Same keys always return_the_same_index.");
}

#[test]
fn test_that_different_keys_mapped_to_different_indexes() {
    let test_struct = TestKeyToIndexStruct::new();
    let index_1 = test_struct.get_index("KeyA");
    let index_2 = test_struct.get_index("KeyB");

    assert_ne!(index_1, index_2, "Keys that are different, map to differnt indexes.");
}

#[test]
fn owned_and_borrowed_strings_hash_to_the_same_index() {
    let test_struct = TestKeyToIndexStruct::new();

    let index_borrowed = test_struct.get_index("A");
    let index_owned = test_struct.get_index(String::from("A"));

    assert_eq!(index_borrowed, index_owned);
}

#[test]
fn every_index_is_within_the_table() {
    let test_struct = TestKeyToIndexStruct::new();

    for num in 0..1000 {
        assert!(test_struct.get_index(num) < DEFAULT_MAX_SIZE);
    }
}
