use data_structs::singly_lined_list::Node;
use data_structs::singly_lined_list::SinglyLinkedList;

fn assert_list_contains_data(list: &SinglyLinkedList, expected_data: &[&str]) {
    let mut current = list.first.as_ref();
    for expected in expected_data {
        assert_eq!(current.map(|node| &node.data), Some(&expected.to_string()));
        current = current.unwrap().next.as_ref();
    }
    assert!(current.is_none());
}

#[test]
fn singly_lined_list_test_new_list_is_empty() {
    let list = SinglyLinkedList::new();

    assert_eq!(list.first, None);
    assert!(list.is_empty());
}

#[test]
fn singly_lined_list_test_append_single_node() {
    let data = "Data Block 1";

    let mut list = SinglyLinkedList::new();
    list.append(data);

    assert_eq!(list.first, Some(Box::new(Node::new(data.to_string()))));
    assert_eq!(
        list.first.as_ref().map(|node| &node.data),
        Some(&data.to_string())
    );
    assert_eq!(list.first.as_ref().unwrap().next, None);
}

#[test]
fn singly_lined_list_test_append_multiple_nodes() {
    let values = ["A", "B", "C", "D"];
    let mut list: SinglyLinkedList = SinglyLinkedList::new();

    for value in &values {
        list.append(value);
    }

    let mut current = list.first.as_ref();

    for value in &values {
        assert_eq!(current.map(|node| &node.data), Some(&value.to_string()));
        current = current.and_then(|node| node.next.as_ref());
    }
    assert_eq!(current.map(|node| &node.data), None);
}

#[test]
fn singly_lined_list_test_prepend_empty_list() {
    let a = "A";
    let mut actual_list = SinglyLinkedList::new();
    actual_list.prepend(a);

    assert_eq!(
        actual_list.first.as_ref().map(|node| &node.data),
        Some(&a.to_string())
    );
    assert_eq!(actual_list.first.as_ref().unwrap().next, None);
}

#[test]
fn singly_lined_list_test_prepend_single_node_to_empty_list() {
    let mut list = SinglyLinkedList::new();
    list.prepend("A");

    assert_eq!(
        list.first.as_ref().map(|node| &node.data),
        Some(&"A".to_string())
    );
    assert_eq!(list.first.as_ref().unwrap().next, None);
}

#[test]
fn singly_lined_list_test_prepend_to_non_empty_list() {
    let values = vec!["A", "B"];
    let mut list = SinglyLinkedList::new();
    list.append(values[0]);
    list.append(values[1]);

    let first = list.first.as_ref().map(|node| &node.data);
    let second = list
        .first
        .as_ref()
        .and_then(|node| node.next.as_ref().map(|node| &node.data));

    assert_eq!(first, Some(&values[0].to_string()));
    assert_eq!(second, Some(&values[1].to_string()));
}

#[test]
fn singly_lined_list_test_prepend_adding_multiple_nodes() {
    let values = vec!["A", "B", "C"];
    let mut list = SinglyLinkedList::new();
    for value in values.iter().take(2) {
        list.append(value);
    }

    list.prepend(values[2]);

    let expected_data = vec!["C", "A", "B"];

    assert_list_contains_data(&list, &expected_data);
}

#[test]
fn singly_lined_list_test_insert_after_given_two_nodes_inserts_in_between_them() {
    let mut list = SinglyLinkedList::new();
    list.append("A");
    list.append("B");

    list.insert_after_given("C", "A");

    let expected_data = vec!["A", "C", "B"];

    assert_list_contains_data(&list, &expected_data);
}

#[test]
fn singly_lined_list_test_insert_before_if_two_nodes_already_added_insert_between_them() {
    let mut list = SinglyLinkedList::new();
    list.append("A");
    list.append("B");

    list.insert_before_given("C", "B");

    let expected_data = vec!["A", "C", "B"];

    assert_list_contains_data(&list, &expected_data);
}

#[test]
fn singly_lined_list_find_last_node_in_empty_list() {
    let empty_list = SinglyLinkedList::new();
    let result = empty_list.find_last_node();
    assert_eq!(result, None)
}

#[test]
fn singly_lined_list_find_last_node_when_list_has_single_node() {
    let mut list = SinglyLinkedList::new();
    list.append("A");

    let result = list.find_last_node();

    assert_eq!(result.map(|node| &node.data), Some(&"A".to_string()));
}

#[test]
fn singly_lined_list_find_last_node_when_multiple_nodes() {
    let values = vec!["A", "B", "C", "D"];
    let mut list = SinglyLinkedList::new();

    for value in &values {
        list.append(value);
    }

    let result = list.find_last_node();
    assert_eq!(result.map(|node| &node.data), Some(&"D".to_string()));
}

#[test]
fn singly_lined_list_find_before_last_when_empty_list() {
    let empty_list = SinglyLinkedList::new();

    let result = empty_list.find_before_last();

    assert_eq!(result, None);
}

#[test]
fn singly_lined_list_find_before_last_when_single_node() {
    let mut list = SinglyLinkedList::new();
    list.append("A");

    let result = list.find_before_last();

    assert_eq!(result, None);
}

#[test]
fn singly_lined_list_find_before_last_when_multiple_nodes() {
    let values = vec!["A", "B", "C", "D"];
    let mut list = SinglyLinkedList::new();
    for value in &values {
        list.append(value);
    }

    let result = list.find_before_last();

    assert_eq!(result.map(|node| &node.data), Some(&"C".to_string()));
}

#[test]
fn singly_lined_list_find_node_when_empty_list() {
    let empty_list = SinglyLinkedList::new();

    let result = empty_list.find_node("A");

    assert_eq!(result, None);
}

#[test]
fn singly_lined_list_find_node_when_single_node_in_list() {
    let mut list = SinglyLinkedList::new();
    list.append("A");

    let result = list.find_node("A");

    assert_eq!(result.map(|node| &node.data), Some(&"A".to_string()));
}

#[test]
fn singly_lined_list_find_node_when_single_node_but_given_node_not_found() {
    let values = vec!["A", "B", "C", "D"];
    let mut list = SinglyLinkedList::new();
    for value in &values {
        list.append(value);
    }

    let result = list.find_node("Z");

    assert_eq!(result, None);
}

#[test]
fn singly_lined_list_find_node_when_multiple_nodes_and_given_data_found() {
    let values = vec!["A", "B", "C", "D"];
    let mut list = SinglyLinkedList::new();
    for value in &values {
        list.append(value);
    }
    let result = list.find_node("C");

    assert_eq!(result.map(|node| &node.data), Some(&"C".to_string()));
}

#[test]
fn singly_lined_list_find_previous_node_when_empty_list() {
    let empty_list = SinglyLinkedList::new();

    let result = empty_list.find_previous_node("A");

    assert_eq!(result, None);
}

#[test]
fn singly_lined_list_find_previous_node_when_single_node_in_list() {
    let mut list = SinglyLinkedList::new();
    list.append("A");

    let result = list.find_previous_node("A");

    assert_eq!(result, None);
}

#[test]
fn singly_lined_list_find_precious_node_when_multiple_nodes_in_list() {
    let values = vec!["A", "B", "C", "D"];
    let mut list = SinglyLinkedList::new();
    for value in &values {
        list.append(value);
    }

    let result = list.find_previous_node("C");

    assert_eq!(result.map(|node| &node.data), Some(&"B".to_string()));
}

#[test]
fn singly_lined_list_find_previous_node_when_multiple_nodes_data_not_found() {
    let values = vec!["A", "B", "C", "D"];
    let mut list = SinglyLinkedList::new();
    for value in &values {
        list.append(value);
    }

    let result = list.find_previous_node("Z");

    assert_eq!(result, None);
}

#[test]
fn singly_lined_list_delete_first_when_list_has_elements() {
    let values = vec!["A", "B", "C"];
    let mut list = SinglyLinkedList::new();
    list.append(values[0]);
    list.append(values[1]);
    list.append(values[2]);

    list.delete_first();

    let expected_data = vec!["B", "C"];

    assert_list_contains_data(&list, &expected_data);
}

#[test]
fn singly_lined_list_delete_last_when_list_has_elements() {
    let values = vec!["A", "B", "C"];
    let mut list = SinglyLinkedList::new();
    list.append(values[0]);
    list.append(values[1]);
    list.append(values[2]);

    list.delete_last();

    let expected_data = vec!["A", "B"];

    println!("### List : {:?}", list);

    assert_list_contains_data(&list, &expected_data);
}

#[test]
fn singly_lined_list_delete_node_with_data_when_single_node_and_data_found() {
    let mut list = SinglyLinkedList::new();
    list.append("A");
    list.delete_node_with_data("A");

    println!("### List Looks like this: {:?}", list);

    assert!(list.is_empty());
}

#[test]
fn singly_lined_list_delete_node_with_data_when_multiple_nodes_and_node_present() {
    let values = vec!["A", "B", "C", "D"];
    let mut list = SinglyLinkedList::new();
    for value in &values {
        list.append(value);
    }

    list.delete_node_with_data("C");

    let expected_data = vec!["A", "B", "D"];

    assert_list_contains_data(&list, &expected_data);
}

#[test]
fn singly_lined_list_delete_node_with_data_at_head_clears_the_list() {
    let mut list = SinglyLinkedList::new();
    list.append("A");
    list.append("B");
    list.append("C");

    list.delete_node_with_data("A");

    assert!(list.is_empty());
}
