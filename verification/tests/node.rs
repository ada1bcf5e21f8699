use bencode_lib::Dict;
use bencode_lib::Node;
use bencode_lib::make_node;

#[test]
fn create_integer_works() {
    let variant = Node::Integer(32);
    match variant {
        Node::Integer(integer) => {
            assert_eq!(integer, 32);
        }
        _ => {
            assert_eq!(false, true);
        }
    }
}
#[test]
fn create_string_works() {
    let variant = Node::Str(String::from("test"));
    match variant {
        Node::Str(string) => {
            assert_eq!(string.as_str(), "test");
        }
        _ => {
            assert_eq!(false, true);
        }
    }
}
#[test]
fn create_list_works() {
    let variant = Node::List(Vec::<Node>::new());
    match variant {
        Node::List(list) => {
            assert_eq!(list.is_empty(), true);
        }
        _ => {
            assert_eq!(false, true);
        }
    }
}
#[test]
fn push_to_list_works() {
    let variant = Node::List(Vec::<Node>::new());
    match variant {
        Node::List(mut list) => {
            list.push(Node::Integer(32));
            assert_eq!(list.len(), 1);
            match list[0] {
                Node::Integer(integer) => {
                    assert_eq!(integer, 32);
                }
                _ => {
                    assert_eq!(false, true);
                }
            }
        }
        _ => {
            assert_eq!(false, true);
        }
    }
}
#[test]
fn push_multiple_to_list_works() {
    let variant = Node::List(Vec::<Node>::new());
    match variant {
        Node::List(mut list) => {
            list.push(Node::Integer(32));
            list.push(Node::Integer(33));
            list.push(Node::Integer(34));
            list.push(Node::Integer(35));
            list.push(Node::Integer(36));
            assert_eq!(list.len(), 5);
            match list[4] {
                Node::Integer(integer) => {
                    assert_eq!(integer, 36);
                }
                _ => {
                    assert_eq!(false, true);
                }
            }
        }
        _ => {
            assert_eq!(false, true);
        }
    }
}
#[test]
fn create_dictionary_works() {
    let variant = Node::Dictionary(Dict::new());
    match variant {
        Node::Dictionary(dictionary) => {
            assert_eq!(dictionary.is_empty(), true);
        }
        _ => {
            assert_eq!(false, true);
        }
    }
}
#[test]
fn add_to_dictionary_works() {
    let variant = Node::Dictionary(Dict::new());
    match variant {
        Node::Dictionary(mut dictionary) => {
            dictionary.insert(String::from("test"), Node::Integer(32));
            assert_eq!(dictionary.len(), 1);
            match *dictionary.get("test").unwrap() {
                Node::Integer(integer) => {
                    assert_eq!(integer, 32);
                }
                _ => {
                    assert_eq!(false, true);
                }
            }
        }
        _ => {
            assert_eq!(false, true);
        }
    }
}
#[test]
fn add_multiple_to_dictionary_works() {
    let variant = Node::Dictionary(Dict::new());
    match variant {
        Node::Dictionary(mut dictionary) => {
            dictionary.insert(String::from("test1"), Node::Integer(32));
            dictionary.insert(String::from("test2"), Node::Integer(33));
            dictionary.insert(String::from("test3"), Node::Integer(34));
            dictionary.insert(String::from("test4"), Node::Integer(35));
            dictionary.insert(String::from("test5"), Node::Integer(36));
            assert_eq!(dictionary.len(), 5);
            match *dictionary.get("test5").unwrap() {
                Node::Integer(integer) => {
                    assert_eq!(integer, 36);
                }
                _ => {
                    assert_eq!(false, true);
                }
            }
        }
        _ => {
            assert_eq!(false, true);
        }
    }
}
#[test]
fn make_an_integer_node_works() {
    let node = make_node(32);
    match node {
        Node::Integer(integer) => {
            assert_eq!(integer, 32);
        }
        _ => {
            assert_eq!(false, true);
        }
    }
}
#[test]
fn make_a_string_node_works() {
    let node = make_node("i32e");
    match node {
        Node::Str(string) => {
            assert_eq!(string.as_str(), "i32e");
        }
        _ => {
            assert_eq!(false, true);
        }
    }
}
#[test]
fn make_a_list_node_works() {
    let node = make_node(Vec::<Node>::new());
    match node {
        Node::List(list) => {
            assert_eq!(list.is_empty(), true);
        }
        _ => {
            assert_eq!(false, true);
        }
    }
}
#[test]
fn make_a_dictionary_node_works() {
    let node = make_node(Dict::new());
    match node {
        Node::Dictionary(dictionary) => {
            assert_eq!(dictionary.is_empty(), true);
        }
        _ => {
            assert_eq!(false, true);
        }
    }
}

// New tests for static initializer lists
#[test]
fn array_literal_to_list_node_works() {
    let node = make_node([1, 2, 3]);
    match node {
        Node::List(list) => {
            assert_eq!(list.len(), 3);
        }
        _ => panic!("Expected List"),
    }
}

#[test]
fn mixed_array_literal_to_list_node_works() {
    let node = Node::from([Node::Integer(1), Node::Str("x".to_string()), Node::Integer(3)]);
    match node {
        Node::List(list) => {
            assert_eq!(list.len(), 3);
        }
        _ => panic!("Expected List"),
    }
}

#[test]
fn kv_array_literal_to_dictionary_node_works() {
    let node = make_node([("a", 1), ("b", 2)]);
    match node {
        Node::Dictionary(map) => {
            assert_eq!(map.len(), 2);
            match map.get("b").unwrap() {
                Node::Integer(i) => assert_eq!(*i, 2),
                _ => panic!("Expected Integer for key 'b'"),
            }
        }
        _ => panic!("Expected Dictionary"),
    }
}
