use indexium::{Btree, Item};

#[test]
fn test_snapshot_creation() {
    let mut btree = Btree::new(4096);

    btree.insert(Item {
        key: 1,
        val: "one".to_string(),
    });
    btree.insert(Item {
        key: 2,
        val: "two".to_string(),
    });

    let result = btree.snapshot();
    assert!(result.is_ok());

    let file_len = btree.pager.bytes().len();
    assert!(file_len > 0);
}

#[test]
fn test_snapshot_loading() {
    let mut btree = Btree::new(4096);
    btree.insert(Item {
        key: 10,
        val: "ten".to_string(),
    });
    btree.insert(Item {
        key: 20,
        val: "twenty".to_string(),
    });

    btree.snapshot().unwrap();

    let loaded_btree = Btree::load_snapshot(btree.pager.bytes(), 4096).unwrap();

    let value1 = loaded_btree.search(10).unwrap();
    let value2 = loaded_btree.search(20).unwrap();

    assert_eq!(value1, "ten");
    assert_eq!(value2, "twenty");
}

#[test]
fn test_snapshot_validation() {
    let empty_file: Vec<u8> = Vec::new();

    assert!(!Btree::is_valid_snapshot(&empty_file, 4096));

    let mut btree = Btree::new(4096);
    btree.insert(Item {
        key: 5,
        val: "five".to_string(),
    });
    btree.snapshot().unwrap();

    assert!(Btree::is_valid_snapshot(btree.pager.bytes(), 4096));
}

#[test]
fn test_snapshot_persistence() {
    let mut btree = Btree::new(4096);
    for i in 0..10 {
        btree.insert(Item {
            key: i,
            val: format!("value-{i}"),
        });
    }

    btree.snapshot().unwrap();

    let loaded_btree = Btree::load_snapshot(btree.pager.bytes(), 4096).unwrap();

    for i in 0..10 {
        match loaded_btree.search(i) {
            Ok(value) => println!("Key {i}: Found '{value}'"),
            Err(e) => println!("Key {i}: ERROR - {e:?}"),
        }
    }

    for i in 0..10 {
        let value = loaded_btree.search(i).unwrap();
        assert_eq!(value, format!("value-{i}"));
    }
}
