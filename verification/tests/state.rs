use doxsync::state::bitmap::Bitmap;
use doxsync::state::producer_state::{InsertStringResult, ProducerState};

#[test]
fn test_bitmap() {
    let mut bitmap = Bitmap::new(1024);

    // Simple allocate and deallocate.
    assert_eq!(bitmap.allocate(), Some(0));
    bitmap.dealloc(0);
    assert_eq!(bitmap.allocate(), Some(0));
    assert_eq!(bitmap.allocate(), Some(1));
    bitmap.dealloc(0);
    assert_eq!(bitmap.allocate(), Some(0));
    bitmap.dealloc(0);
    bitmap.dealloc(1);

    // Allocate 512 times.
    for i in 0..512 {
        assert_eq!(bitmap.allocate(), Some(i));
    }
    bitmap.dealloc(42);
    bitmap.dealloc(16);
    bitmap.dealloc(100);
    assert_eq!(bitmap.allocate(), Some(16));
    assert_eq!(bitmap.allocate(), Some(42));
    assert_eq!(bitmap.allocate(), Some(100));
}

#[test]
fn state_txn_commit_keeps_changes() {
    let state = ProducerState::new();

    let mut txn = state.txn();
    assert_eq!(
        txn.insert_string("tmp-0000".to_string()),
        InsertStringResult::Inserted { key: 0 }
    );
    assert_eq!(
        txn.insert_string("tmp-0001".to_string()),
        InsertStringResult::Inserted { key: 1 }
    );
    let state = txn.commit();

    let mut txn = state.txn();
    assert_eq!(
        txn.insert_string("tmp-0002".to_string()),
        InsertStringResult::Inserted { key: 2 }
    );
    assert_eq!(
        txn.insert_string("tmp-0000".to_string()),
        InsertStringResult::Existing { key: 0 }
    );
    let state = txn.commit();

    let mut txn = state.txn();
    assert_eq!(
        txn.insert_string("tmp-0002".to_string()),
        InsertStringResult::Existing { key: 2 }
    );
    assert_eq!(
        txn.insert_string("tmp-0003".to_string()),
        InsertStringResult::Inserted { key: 3 }
    );
    let state = txn.rollback();

    let mut txn = state.txn();
    assert_eq!(
        txn.insert_string("tmp-0004".to_string()),
        InsertStringResult::Inserted { key: 3 }
    );
    let state = txn.commit();

    assert_eq!(
        state.recent_strings(),
        vec![
            "tmp-0004".to_string(),
            "tmp-0000".to_string(),
            "tmp-0002".to_string(),
            "tmp-0001".to_string(),
        ]
    );

    let mut txn = state.txn();
    assert_eq!(
        txn.insert_string("tmp-0003".to_string()),
        InsertStringResult::Inserted { key: 4 }
    );
    for i in 5..4096u32 {
        let key = format!("tmp-{:04}", i);
        assert_eq!(
            txn.insert_string(key),
            InsertStringResult::Inserted { key: i }
        );
    }
    let state = txn.commit();

    let mut txn = state.txn();
    // If we try to insert existing string, it should reuse the existing
    // key.
    assert_eq!(
        txn.insert_string("tmp-0004".to_string()),
        InsertStringResult::Existing { key: 3 }
    );
    // But if we insert a new string, it should evict the least recently
    // used key.
    assert_eq!(
        txn.insert_string("tmp-4096".to_string()),
        InsertStringResult::Replaced { key: 1 }
    );
    let state = txn.commit();

    let recent_keys = state.recent_strings();
    assert_eq!(
        &recent_keys[..4],
        &[
            "tmp-4096".to_string(),
            "tmp-0004".to_string(),
            "tmp-4095".to_string(),
            "tmp-4094".to_string(),
        ]
    );
    assert_eq!(
        &recent_keys[recent_keys.len() - 4..],
        &[
            "tmp-0005".to_string(),
            "tmp-0003".to_string(),
            "tmp-0000".to_string(),
            "tmp-0002".to_string(),
        ]
    );

    let mut txn = state.txn();
    assert_eq!(
        txn.insert_string("tmp-4097".to_string()),
        InsertStringResult::Replaced { key: 2 }
    );
    assert_eq!(
        txn.insert_string("tmp-4098".to_string()),
        InsertStringResult::Replaced { key: 0 }
    );
    assert_eq!(
        txn.insert_string("tmp-4099".to_string()),
        InsertStringResult::Replaced { key: 4 }
    );
    let _state = txn.commit();
}

#[test]
fn producer_state_default_is_empty() {
    let state = doxsync::state::producer_state::ProducerState::default();
    assert!(state.recent_strings().is_empty());
    assert!(state.recent_paths().is_empty());
}
