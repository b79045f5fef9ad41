use interaction_store::error::KeyRatchetError;
use interaction_store::key_table::{KeyTable, KeyWindow};

fn two_windows() -> KeyTable {
    let mut t = KeyTable::new();
    assert_eq!(t.append(KeyWindow::new(0, 100, [1; 32], [11; 32])), Ok(()));
    assert_eq!(t.append(KeyWindow::new(100, 250, [2; 32], [22; 32])), Ok(()));
    t
}

#[test]
fn select_key_by_window() {
    let t = two_windows();
    assert_eq!(t.select_key(50), Ok(([1; 32], [11; 32])));
    assert_eq!(t.select_key(100), Ok(([2; 32], [22; 32])));
    assert_eq!(t.select_key(300), Err(KeyRatchetError::KeyNotFound));
}

#[test]
fn select_key_edges() {
    let t = two_windows();
    assert_eq!(t.select_key(0), Ok(([1; 32], [11; 32])));
    assert_eq!(t.select_key(99), Ok(([1; 32], [11; 32])));
    assert_eq!(t.select_key(249), Ok(([2; 32], [22; 32])));
    assert_eq!(t.select_key(250), Err(KeyRatchetError::KeyNotFound));
    assert_eq!(KeyTable::new().select_key(0), Err(KeyRatchetError::KeyNotFound));
}

#[test]
fn select_key_before_first_window() {
    let mut t = KeyTable::new();
    assert_eq!(t.append(KeyWindow::new(100, 200, [5; 32], [6; 32])), Ok(()));
    assert_eq!(t.select_key(50), Err(KeyRatchetError::KeyNotFound));
    assert_eq!(t.select_key(150), Ok(([5; 32], [6; 32])));
}

#[test]
fn select_key_many_windows() {
    let mut t = KeyTable::new();
    for i in 0..40u64 {
        assert_eq!(t.append(KeyWindow::new(i * 10, i * 10 + 10, [i as u8; 32], [0; 32])), Ok(()));
    }
    for p in 0..400u64 {
        assert_eq!(t.select_key(p).unwrap().0, [(p / 10) as u8; 32]);
    }
    assert_eq!(t.select_key(400), Err(KeyRatchetError::KeyNotFound));
}

#[test]
fn overlapping_window_rejected() {
    let mut t = KeyTable::new();
    assert_eq!(t.append(KeyWindow::new(0, 100, [1; 32], [1; 32])), Ok(()));
    assert_eq!(t.append(KeyWindow::new(80, 150, [2; 32], [2; 32])), Err(KeyRatchetError::InvalidWindow));
    assert_eq!(t.len(), 1);
    assert_eq!(t.select_key(120), Err(KeyRatchetError::KeyNotFound));
}

#[test]
fn gap_and_inverted_windows_rejected() {
    let mut t = KeyTable::new();
    assert_eq!(t.append(KeyWindow::new(9, 3, [1; 32], [1; 32])), Err(KeyRatchetError::InvalidWindow));
    assert_eq!(t.append(KeyWindow::new(0, 100, [1; 32], [1; 32])), Ok(()));
    assert_eq!(t.append(KeyWindow::new(101, 150, [2; 32], [2; 32])), Err(KeyRatchetError::InvalidWindow));
    assert_eq!(t.append(KeyWindow::new(100, 99, [2; 32], [2; 32])), Err(KeyRatchetError::InvalidWindow));
    assert_eq!(t.len(), 1);
    assert_eq!(t.get(0), KeyWindow::new(0, 100, [1; 32], [1; 32]));
}

#[test]
fn empty_windows_accepted() {
    let mut t = KeyTable::new();
    assert_eq!(t.append(KeyWindow::new(5, 5, [1; 32], [1; 32])), Ok(()));
    assert_eq!(t.select_key(5), Err(KeyRatchetError::KeyNotFound));
    assert_eq!(t.append(KeyWindow::new(5, 10, [2; 32], [2; 32])), Ok(()));
    assert_eq!(t.append(KeyWindow::new(10, 10, [3; 32], [3; 32])), Ok(()));
    assert_eq!(t.append(KeyWindow::new(10, 20, [4; 32], [4; 32])), Ok(()));
    assert_eq!(t.len(), 4);
    assert_eq!(t.select_key(5), Ok(([2; 32], [2; 32])));
    assert_eq!(t.select_key(9), Ok(([2; 32], [2; 32])));
    assert_eq!(t.select_key(10), Ok(([4; 32], [4; 32])));
    assert_eq!(t.select_key(20), Err(KeyRatchetError::KeyNotFound));
    assert_eq!(t.select_key(4), Err(KeyRatchetError::KeyNotFound));
}
