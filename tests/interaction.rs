use interaction_store::error::{FormatError, KeyRatchetError, StreamError};
use interaction_store::interaction::Interaction;
use interaction_store::key_table::KeyWindow;
use interaction_store::recv_stream::RecvStream;
use interaction_store::send_stream::SendStream;

const ID: [u8; 16] = [0xaa; 16];

fn scenario() -> Interaction {
    let mut x = Interaction::new(ID, [0x11; 16]);
    assert_eq!(x.add_peer([1; 16]), Ok(()));
    assert_eq!(x.add_peer([2; 16]), Ok(()));
    assert_eq!(x.advance([2; 16], 5), Ok(()));
    x.add_recipient([0x21; 32], b"alice".to_vec());
    x.add_recipient([0x22; 32], b"bob".to_vec());
    x.add_recipient([0x23; 32], b"carol".to_vec());
    assert_eq!(x.rotate_key(KeyWindow::new(0, 1000, [0x31; 32], [0x41; 32])), Ok(()));
    x
}

#[test]
fn two_peers_three_recipients_one_window() {
    let x = scenario();
    let back = Interaction::load(ID, &x.save()).unwrap();
    assert_eq!(back.id(), ID);
    assert_eq!(back.recv_streams(), x.recv_streams());
    assert_eq!(back.recv_streams()[0].id(), [1; 16]);
    assert_eq!(back.recv_streams()[0].position(), 0);
    assert_eq!(back.recv_streams()[1].id(), [2; 16]);
    assert_eq!(back.recv_streams()[1].position(), 5);
    assert_eq!(back.send_stream().id(), [0x11; 16]);
    assert_eq!(back.send_stream().send_keys(), vec![[0x21; 32], [0x22; 32], [0x23; 32]]);
    assert_eq!(back.send_stream().usernames(), vec![b"alice".to_vec(), b"bob".to_vec(), b"carol".to_vec()]);
    assert_eq!(back.recv_keys().len(), 1);
    assert_eq!(back.recv_keys().get(0), KeyWindow::new(0, 1000, [0x31; 32], [0x41; 32]));
    assert_eq!(back.save(), x.save());

    let synced = x.sync_all();
    assert_eq!(synced.len(), 2);
    let reloaded: Vec<RecvStream> = synced.iter().map(|b| RecvStream::decode(b).unwrap()).collect();
    assert_eq!(reloaded[0].position(), 0);
    assert_eq!(reloaded[1].position(), 5);
    assert_eq!(&reloaded, x.recv_streams());

    let send = SendStream::decode(&x.put()).unwrap();
    assert_eq!(send.send_keys(), x.send_stream().send_keys());
}

#[test]
fn empty_interaction_round_trip() {
    let x = Interaction::new(ID, [3; 16]);
    let bytes = x.save();
    let mut expected = vec![0u8];
    expected.extend_from_slice(&[3; 16]);
    expected.extend_from_slice(&[0, 0]);
    assert_eq!(bytes, expected);
    let back = Interaction::load(ID, &bytes).unwrap();
    assert!(back.recv_streams().is_empty());
    assert_eq!(back.send_stream().len(), 0);
    assert_eq!(back.recv_keys().len(), 0);
}

#[test]
fn save_layout_is_recv_send_keys() {
    let mut x = Interaction::new(ID, [3; 16]);
    x.add_peer([1; 16]).unwrap();
    x.advance([1; 16], 300).unwrap();
    x.rotate_key(KeyWindow::new(0, 7, [5; 32], [6; 32])).unwrap();
    let bytes = x.save();
    let mut expected = vec![1u8, 1];
    expected.extend_from_slice(&[1; 16]);
    expected.extend_from_slice(&[2, 44, 1, 0, 0]);
    expected.extend_from_slice(&[3; 16]);
    expected.push(0);
    expected.extend_from_slice(&[1, 1, 0, 1, 7]);
    expected.extend_from_slice(&[5; 32]);
    expected.extend_from_slice(&[6; 32]);
    assert_eq!(bytes, expected);
}

#[test]
fn advance_through_interaction() {
    let mut x = scenario();
    assert_eq!(x.advance([9; 16], 3), Err(StreamError::UnknownPeer));
    assert_eq!(x.advance([2; 16], 4), Err(StreamError::PositionRegression));
    assert_eq!(x.recv_streams()[1].position(), 5);
    assert_eq!(x.advance([2; 16], 5), Ok(()));
    assert_eq!(x.advance([1; 16], 8), Ok(()));
    assert_eq!(x.recv_streams()[0].position(), 8);
}

#[test]
fn duplicate_peer_rejected() {
    let mut x = scenario();
    assert_eq!(x.add_peer([1; 16]), Err(StreamError::DuplicatePeer));
    assert_eq!(x.recv_streams().len(), 2);
}

#[test]
fn select_and_rotate_through_interaction() {
    let mut x = scenario();
    assert_eq!(x.select_key(999), Ok(([0x31; 32], [0x41; 32])));
    assert_eq!(x.select_key(1000), Err(KeyRatchetError::KeyNotFound));
    assert_eq!(x.rotate_key(KeyWindow::new(900, 2000, [0; 32], [0; 32])), Err(KeyRatchetError::InvalidWindow));
    assert_eq!(x.rotate_key(KeyWindow::new(1000, 2000, [0x32; 32], [0x42; 32])), Ok(()));
    assert_eq!(x.select_key(1000), Ok(([0x32; 32], [0x42; 32])));
}

#[test]
fn load_rejects_duplicate_peers() {
    let mut bytes = vec![1u8, 2];
    for _ in 0..2 {
        bytes.extend_from_slice(&[1; 16]);
        bytes.push(0);
    }
    bytes.extend_from_slice(&[3; 16]);
    bytes.extend_from_slice(&[0, 0]);
    assert_eq!(Interaction::load(ID, &bytes).err(), Some(FormatError::DuplicatePeer));
}

#[test]
fn load_rejects_overlapping_windows() {
    let mut bytes = vec![0u8];
    bytes.extend_from_slice(&[3; 16]);
    bytes.extend_from_slice(&[0, 1, 2]);
    bytes.extend_from_slice(&[0, 1, 100]);
    bytes.extend_from_slice(&[0; 64]);
    bytes.extend_from_slice(&[1, 80, 1, 150]);
    bytes.extend_from_slice(&[0; 64]);
    assert_eq!(Interaction::load(ID, &bytes).err(), Some(FormatError::InvalidWindow));
}

#[test]
fn load_rejects_trailing_and_truncated() {
    let bytes = scenario().save();
    let mut longer = bytes.clone();
    longer.push(0);
    assert_eq!(Interaction::load(ID, &longer).err(), Some(FormatError::TrailingBytes));
    assert_eq!(Interaction::load(ID, &bytes[..bytes.len() - 1]).err(), Some(FormatError::Truncated));
    assert_eq!(Interaction::load(ID, &[]).err(), Some(FormatError::Truncated));
    assert_eq!(Interaction::load(ID, &[7]).err(), Some(FormatError::InvalidTag));
}

#[test]
fn empty_window_round_trip() {
    let mut x = Interaction::new(ID, [3; 16]);
    assert_eq!(x.rotate_key(KeyWindow::new(5, 5, [1; 32], [2; 32])), Ok(()));
    assert_eq!(x.rotate_key(KeyWindow::new(5, 9, [3; 32], [4; 32])), Ok(()));
    let back = Interaction::load(ID, &x.save()).unwrap();
    assert_eq!(back.recv_keys().len(), 2);
    assert_eq!(back.recv_keys().get(0), KeyWindow::new(5, 5, [1; 32], [2; 32]));
    assert_eq!(back.select_key(5), Ok(([3; 32], [4; 32])));
}

#[test]
fn load_rejects_inverted_window() {
    let mut bytes = vec![0u8];
    bytes.extend_from_slice(&[3; 16]);
    bytes.extend_from_slice(&[0, 1, 1]);
    bytes.extend_from_slice(&[1, 9, 1, 3]);
    bytes.extend_from_slice(&[0; 64]);
    assert_eq!(Interaction::load(ID, &bytes).err(), Some(FormatError::InvalidWindow));
}
