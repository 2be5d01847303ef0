use svc_manager::net::socket;
use svc_manager::poller::{epoll, timer_spec, Epoll};
use svc_manager::text::{bytes_eq, c_string, contains_byte, copy_bytes, split_on, split_once_at};

#[test]
fn c_string_ends_in_nul() {
    assert_eq!(c_string(b"a.service"), b"a.service\0".to_vec());
    assert_eq!(c_string(b""), vec![0u8]);
}

#[test]
fn split_keeps_empty_pieces() {
    assert_eq!(split_on(b"a'b''c", b'\''), vec![b"a".to_vec(), b"b".to_vec(), vec![], b"c".to_vec()]);
    assert_eq!(split_on(b"", b'\''), vec![Vec::<u8>::new()]);
    assert_eq!(split_on(b"'", b'\''), vec![Vec::<u8>::new(), Vec::new()]);
}

#[test]
fn split_then_join_gives_text_back() {
    let text = b"net'dbus''log";
    let joined = split_on(text, b'\'').join(&b'\'');
    assert_eq!(joined, text.to_vec());
}

#[test]
fn split_once_at_first() {
    assert_eq!(split_once_at(b"a=b=c", b'='), Some((b"a".to_vec(), b"b=c".to_vec())));
    assert_eq!(split_once_at(b"=", b'='), Some((vec![], vec![])));
    assert_eq!(split_once_at(b"abc", b'='), None);
}

#[test]
fn byte_helpers() {
    assert!(bytes_eq(b"abc", b"abc"));
    assert!(!bytes_eq(b"abc", b"abd"));
    assert!(!bytes_eq(b"ab", b"abc"));
    assert!(contains_byte(b"a=b", b'='));
    assert!(!contains_byte(b"ab", b'='));
    assert_eq!(copy_bytes(b"xyz"), b"xyz".to_vec());
}

#[test]
fn socket_keeps_descriptor() {
    let s = socket::init(Ok(5)).unwrap();
    assert_eq!(s.as_raw_fd(), 5);
    assert!(matches!(socket::init(Err("Permission denied")), Err("Permission denied")));
}

#[test]
fn socket_address_path_and_length() {
    let p = socket::path_bytes(b"example.sock");
    assert_eq!(p.len(), 108);
    assert_eq!(&p[..12], b"example.sock");
    assert!(p[12..].iter().all(|b| *b == 0));
    assert_eq!(socket::address_len(b"example.sock"), 14);
    let long = vec![b'x'; 200];
    let p = socket::path_bytes(&long);
    assert_eq!(p, vec![b'x'; 108]);
    assert_eq!(socket::address_len(&long), 202);
}

#[test]
fn timer_splits_milliseconds() {
    assert_eq!(timer_spec(10000), (10, 0));
    assert_eq!(timer_spec(1500), (1, 500_000_000));
    assert_eq!(timer_spec(999), (0, 999_000_000));
    assert_eq!(timer_spec(-1500), (-1, -500_000_000));
    assert_eq!(timer_spec(0), (0, 0));
}

#[test]
fn cursor_walks_events_from_the_back() {
    let mut p: epoll<10> = epoll::init(4, 5);
    assert!(p.must_wait());
    assert_eq!(p.next(Some(4)), Some(3));
    assert!(!p.must_wait());
    assert_eq!(p.next(None), Some(2));
    assert_eq!(p.next(None), Some(1));
    // The cursor stays on the second event and no wait is made again.
    assert_eq!(p.next(None), Some(1));
    assert!(!p.must_wait());
}

#[test]
fn single_event_then_wait_again() {
    let mut p: Epoll<10> = Epoll::init(4);
    assert_eq!(p.next(Some(1)), Some(0));
    assert!(p.must_wait());
    assert_eq!(p.next(None), None);
    assert!(p.must_wait());
}

#[test]
fn too_many_events_hand_out_nothing() {
    let mut p: Epoll<2> = Epoll::init(4);
    assert_eq!(p.next(Some(3)), None);
    assert_eq!(p.next(None), None);
    assert_eq!(p.cursor, 2);
}

#[test]
fn notify_events_wake_recorded_service() {
    let mut p: epoll<4> = epoll::init(4, 9);
    assert!(p.is_notify(9));
    assert!(!p.is_notify(8));
    assert_eq!(p.wait(9, Some((1, 0x8))), None);
    p.watch_on_file(1, 17, 0x8 | 0x2);
    assert_eq!(p.nevents[1], (17, 0xa));
    assert_eq!(p.wait(9, Some((1, 0x8))), Some(17));
    assert_eq!(p.wait(9, Some((1, 0x1))), None);
    assert_eq!(p.wait(9, Some((-1, 0x8))), None);
    assert_eq!(p.wait(9, Some((4, 0x8))), None);
    assert_eq!(p.wait(9, None), None);
    // Any other event hands out its own data.
    assert_eq!(p.wait(23, None), Some(23));
    assert_eq!(p.wait(23, Some((1, 0x8))), Some(23));
}

#[test]
fn negative_notify_descriptor_matches_sign_extended() {
    let p: epoll<1> = epoll::init(4, -1);
    assert!(p.is_notify(u64::MAX));
}
