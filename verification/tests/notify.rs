use rwatch::notify::{notification, notify_target, watchdog_ping, SocketKind};

#[test]
fn unset_socket_sends_nothing() {
    assert!(notification(None, "WATCHDOG=1").is_none());
    assert!(watchdog_ping(None).is_none());
}

#[test]
fn path_address_is_used_as_is() {
    let (kind, address) = notify_target(b"/run/user/1002/systemd/notify");
    assert_eq!(kind, SocketKind::Path);
    assert_eq!(address, b"/run/user/1002/systemd/notify".to_vec());
}

#[test]
fn at_sign_designates_abstract_name() {
    let (kind, address) = notify_target(b"@rwatch-test");
    assert_eq!(kind, SocketKind::Abstract);
    assert_eq!(address, b"rwatch-test".to_vec());
    let (kind, address) = notify_target(b"@");
    assert_eq!(kind, SocketKind::Abstract);
    assert!(address.is_empty());
}

#[test]
fn watchdog_ping_sends_watchdog_message() {
    let n = watchdog_ping(Some(b"@sock")).unwrap();
    assert_eq!(n.kind, SocketKind::Abstract);
    assert_eq!(n.address, b"sock".to_vec());
    assert_eq!(n.payload, b"WATCHDOG=1".to_vec());
    let n = notification(Some(b"/tmp/s"), "READY=1").unwrap();
    assert_eq!(n.kind, SocketKind::Path);
    assert_eq!(n.address, b"/tmp/s".to_vec());
    assert_eq!(n.payload, b"READY=1".to_vec());
}
