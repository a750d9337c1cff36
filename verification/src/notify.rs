//! Liveness reports to systemd by the `sd_notify` protocol.
//!
//! With `Type=notify` and `WatchdogSec=` in its unit, systemd hands the
//! service the address of an `AF_UNIX` datagram socket in `$NOTIFY_SOCKET`.
//! The address is a file system path, or, when it begins with `@`, a name in
//! Linux's abstract namespace: the rest of the address after the `@`. Where
//! the variable is unset (a run by hand or from cron) nothing is sent.
//!
//! This module decides what to send and where; sending is left to the caller.
use vstd::prelude::*;
use vstd::slice::{slice_subrange, slice_to_vec};
use vstd::string::StringSliceAdditionalSpecFns;

verus! {

/// The byte `@`.
pub const AT: u8 = 0x40;

/// The kind of socket address.
#[derive(Clone, Copy, Debug, PartialEq, Eq, Structural)]
pub enum SocketKind {
    /// A file system path.
    Path,
    /// A name in Linux's abstract socket namespace.
    Abstract,
}

/// A datagram to send: its destination and its bytes.
pub struct Notification {
    pub kind: SocketKind,
    /// The path, or the abstract name without its `@`.
    pub address: Vec<u8>,
    pub payload: Vec<u8>,
}

pub open spec fn is_abstract_address(address: Seq<u8>) -> bool {
    address.len() > 0 && address[0] == AT
}

pub open spec fn socket_kind(address: Seq<u8>) -> SocketKind {
    if is_abstract_address(address) {
        SocketKind::Abstract
    } else {
        SocketKind::Path
    }
}

/// The path, or the abstract name, that `address` designates.
pub open spec fn socket_address(address: Seq<u8>) -> Seq<u8> {
    if is_abstract_address(address) {
        address.drop_first()
    } else {
        address
    }
}

/// The bytes of `"WATCHDOG=1"`, the watchdog keep-alive message.
pub open spec fn watchdog_message() -> Seq<u8> {
    seq![0x57u8, 0x41, 0x54, 0x43, 0x48, 0x44, 0x4f, 0x47, 0x3d, 0x31]
}

/// `n` sends `payload` to the socket that `address` designates.
pub open spec fn sends_to(n: Notification, address: Seq<u8>, payload: Seq<u8>) -> bool {
    &&& n.kind == socket_kind(address)
    &&& n.address@ == socket_address(address)
    &&& n.payload@ == payload
}

/// Every address that begins with `@` is an abstract name, the rest of the
/// address whatever it holds; every other address is a path, taken whole.
pub proof fn lemma_at_sign_means_abstract(address: Seq<u8>)
    ensures
        address.len() > 0 && address[0] == AT ==> socket_kind(address) == SocketKind::Abstract
            && socket_address(address) == address.subrange(1, address.len() as int),
        !(address.len() > 0 && address[0] == AT) ==> socket_kind(address) == SocketKind::Path
            && socket_address(address) == address,
{
    if address.len() > 0 && address[0] == AT {
        assert(address.drop_first() =~= address.subrange(1, address.len() as int));
    }
}

/// Where the datagram for the socket address `address` goes: an address that
/// begins with `@` is an abstract name, the rest of it; any other is a path.
pub fn notify_target(address: &[u8]) -> (res: (SocketKind, Vec<u8>))
    ensures
        res.0 == socket_kind(address@),
        res.1@ == socket_address(address@),
        address@.len() > 0 && address@[0] == AT ==> res.0 == SocketKind::Abstract && res.1@
            == address@.subrange(1, address@.len() as int),
        !(address@.len() > 0 && address@[0] == AT) ==> res.0 == SocketKind::Path && res.1@
            == address@,
{
    proof {
        lemma_at_sign_means_abstract(address@);
    }
    if address.len() > 0 && address[0] == AT {
        let name = slice_subrange(address, 1, address.len());
        assert(name@ =~= address@.drop_first());
        (SocketKind::Abstract, slice_to_vec(name))
    } else {
        (SocketKind::Path, slice_to_vec(address))
    }
}

/// What to send for `message`, given the value of `$NOTIFY_SOCKET`: nothing
/// where it is unset, else the bytes of `message` to the socket it designates.
pub fn notification(notify_socket: Option<&[u8]>, message: &str) -> (res: Option<Notification>)
    ensures
        res is None <==> notify_socket is None,
        res matches Some(n) ==> sends_to(n, notify_socket->0@, message.spec_bytes()),
        res matches Some(n) ==> (n.kind == SocketKind::Abstract <==> notify_socket->0@.len() > 0
            && notify_socket->0@[0] == AT),
{
    match notify_socket {
        None => None,
        Some(address) => {
            let (kind, target) = notify_target(address);
            let payload = slice_to_vec(message.as_bytes());
            Some(Notification { kind, address: target, payload })
        },
    }
}

/// The systemd watchdog ping: `"WATCHDOG=1"` to the socket that
/// `$NOTIFY_SOCKET` (here `notify_socket`) designates, or nothing where it is unset.
pub fn watchdog_ping(notify_socket: Option<&[u8]>) -> (res: Option<Notification>)
    ensures
        res is None <==> notify_socket is None,
        res matches Some(n) ==> sends_to(n, notify_socket->0@, watchdog_message()),
        res matches Some(n) ==> (n.kind == SocketKind::Abstract <==> notify_socket->0@.len() > 0
            && notify_socket->0@[0] == AT),
{
    let message = "WATCHDOG=1";
    proof {
        reveal_strlit("WATCHDOG=1");
        broadcast use vstd::string::is_ascii_spec_bytes;
        assert(vstd::string::is_ascii(message));
        assert(message.spec_bytes() =~= watchdog_message());
    }
    notification(notify_socket, message)
}

} // verus!
