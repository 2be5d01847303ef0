//! Unix datagram sockets: the socket a service listens on, and the address
//! a socket is bound or connected to.
use vstd::prelude::*;

verus! {

/// The room for a path in a Unix socket address (`sun_path`).
pub const SUN_PATH_LEN: usize = 108;

/// The `sun_path` of the address of the socket at `path`: the path's first
/// bytes, as many as fit, then NULs.
pub open spec fn sun_path(path: Seq<u8>) -> Seq<u8> {
    Seq::new(
        SUN_PATH_LEN as nat,
        |i: int|
            if i < path.len() {
                path[i]
            } else {
                0u8
            },
    )
}

/// The length handed to `bind(2)` and `connect(2)` with the address of the
/// socket at a path of `len` bytes: the length taken as 32 bits, plus two.
pub open spec fn address_length(len: nat) -> int {
    (len as u32) + 2
}

/// A Unix datagram socket.
pub struct socket(i32);

impl socket {
    /// The descriptor of the socket.
    pub closed spec fn raw(&self) -> i32 {
        self.0
    }

    /// The socket that `socket(2)` created, or the error it reported.
    pub fn init(created: Result<i32, &'static str>) -> (r: Result<socket, &'static str>)
        ensures
            match created {
                Ok(fd) => r is Ok && r->Ok_0.raw() == fd,
                Err(e) => r == Err::<socket, &'static str>(e),
            },
    {
        match created {
            Ok(fd) => Ok(socket(fd)),
            Err(e) => Err(e),
        }
    }

    /// The descriptor of the socket.
    pub fn as_raw_fd(&self) -> (fd: i32)
        ensures
            fd == self.raw(),
    {
        self.0
    }

    /// The `sun_path` of the address of the socket at `path`.
    pub fn path_bytes(path: &[u8]) -> (dest: Vec<u8>)
        ensures
            dest@ == sun_path(path@),
    {
        let mut dest: Vec<u8> = Vec::new();
        let mut i: usize = 0;
        while i < SUN_PATH_LEN
            invariant
                i <= SUN_PATH_LEN,
                dest@ =~= sun_path(path@).take(i as int),
            decreases SUN_PATH_LEN - i,
        {
            if i < path.len() {
                dest.push(path[i]);
            } else {
                dest.push(0u8);
            }
            i = i + 1;
        }
        dest
    }

    /// The length of the address of the socket at `path`, as `bind(2)` and
    /// `connect(2)` are given it.
    pub fn address_len(path: &[u8]) -> (n: u32)
        requires
            address_length(path@.len()) <= u32::MAX,
        ensures
            n == address_length(path@.len()),
    {
        path.len() as u32 + 2
    }
}

/// The address of a socket holds the first bytes of its path, as many as
/// fit, and NULs after them.
pub proof fn address_keeps_path_prefix(path: Seq<u8>)
    ensures
        sun_path(path).len() == SUN_PATH_LEN,
        forall|i: int| 0 <= i < SUN_PATH_LEN && i < path.len() ==> sun_path(path)[i] == path[i],
        forall|i: int| path.len() <= i < SUN_PATH_LEN ==> sun_path(path)[i] == 0,
{
}

} // verus!
