//! The ports of a socket unit: what each of them listens on, whether it is open, and
//! what is to be done to open and to close it.
use crate::seq_util::lemma_filter_take_next;
use vstd::prelude::*;

verus! {

/// What kind of thing a port is.
#[derive(Clone, Copy, Debug, PartialEq, Eq, Structural)]
pub enum PortType {
    Socket,
    Fifo,
    Invalid,
}

/// How a socket passes data.
#[derive(Clone, Copy, Debug, PartialEq, Eq, Structural)]
pub enum SockType {
    Stream,
    Datagram,
    SeqPacket,
    Raw,
    Rdm,
}

/// The family of addresses that a socket address belongs to.
#[derive(Clone, Copy, Debug, PartialEq, Eq, Structural)]
pub enum AddressFamily {
    Unix,
    Inet,
    Inet6,
    Netlink,
    Other,
}

/// What the unit reads of the address of a socket.
#[derive(Clone, Copy, Debug, PartialEq, Eq, Structural)]
pub struct SocketAddress {
    pub family: AddressFamily,
    pub sa_type: SockType,
    /// Whether the address is a path in the file system.
    pub has_path: bool,
}

impl SocketAddress {
    pub fn new(family: AddressFamily, sa_type: SockType, has_path: bool) -> (sa: SocketAddress)
        ensures
            sa == (SocketAddress { family, sa_type, has_path }),
    {
        SocketAddress { family, sa_type, has_path }
    }

    /// Whether connections can be accepted on a socket with this address.
    pub open spec fn accepts(&self) -> bool {
        self.sa_type == SockType::Stream
    }

    pub fn can_accept(&self) -> (yes: bool)
        ensures
            yes == self.accepts(),
    {
        if self.sa_type == SockType::Stream {
            return true;
        }
        false
    }

    /// Whether the address leaves a path behind that is to be unlinked.
    pub open spec fn leaves_path(&self) -> bool {
        self.family == AddressFamily::Unix && self.has_path
    }

    pub fn has_unlink_path(&self) -> (yes: bool)
        ensures
            yes == self.leaves_path(),
    {
        self.family == AddressFamily::Unix && self.has_path
    }

    pub fn family(&self) -> (family: AddressFamily)
        ensures
            family == self.family,
    {
        self.family
    }
}

/// What is to be done to close a port.
#[derive(Clone, Copy, Debug, PartialEq, Eq, Structural)]
pub struct PortClose {
    /// The descriptor to close.
    pub fd: i32,
    /// Whether the path of the address is to be unlinked after that.
    pub unlink: bool,
}

/// One port. Its descriptor is negative as long as it is not open.
#[derive(Clone, Copy, Debug, PartialEq, Eq, Structural)]
pub struct SocketPort {
    pub p_type: PortType,
    pub fd: i32,
    pub sa: SocketAddress,
}

impl SocketPort {
    pub fn new(socket_addr: SocketAddress) -> (port: SocketPort)
        ensures
            port == (SocketPort { p_type: PortType::Invalid, fd: -1i32, sa: socket_addr }),
    {
        SocketPort { p_type: PortType::Invalid, fd: -1, sa: socket_addr }
    }

    pub fn set_sc_type(&mut self, p_type: PortType)
        ensures
            *final(self) == (SocketPort { p_type, ..*old(self) }),
    {
        self.p_type = p_type;
    }

    pub fn p_type(&self) -> (p_type: PortType)
        ensures
            p_type == self.p_type,
    {
        self.p_type
    }

    pub fn family(&self) -> (family: AddressFamily)
        ensures
            family == self.sa.family,
    {
        self.sa.family()
    }

    pub fn fd(&self) -> (fd: i32)
        ensures
            fd == self.fd,
    {
        self.fd
    }

    pub fn can_accept(&self) -> (yes: bool)
        ensures
            yes == self.sa.accepts(),
    {
        self.sa.can_accept()
    }

    /// Whether the port has to be opened: it is a socket and has no descriptor yet.
    /// Only a socket can be opened.
    pub fn open_port(&self) -> (listen: bool)
        requires
            self.fd < 0 ==> self.p_type == PortType::Socket,
        ensures
            listen == (self.fd < 0),
    {
        if self.fd >= 0 {
            return false;
        }
        true
    }

    /// Notes the descriptor on which the port now listens.
    pub fn opened(&mut self, fd: i32)
        requires
            fd >= 0,
        ensures
            *final(self) == (SocketPort { fd, ..*old(self) }),
    {
        self.fd = fd;
    }

    /// Marks the port as closed, and says what is to be done to close it in fact,
    /// if it was open. Only a socket can be closed.
    pub fn close(&mut self) -> (todo: Option<PortClose>)
        requires
            old(self).fd >= 0 ==> old(self).p_type == PortType::Socket,
        ensures
            *final(self) == (SocketPort { fd: if old(self).fd < 0 {
                old(self).fd
            } else {
                -1i32
            }, ..*old(self) }),
            todo == if old(self).fd < 0 {
                None
            } else {
                Some((PortClose { fd: old(self).fd, unlink: old(self).sa.leaves_path() }))
            },
    {
        if self.fd < 0 {
            return None;
        }
        let fd = self.fd;
        self.fd = -1;
        Some(PortClose { fd, unlink: self.sa.has_unlink_path() })
    }

    /// Whether a connection is to be accepted when the port is ready, `accept`
    /// being what the unit file says of that.
    pub fn accept_wanted(&self, accept: Option<bool>) -> (yes: bool)
        ensures
            yes == (accept == Some(true) && self.p_type == PortType::Socket && self.sa.accepts()),
    {
        match accept {
            Some(accept) => accept && self.p_type == PortType::Socket && self.can_accept(),
            None => false,
        }
    }
}

/// The test that a port passes on which no connection can be accepted.
pub open spec fn no_accept() -> spec_fn(SocketPort) -> bool {
    |p: SocketPort| p.p_type != PortType::Socket || !p.sa.accepts()
}

/// The test that an open port passes.
pub open spec fn is_open() -> spec_fn(SocketPort) -> bool {
    |p: SocketPort| p.fd >= 0
}

/// The ports of one unit, in the order in which they were added.
pub struct SocketPorts {
    pub ports: Vec<SocketPort>,
}

impl SocketPorts {
    pub fn new() -> (ports: SocketPorts)
        ensures
            ports.ports@.len() == 0,
    {
        SocketPorts { ports: Vec::new() }
    }

    pub fn push_port(&mut self, port: SocketPort)
        ensures
            final(self).ports@ == old(self).ports@.push(port),
    {
        self.ports.push(port);
    }

    pub fn clear_ports(&mut self)
        ensures
            final(self).ports@.len() == 0,
    {
        self.ports.clear();
    }

    pub fn ports(&self) -> (copy: Vec<SocketPort>)
        ensures
            copy@ == self.ports@,
    {
        let mut copy: Vec<SocketPort> = Vec::new();
        let mut i: usize = 0;
        while i < self.ports.len()
            invariant
                i <= self.ports.len(),
                copy@ == self.ports@.take(i as int),
            decreases self.ports.len() - i,
        {
            copy.push(self.ports[i]);
            proof {
                assert(self.ports@.take(i + 1) =~= self.ports@.take(i as int).push(
                    self.ports@[i as int],
                ));
            }
            i = i + 1;
        }
        proof {
            assert(self.ports@.take(i as int) =~= self.ports@);
        }
        copy
    }

    /// Whether there is a port on which no connection can be accepted.
    pub fn no_accept_socket(&self) -> (yes: bool)
        ensures
            yes == exists|i: int|
                0 <= i < self.ports@.len() && no_accept()(#[trigger] self.ports@[i]),
    {
        let mut i: usize = 0;
        while i < self.ports.len()
            invariant
                i <= self.ports.len(),
                forall|k: int| 0 <= k < i ==> !no_accept()(#[trigger] self.ports@[k]),
            decreases self.ports.len() - i,
        {
            let port = self.ports[i];
            if port.p_type() != PortType::Socket {
                return true;
            }
            if !port.can_accept() {
                return true;
            }
            i = i + 1;
        }
        false
    }

    /// The descriptors of the ports that are open, in the order of the ports.
    pub fn collect_fds(&self) -> (fds: Vec<i32>)
        ensures
            fds@ == self.ports@.filter(is_open()).map_values(|p: SocketPort| p.fd),
    {
        let mut fds: Vec<i32> = Vec::new();
        let ghost fd_of = |p: SocketPort| p.fd;
        let mut i: usize = 0;
        proof {
            assert(self.ports@.take(0).filter(is_open()).map_values(fd_of) =~= Seq::<i32>::empty())
                by {
                reveal(Seq::filter);
            }
        }
        while i < self.ports.len()
            invariant
                i <= self.ports.len(),
                fd_of == |p: SocketPort| p.fd,
                fds@ == self.ports@.take(i as int).filter(is_open()).map_values(fd_of),
            decreases self.ports.len() - i,
        {
            let port = self.ports[i];
            proof {
                lemma_filter_take_next(self.ports@, is_open(), i as int);
                crate::seq_util::lemma_map_values_push(
                    self.ports@.take(i as int).filter(is_open()),
                    fd_of,
                    port,
                );
            }
            if port.fd() >= 0 {
                fds.push(port.fd());
            }
            i = i + 1;
        }
        proof {
            assert(self.ports@.take(i as int) =~= self.ports@);
        }
        fds
    }
}

} // verus!
