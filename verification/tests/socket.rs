use process1::socket_config::{ExecCommand, SocketCommand, SocketConfig, SocketConfigData};
use process1::socket_port::{
    AddressFamily, PortClose, PortType, SockType, SocketAddress, SocketPort, SocketPorts,
};

#[test]
fn test_socket_ports() {
    let mut ports = SocketPorts::new();
    let socket_addr = SocketAddress::new(AddressFamily::Inet, SockType::Stream, false);

    let mut p = SocketPort::new(socket_addr);
    p.set_sc_type(PortType::Socket);

    let mut port = p;
    ports.push_port(port);

    assert_eq!(ports.ports().len(), 1);
    assert_eq!(ports.no_accept_socket(), false);
    assert_eq!(ports.collect_fds().len(), 0);

    assert_eq!(port.fd(), -1);

    assert!(port.open_port());
    port.opened(31457);

    assert_ne!(port.fd(), -1);

    port.close();
    ports.clear_ports();

    assert_eq!(ports.ports().len(), 0);
}

#[test]
fn open_ports_are_collected_in_order() {
    let mut ports = SocketPorts::new();
    let stream = SocketAddress::new(AddressFamily::Unix, SockType::Stream, true);
    let datagram = SocketAddress::new(AddressFamily::Inet, SockType::Datagram, false);
    let mut a = SocketPort::new(stream);
    a.set_sc_type(PortType::Socket);
    a.opened(7);
    let mut b = SocketPort::new(stream);
    b.set_sc_type(PortType::Socket);
    let mut c = SocketPort::new(datagram);
    c.set_sc_type(PortType::Socket);
    c.opened(0);
    ports.push_port(a);
    ports.push_port(b);
    assert!(!ports.no_accept_socket());
    ports.push_port(c);
    assert!(ports.no_accept_socket());
    assert_eq!(ports.collect_fds(), vec![7, 0]);
}

#[test]
fn port_that_is_no_socket_accepts_nothing() {
    let mut ports = SocketPorts::new();
    let stream = SocketAddress::new(AddressFamily::Unix, SockType::Stream, true);
    ports.push_port(SocketPort::new(stream));
    assert!(ports.no_accept_socket());
}

#[test]
fn close_says_what_to_do() {
    let path = SocketAddress::new(AddressFamily::Unix, SockType::Stream, true);
    let mut port = SocketPort::new(path);
    port.set_sc_type(PortType::Socket);
    assert_eq!(port.close(), None);
    port.opened(9);
    assert!(!port.open_port());
    assert_eq!(port.close(), Some(PortClose { fd: 9, unlink: true }));
    assert_eq!(port.fd(), -1);
    let net = SocketAddress::new(AddressFamily::Inet, SockType::Stream, false);
    let mut port = SocketPort::new(net);
    port.set_sc_type(PortType::Socket);
    port.opened(3);
    assert_eq!(port.close(), Some(PortClose { fd: 3, unlink: false }));
    assert_eq!(port.family(), AddressFamily::Inet);
}

#[test]
fn accept_is_wanted_on_a_stream_socket_that_is_told_to() {
    let stream = SocketAddress::new(AddressFamily::Inet, SockType::Stream, false);
    let mut port = SocketPort::new(stream);
    assert!(!port.accept_wanted(Some(true)));
    port.set_sc_type(PortType::Socket);
    assert!(port.accept_wanted(Some(true)));
    assert!(!port.accept_wanted(Some(false)));
    assert!(!port.accept_wanted(None));
    let datagram = SocketAddress::new(AddressFamily::Inet, SockType::Datagram, false);
    let mut port = SocketPort::new(datagram);
    port.set_sc_type(PortType::Socket);
    assert!(!port.can_accept());
    assert!(!port.accept_wanted(Some(true)));
}

#[test]
fn new_config_sets_nothing() {
    let config = SocketConfig::new();
    assert!(config.get_exec_cmds(SocketCommand::StartPre).is_none());
    assert!(config.get_exec_cmds(SocketCommand::StopPost).is_none());
    assert!(config.config_data().Socket.ListenStream.is_none());
}

#[test]
fn exec_cmds_are_found_by_their_point() {
    let mut data = SocketConfigData::empty();
    data.Socket.ExecStartPost = Some(vec![ExecCommand::new(
        String::from("/bin/true"),
        vec![String::from("-v"), String::from("x")],
    )]);
    data.Socket.ExecStopPre = Some(Vec::new());
    let mut config = SocketConfig::new();
    config.set(data);
    assert!(config.get_exec_cmds(SocketCommand::StartPre).is_none());
    assert!(config.get_exec_cmds(SocketCommand::StartChown).is_none());
    let post = config.get_exec_cmds(SocketCommand::StartPost).unwrap();
    assert_eq!(post.len(), 1);
    assert_eq!(post[0].path, "/bin/true");
    assert_eq!(post[0].argv, vec![String::from("-v"), String::from("x")]);
    assert_eq!(config.get_exec_cmds(SocketCommand::StopPre).unwrap().len(), 0);
    assert!(config.get_exec_cmds(SocketCommand::StopPost).is_none());
}
