use zbus::{Address, Error, TcpAddress, TcpAddressFamily};

#[test]
fn parse_dbus_addresses() {
    match Address::from_str("").unwrap_err() {
        Error::Address(e) => assert_eq!(e, "address has no colon"),
        _ => panic!(),
    }
    match Address::from_str("foo").unwrap_err() {
        Error::Address(e) => assert_eq!(e, "address has no colon"),
        _ => panic!(),
    }
    match Address::from_str("foo:opt").unwrap_err() {
        Error::Address(e) => assert_eq!(e, "missing = when parsing key/value"),
        _ => panic!(),
    }
    match Address::from_str("foo:opt=1,opt=2").unwrap_err() {
        Error::Address(e) => assert_eq!(e, "Key `opt` specified multiple times"),
        _ => panic!(),
    }
    match Address::from_str("tcp:host=localhost").unwrap_err() {
        Error::Address(e) => assert_eq!(e, "tcp address is missing `port`"),
        _ => panic!(),
    }
    match Address::from_str("tcp:host=localhost,port=32f").unwrap_err() {
        Error::Address(e) => assert_eq!(e, "invalid tcp `port`"),
        _ => panic!(),
    }
    match Address::from_str("tcp:host=localhost,port=123,family=ipv7").unwrap_err() {
        Error::Address(e) => assert_eq!(e, "invalid tcp address `family`: ipv7"),
        _ => panic!(),
    }
    match Address::from_str("unix:foo=blah").unwrap_err() {
        Error::Address(e) => assert_eq!(e, "unix address is missing path or abstract"),
        _ => panic!(),
    }
    match Address::from_str("unix:path=/tmp,abstract=foo").unwrap_err() {
        Error::Address(e) => {
            assert_eq!(e, "`path` and `abstract` cannot be specified together")
        }
        _ => panic!(),
    }
    assert_eq!(
        Address::Unix("/tmp/dbus-foo".into()),
        Address::from_str("unix:path=/tmp/dbus-foo").unwrap()
    );
    assert_eq!(
        Address::Unix("/tmp/dbus-foo".into()),
        Address::from_str("unix:path=/tmp/dbus-foo,guid=123").unwrap()
    );
    assert_eq!(
        Address::Tcp(TcpAddress {
            host: "localhost".into(),
            port: 4142,
            bind: None,
            family: None
        }),
        Address::from_str("tcp:host=localhost,port=4142").unwrap()
    );
    assert_eq!(
        Address::Tcp(TcpAddress {
            host: "localhost".into(),
            port: 4142,
            bind: None,
            family: Some(TcpAddressFamily::Ipv4)
        }),
        Address::from_str("tcp:host=localhost,port=4142,family=ipv4").unwrap()
    );
    assert_eq!(
        Address::Tcp(TcpAddress {
            host: "localhost".into(),
            port: 4142,
            bind: None,
            family: Some(TcpAddressFamily::Ipv6)
        }),
        Address::from_str("tcp:host=localhost,port=4142,family=ipv6").unwrap()
    );
}

#[test]
fn abstract_socket_gets_leading_nul() {
    assert_eq!(
        Address::Unix("\u{0}foo".into()),
        Address::from_str("unix:abstract=foo").unwrap()
    );
}

#[test]
fn bind_is_rejected() {
    match Address::from_str("tcp:host=h,port=1,bind=x").unwrap_err() {
        Error::Address(e) => assert_eq!(e, "`bind` isn't yet supported"),
        _ => panic!(),
    }
}

#[test]
fn unsupported_transport_message_names_it() {
    match Address::from_str("quux:opt=1").unwrap_err() {
        Error::Address(e) => assert_eq!(e, "unsupported transport 'quux'"),
        _ => panic!(),
    }
}

#[test]
fn tcp_getters_return_the_parts() {
    match Address::from_str("tcp:host=localhost,port=4142,family=ipv6").unwrap() {
        Address::Tcp(t) => {
            assert_eq!(t.host(), "localhost");
            assert_eq!(t.port(), 4142);
            assert_eq!(t.bind(), None);
            assert_eq!(t.family(), Some(TcpAddressFamily::Ipv6));
        }
        _ => panic!(),
    }
}

#[test]
fn tcp_port_bounds() {
    assert!(Address::from_str("tcp:host=h,port=65535").is_ok());
    match Address::from_str("tcp:host=h,port=65536").unwrap_err() {
        Error::Address(e) => assert_eq!(e, "invalid tcp `port`"),
        _ => panic!(),
    }
    assert_eq!(
        Address::Tcp(TcpAddress { host: "h".into(), port: 7, bind: None, family: None }),
        Address::from_str("tcp:host=h,port=+7").unwrap()
    );
}

#[test]
fn session_follows_environment_then_runtime_dir_then_uid() {
    assert_eq!(
        Address::Unix("/tmp/x".into()),
        Address::session_from(Some("unix:path=/tmp/x"), Some("/ignored"), 42).unwrap()
    );
    assert_eq!(
        Address::Unix("/run/user/42/bus".into()),
        Address::session_from(None, None, 42).unwrap()
    );
    assert_eq!(
        Address::Unix("/rt/bus".into()),
        Address::session_from(None, Some("/rt"), 42).unwrap()
    );
}

#[test]
fn system_falls_back_to_the_conventional_socket() {
    assert_eq!(
        Address::Unix("/var/run/dbus/system_bus_socket".into()),
        Address::system_from(None).unwrap()
    );
    assert_eq!(
        Address::Unix("/s".into()),
        Address::system_from(Some("unix:path=/s")).unwrap()
    );
}
