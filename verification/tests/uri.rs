use kymux::uri;
use kymux::uri::{IpAddress, KyComAddr, SocketAddress, UriError};

#[test]
fn parse_ipv4() {
    let port: u16 = 4343;
    let endpoint_id: u16 = 0x0123;

    let uri = format!("kymux://127.0.0.1:{port}/{endpoint_id:X}");
    let addr = KyComAddr::parse(&uri).unwrap();

    assert_eq!(addr.addr.ip, IpAddress::V4([127, 0, 0, 1]));
    assert_eq!(addr.addr.port, port);
    assert_eq!(addr.endpoint_id, endpoint_id);
}

#[test]
fn parse_ipv6() {
    let port: u16 = 4343;
    let endpoint_id: u16 = 0x0123;

    let uri = format!("kymux://[::1]:{port}/{endpoint_id:X}");
    let addr = KyComAddr::parse(&uri).unwrap();

    assert_eq!(addr.addr.ip, IpAddress::V6([0, 0, 0, 0, 0, 0, 0, 1]));
    assert_eq!(addr.addr.port, port);
    assert_eq!(addr.endpoint_id, endpoint_id);
}

#[test]
#[should_panic]
fn lib_invalid_scheme() {
    KyComAddr::parse("tcp://127.0.0.1").unwrap();
}

#[test]
#[should_panic]
fn lib_invalid_host() {
    KyComAddr::parse("kymux://127.0.1:4343/abcd").unwrap();
}

#[test]
#[should_panic]
fn invalid_port_1() {
    KyComAddr::parse("kymux://127.0.0.1/abcd").unwrap();
}

#[test]
#[should_panic]
fn invalid_port_2() {
    KyComAddr::parse("kymux://127.0.0.1:aa/abcd").unwrap();
}

#[test]
#[should_panic]
fn invalid_endpoint_1() {
    KyComAddr::parse("kymux://127.0.0.1:4343").unwrap();
}

#[test]
#[should_panic]
fn invalid_endpoint_2() {
    KyComAddr::parse("kymux://127.0.0.1:4343//").unwrap();
}

#[test]
#[should_panic]
fn invalid_endpoint_3() {
    KyComAddr::parse("kymux://127.0.0.1:4343//1234").unwrap();
}

#[test]
#[should_panic]
fn invalid_endpoint_4() {
    KyComAddr::parse("kymux://127.0.0.1:4343/io").unwrap();
}

#[test]
fn parse_uri() {
    let port: u16 = 4343;
    let endpoint_id: u16 = 0x0123;

    let uri = format!("kymux://127.0.0.1:{port}/{endpoint_id:X}");
    let (addr, parsed_endpoint_id) = kymux::uri::parse_uri(&uri).unwrap();

    assert_eq!(addr.ip, IpAddress::V4([127, 0, 0, 1]));
    assert_eq!(addr.port, port);
    assert_eq!(parsed_endpoint_id, endpoint_id);
}

#[test]
fn invalid_scheme() {
    assert_eq!(uri::parse_uri("tcp://127.0.0.1"), Err(UriError::InvalidUri));
}

#[test]
fn invalid_host() {
    assert_eq!(uri::parse_uri("kymux://127.0.1:4343/abcd"), Err(UriError::InvalidUri));
}

#[test]
fn invalid_port() {
    assert_eq!(uri::parse_uri("kymux://127.0.0.1/abcd"), Err(UriError::InvalidUri));
    assert_eq!(uri::parse_uri("kymux://127.0.0.1:aa/abcd"), Err(UriError::InvalidUri));
}

#[test]
fn invalid_endpoint() {
    assert_eq!(uri::parse_uri("kymux://127.0.0.1:4343"), Err(UriError::InvalidUri));
    assert_eq!(uri::parse_uri("kymux://127.0.0.1:4343///"), Err(UriError::InvalidUri));
    assert_eq!(uri::parse_uri("kymux://127.0.0.1:4343//1234"), Err(UriError::InvalidUri));
    assert_eq!(uri::parse_uri("kymux://127.0.0.1:4343/io"), Err(UriError::InvalidUri));
}

#[test]
fn ipv4_text_is_read_strictly() {
    assert_eq!(uri::parse_ipv4("192.168.1.254"), Some([192, 168, 1, 254]));
    assert_eq!(uri::parse_ipv4("0.0.0.0"), Some([0, 0, 0, 0]));
    assert_eq!(uri::parse_ipv4("256.0.0.1"), None);
    assert_eq!(uri::parse_ipv4("01.0.0.1"), None);
    assert_eq!(uri::parse_ipv4("1.2.3"), None);
    assert_eq!(uri::parse_ipv4("1.2.3.4.5"), None);
    assert_eq!(uri::parse_ipv4("1..3.4"), None);
    assert_eq!(uri::parse_ipv4("1.2.3.4 "), None);
    assert_eq!(uri::parse_ipv4("1000.2.3.4"), None);
}

#[test]
fn endpoint_ids_are_hexadecimal_of_either_case() {
    let addr = KyComAddr::parse("kymux://10.1.2.3:80/aBcD").unwrap();
    assert_eq!(
        addr,
        KyComAddr::new(
            SocketAddress {
                ip: IpAddress::V4([10, 1, 2, 3]),
                port: 80
            },
            0xabcd
        )
    );
    assert!(KyComAddr::parse("kymux://10.1.2.3:80/10000").is_err());
}

#[test]
fn refused_addresses_are_invalid_data() {
    for url in [
        "tcp://127.0.0.1",
        "kymux://127.0.1:4343/abcd",
        "kymux://127.0.0.1/abcd",
        "kymux://127.0.0.1:aa/abcd",
        "kymux://127.0.0.1:4343",
        "kymux://127.0.0.1:4343//",
        "kymux://127.0.0.1:4343//1234",
        "kymux://127.0.0.1:4343/io",
    ] {
        let err = KyComAddr::parse(url).unwrap_err();
        assert_eq!(err.kind(), std::io::ErrorKind::InvalidData);
    }
    // Text that is not a URL carries the URL parser's own message.
    let err = KyComAddr::parse("kymux://127.0.0.1:aa/abcd").unwrap_err();
    assert_eq!(err.to_string(), "invalid port number");
}

fn v6(g: [u16; 8], port: u16, endpoint_id: u16) -> KyComAddr {
    KyComAddr::new(SocketAddress { ip: IpAddress::V6(g), port }, endpoint_id)
}

#[test]
fn urls_write_addresses_as_std_does() {
    let a = KyComAddr::new(
        SocketAddress { ip: IpAddress::V4([127, 0, 0, 1]), port: 4343 },
        0x0123,
    );
    assert_eq!(a.url(), "kymux://127.0.0.1:4343/123");
    assert_eq!(KyComAddr::parse(&a.url()).unwrap(), a);
    assert_eq!(v6([0, 0, 0, 0, 0, 0, 0, 1], 4343, 0xabcd).url(), "kymux://[::1]:4343/ABCD");
    assert_eq!(
        v6([0x2001, 0xdb8, 0, 0, 1, 0, 0, 1], 1, 0).url(),
        "kymux://[2001:db8::1:0:0:1]:1/0"
    );
    assert_eq!(
        v6([0, 0, 0, 0, 0, 0xffff, 0xc000, 0x0280], 80, 0xf).url(),
        "kymux://[::ffff:192.0.2.128]:80/F"
    );
    assert_eq!(v6([1, 0, 2, 0, 3, 0, 4, 0], 9, 1).url(), "kymux://[1:0:2:0:3:0:4:0]:9/1");
    assert_eq!(v6([0; 8], 65535, 65535).url(), "kymux://[::]:65535/FFFF");
    assert_eq!(v6([1, 0, 0, 2, 0, 0, 0, 3], 2, 2).url(), "kymux://[1:0:0:2::3]:2/2");
}
