use omni_ping::wire::{parse_socket_addr, reply_to_ping, socket_addr_to_bytes, AddrParseError, SockAddr};

#[test]
fn encodes_ipv4_address_with_tag_and_big_endian_port() {
    let a = SockAddr::V4([192, 168, 1, 20], 51800);
    let b = socket_addr_to_bytes(&a);
    assert_eq!(&b[..], &[0u8, 192, 168, 1, 20, 0xCA, 0x58][..]);
}

#[test]
fn encodes_ipv6_address_with_tag_and_big_endian_port() {
    let mut ip = [0u8; 16];
    ip[0] = 0x20;
    ip[1] = 0x01;
    ip[15] = 1;
    let b = socket_addr_to_bytes(&SockAddr::V6(ip, 443));
    assert_eq!(b.len(), 19);
    assert_eq!(b[0], 1);
    assert_eq!(&b[1..17], &ip[..]);
    assert_eq!(&b[17..], &[1u8, 187][..]);
}

#[test]
fn parses_ipv4_and_ipv6_addresses() {
    let v4 = parse_socket_addr(&[0, 10, 0, 0, 7, 0x1F, 0x90]).unwrap();
    assert_eq!(v4, SockAddr::V4([10, 0, 0, 7], 8080));
    let mut d = vec![1u8];
    d.extend_from_slice(&[0xfe, 0x80, 0, 0, 0, 0, 0, 0, 0, 0, 0, 0, 0, 0, 0, 2]);
    d.extend_from_slice(&[0, 80]);
    let v6 = parse_socket_addr(&d).unwrap();
    assert_eq!(v6, SockAddr::V6([0xfe, 0x80, 0, 0, 0, 0, 0, 0, 0, 0, 0, 0, 0, 0, 0, 2], 80));
}

#[test]
fn rejects_bytes_of_wrong_tag_or_length() {
    assert_eq!(parse_socket_addr(&[0, 1, 2, 3]), Err(AddrParseError::InvalidSocketAddrBytes));
    assert_eq!(parse_socket_addr(&[1, 1, 2, 3, 4, 5, 6]), Err(AddrParseError::InvalidSocketAddrBytes));
    assert_eq!(parse_socket_addr(&[2, 1, 2, 3, 4, 5, 6]), Err(AddrParseError::InvalidSocketAddrBytes));
    assert_eq!(parse_socket_addr(&[0; 19]), Err(AddrParseError::InvalidSocketAddrBytes));
}

#[test]
fn encoding_then_parsing_gives_the_address_back() {
    let addrs = [
        SockAddr::V4([127, 0, 0, 1], 0),
        SockAddr::V4([255, 255, 255, 255], 65535),
        SockAddr::V6([9; 16], 1234),
    ];
    for a in addrs {
        let b = socket_addr_to_bytes(&a);
        assert_eq!(parse_socket_addr(&b[..]), Ok(a));
    }
}

#[test]
fn server_echoes_address_when_asked() {
    let peer = SockAddr::V4([203, 0, 113, 5], 40000);
    let r = reply_to_ping(&[1], &peer).unwrap();
    assert_eq!(&r[..], &[1u8, 0, 203, 0, 113, 5, 0x9C, 0x40][..]);
}

#[test]
fn server_answers_plain_ping_with_zero_one() {
    let peer = SockAddr::V4([203, 0, 113, 5], 40000);
    let r = reply_to_ping(&[0], &peer).unwrap();
    assert_eq!(&r[..], &[0u8, 1][..]);
    let r = reply_to_ping(&[7, 1, 1], &peer).unwrap();
    assert_eq!(&r[..], &[0u8, 1][..]);
}

#[test]
fn server_ignores_empty_datagram() {
    let peer = SockAddr::V6([0; 16], 1);
    assert!(reply_to_ping(&[], &peer).is_none());
}

#[test]
fn parsing_then_encoding_gives_the_bytes_back() {
    let inputs: Vec<Vec<u8>> = vec![
        vec![0, 1, 2, 3, 4, 0xFF, 0x01],
        {
            let mut d = vec![1u8];
            d.extend((0..16).map(|i| i as u8 * 3));
            d.extend([0x12, 0x34]);
            d
        },
    ];
    for d in inputs {
        let a = parse_socket_addr(&d).unwrap();
        assert_eq!(&socket_addr_to_bytes(&a)[..], &d[..]);
    }
}
