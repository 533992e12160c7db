use tquic::tools::addr::{global_ip_addrs, is_usable_ip, IpAddr, SocketAddr};
use tquic::tools::packet_batch::{advance_batch, start_batch, BatchState, SendOutcome};
use tquic::tools::proto::{
    ApplicationProto, CertCompressionAlgorithm, CertCompressionAlgorithmArg,
};
use tquic::tools::sockaddr::{
    received_datagrams, sockaddr_to_socketaddr, AddrError, RawSockAddr, ReceivedMessage, AF_INET,
    AF_INET6,
};
use tquic::tools::socket_table::SocketTable;

fn v4(a: u8, b: u8, c: u8, d: u8) -> IpAddr {
    IpAddr::V4(u32::from_be_bytes([a, b, c, d]))
}

fn v6(first: u16, last: u16) -> IpAddr {
    IpAddr::V6(((first as u128) << 112) | last as u128)
}

#[test]
fn usable_addresses() {
    assert!(is_usable_ip(v4(192, 168, 1, 2)));
    assert!(is_usable_ip(v4(8, 8, 8, 8)));
    assert!(is_usable_ip(v4(126, 255, 255, 255)));
    assert!(is_usable_ip(v4(128, 0, 0, 1)));
    assert!(is_usable_ip(v4(169, 253, 0, 1)));
    assert!(is_usable_ip(v4(223, 255, 255, 255)));
    assert!(is_usable_ip(v4(240, 0, 0, 1)));
    assert!(is_usable_ip(v4(255, 255, 255, 254)));
    assert!(is_usable_ip(v6(0x2001, 1)));
    assert!(is_usable_ip(v6(0xfec0, 1)));
    assert!(is_usable_ip(v6(0xfe7f, 1)));
    assert!(is_usable_ip(IpAddr::V6(2)));
}

#[test]
fn unusable_addresses() {
    assert!(!is_usable_ip(v4(127, 0, 0, 1)));
    assert!(!is_usable_ip(v4(127, 255, 255, 255)));
    assert!(!is_usable_ip(v4(169, 254, 7, 7)));
    assert!(!is_usable_ip(v4(224, 0, 0, 1)));
    assert!(!is_usable_ip(v4(239, 255, 255, 255)));
    assert!(!is_usable_ip(v4(0, 0, 0, 0)));
    assert!(!is_usable_ip(v4(255, 255, 255, 255)));
    assert!(!is_usable_ip(IpAddr::V6(0)));
    assert!(!is_usable_ip(IpAddr::V6(1)));
    assert!(!is_usable_ip(v6(0xfe80, 1)));
    assert!(!is_usable_ip(v6(0xfebf, 1)));
    assert!(!is_usable_ip(v6(0xff02, 1)));
}

#[test]
fn global_addresses_ascend_without_repetition() {
    let found = vec![
        v6(0x2001, 9),
        v4(10, 0, 0, 2),
        v4(127, 0, 0, 1),
        v4(10, 0, 0, 1),
        v6(0xfe80, 1),
        v6(0x2001, 3),
        v4(10, 0, 0, 2),
        v4(9, 255, 0, 0),
    ];
    let expected = vec![
        v4(9, 255, 0, 0),
        v4(10, 0, 0, 1),
        v4(10, 0, 0, 2),
        v6(0x2001, 3),
        v6(0x2001, 9),
    ];
    assert_eq!(global_ip_addrs(&found), expected);
    let mut reversed = found.clone();
    reversed.reverse();
    assert_eq!(global_ip_addrs(&reversed), expected);
    assert_eq!(global_ip_addrs(&vec![v4(127, 0, 0, 1)]), vec![]);
}

fn raw(family: u16, tail: &[u8]) -> RawSockAddr {
    let mut bytes = [0u8; 128];
    bytes[..2].copy_from_slice(&family.to_ne_bytes());
    bytes[2..2 + tail.len()].copy_from_slice(tail);
    RawSockAddr { family, bytes }
}

#[test]
fn raw_v4_address() {
    let addr = sockaddr_to_socketaddr(&raw(AF_INET, &[0x11, 0x51, 192, 0, 2, 33]));
    assert_eq!(
        addr,
        Ok(SocketAddr::V4 {
            ip: 0xc000_0221,
            port: 4433
        })
    );
}

#[test]
fn raw_v6_address() {
    let mut tail = vec![0x01, 0xbb, 9, 9, 9, 9];
    tail.extend_from_slice(&[0x20, 0x01, 0x0d, 0xb8, 0, 0, 0, 0, 0, 0, 0, 0, 0, 0, 0, 0x2a]);
    tail.extend_from_slice(&[7, 7, 7, 7]);
    assert_eq!(
        sockaddr_to_socketaddr(&raw(AF_INET6, &tail)),
        Ok(SocketAddr::V6 {
            ip: 0x2001_0db8_0000_0000_0000_0000_0000_002a,
            port: 443,
            flowinfo: 0,
            scope_id: 0
        })
    );
    let all = [0xffu8; 22];
    assert_eq!(
        sockaddr_to_socketaddr(&raw(AF_INET6, &all)),
        Ok(SocketAddr::V6 {
            ip: u128::MAX,
            port: u16::MAX,
            flowinfo: 0,
            scope_id: 0
        })
    );
}

#[test]
fn raw_address_of_unknown_family() {
    for family in [0, 1, 3, 9, 11, 0xffff] {
        assert_eq!(
            sockaddr_to_socketaddr(&raw(family, &[0x11, 0x51, 192, 0, 2, 33])),
            Err(AddrError::UnknownFamily)
        );
    }
}

#[test]
fn received_datagrams_are_listed() {
    let local = SocketAddr::V4 { ip: 1, port: 2 };
    let mut messages = vec![
        ReceivedMessage {
            len: 1200,
            sender: raw(AF_INET, &[0, 80, 10, 0, 0, 1]),
        },
        ReceivedMessage {
            len: 0,
            sender: raw(AF_INET, &[0, 81, 10, 0, 0, 2]),
        },
    ];
    let list = received_datagrams(&messages, local).unwrap();
    let sender = |last: u32, port: u16| SocketAddr::V4 {
        ip: 0x0a00_0000 + last,
        port,
    };
    assert_eq!(
        list,
        vec![(1200, local, sender(1, 80)), (0, local, sender(2, 81))]
    );
    messages.push(ReceivedMessage {
        len: 5,
        sender: raw(1, &[]),
    });
    assert_eq!(
        received_datagrams(&messages, local),
        Err(AddrError::UnknownFamily)
    );
    assert_eq!(received_datagrams(&Vec::new(), local), Ok(vec![]));
}

#[test]
fn protocols_and_their_bytes() {
    assert_eq!(ApplicationProto::Interop.to_slice(), b"hq-interop");
    assert_eq!(ApplicationProto::Http09.to_slice(), b"http/0.9");
    assert_eq!(ApplicationProto::H3.to_slice(), b"h3");
    for proto in [
        ApplicationProto::Interop,
        ApplicationProto::Http09,
        ApplicationProto::H3,
    ] {
        assert_eq!(ApplicationProto::from_slice(proto.to_slice()), proto);
    }
    assert_eq!(ApplicationProto::from_slice(b"http/0.9"), ApplicationProto::Http09);
    assert_eq!(ApplicationProto::default(), ApplicationProto::H3);
    assert_eq!(
        ApplicationProto::convert_to_vec(&[ApplicationProto::H3, ApplicationProto::Interop]),
        vec![b"h3".to_vec(), b"hq-interop".to_vec()]
    );
    assert!(ApplicationProto::convert_to_vec(&[]).is_empty());
}

#[test]
fn compression_arguments() {
    let convert = |arg: CertCompressionAlgorithmArg| CertCompressionAlgorithm::from(arg);
    assert_eq!(
        convert(CertCompressionAlgorithmArg::Zlib),
        CertCompressionAlgorithm::Zlib
    );
    assert_eq!(
        convert(CertCompressionAlgorithmArg::Brotli),
        CertCompressionAlgorithm::Brotli
    );
    assert_eq!(
        convert(CertCompressionAlgorithmArg::Zstd),
        CertCompressionAlgorithm::Zstd
    );
}

fn local(port: u16) -> SocketAddr {
    SocketAddr::V4 {
        ip: 0x7f00_0001,
        port,
    }
}

#[test]
fn sockets_are_found_by_token_and_address() {
    let (mut table, token) = SocketTable::new(local(1), 100);
    assert_eq!(token, 0);
    assert_eq!(table.local_addr(), local(1));
    assert_eq!(table.add(local(2), 200), 1);
    assert_eq!(table.add(local(3), 300), 2);
    assert_eq!(table.local_addr(), local(1));
    assert_eq!(table.socket_at(0), Some(100));
    assert_eq!(table.socket_at(2), Some(300));
    assert_eq!(table.socket_at(3), None);
    assert_eq!(table.socket_of(&local(1)), Some(100));
    assert_eq!(table.socket_of(&local(2)), Some(200));
    assert_eq!(table.socket_of(&local(4)), None);
}

#[test]
fn addresses_differ_in_every_part() {
    let base = |ip, port, flowinfo, scope_id| SocketAddr::V6 {
        ip,
        port,
        flowinfo,
        scope_id,
    };
    let (mut table, _) = SocketTable::new(base(1, 1, 0, 0), 1);
    table.add(base(2, 1, 0, 0), 2);
    table.add(base(1, 2, 0, 0), 3);
    table.add(base(1, 1, 1, 0), 4);
    table.add(base(1, 1, 0, 1), 5);
    table.add(SocketAddr::V4 { ip: 1, port: 1 }, 6);
    assert_eq!(table.socket_of(&base(1, 1, 0, 0)), Some(1));
    assert_eq!(table.socket_of(&base(2, 1, 0, 0)), Some(2));
    assert_eq!(table.socket_of(&base(1, 2, 0, 0)), Some(3));
    assert_eq!(table.socket_of(&base(1, 1, 1, 0)), Some(4));
    assert_eq!(table.socket_of(&base(1, 1, 0, 1)), Some(5));
    assert_eq!(table.socket_of(&SocketAddr::V4 { ip: 1, port: 1 }), Some(6));
}

#[test]
fn removed_socket_is_unknown() {
    let (mut table, _) = SocketTable::new(local(1), 100);
    table.add(local(2), 200);
    assert_eq!(table.del(&local(9)), None);
    assert_eq!(table.del(&local(1)), Some(100));
    assert_eq!(table.socket_of(&local(1)), None);
    assert_eq!(table.socket_at(0), None);
    assert_eq!(table.del(&local(1)), None);
    assert_eq!(table.socket_of(&local(2)), Some(200));
    assert_eq!(table.local_addr(), local(1));
}

#[test]
fn token_is_used_again() {
    let (mut table, _) = SocketTable::new(local(1), 100);
    table.add(local(2), 200);
    table.del(&local(1));
    assert_eq!(table.add(local(3), 300), 0);
    assert_eq!(table.socket_of(&local(3)), Some(300));
    // The deleted address does not send on the socket that has its token now.
    assert_eq!(table.socket_of(&local(1)), None);
    assert_eq!(table.del(&local(1)), None);
    assert_eq!(table.socket_of(&local(3)), Some(300));
    assert_eq!(table.socket_of(&local(2)), Some(200));
    // Binding the old address again gives it a token of its own.
    assert_eq!(table.add(local(1), 400), 2);
    assert_eq!(table.socket_of(&local(1)), Some(400));
    assert_eq!(table.socket_of(&local(3)), Some(300));
}

#[test]
fn deleted_address_is_dropped_and_others_stay() {
    let (mut table, _) = SocketTable::new(local(1), 100);
    let token = table.add(local(2), 200);
    assert_eq!(table.del(&local(2)), Some(200));
    assert_eq!(table.socket_of(&local(2)), None);
    assert_eq!(table.socket_of(&local(1)), Some(100));
    assert_eq!(table.add(local(3), 300), token);
    assert_eq!(table.socket_of(&local(2)), None);
    assert_eq!(table.socket_at(token), Some(300));
}

#[test]
fn tokens_given_up_last_are_used_first() {
    let (mut table, _) = SocketTable::new(local(1), 100);
    for port in 2..6 {
        assert_eq!(table.add(local(port), port as u64), port as usize - 1);
    }
    table.del(&local(2));
    table.del(&local(5));
    table.del(&local(3));
    assert_eq!(table.add(local(10), 10), 2);
    assert_eq!(table.add(local(11), 11), 4);
    assert_eq!(table.add(local(12), 12), 1);
    assert_eq!(table.add(local(13), 13), 5);
    assert_eq!(table.add(local(14), 14), 6);
}

fn run_batch(total: usize, outcomes: &[SendOutcome]) -> BatchState {
    let mut state = start_batch(total);
    for outcome in outcomes {
        if let BatchState::Sending { sent } = state {
            state = advance_batch(total, sent, *outcome);
        }
    }
    state
}

#[test]
fn batch_counts_what_was_sent() {
    let sent = SendOutcome::Sent;
    assert_eq!(start_batch(0), BatchState::Finished { sent: 0 });
    assert_eq!(run_batch(3, &[]), BatchState::Sending { sent: 0 });
    assert_eq!(run_batch(3, &[sent, sent]), BatchState::Sending { sent: 2 });
    assert_eq!(
        run_batch(3, &[sent, sent, sent]),
        BatchState::Finished { sent: 3 }
    );
}

#[test]
fn batch_ends_at_the_first_obstacle() {
    let sent = SendOutcome::Sent;
    assert_eq!(
        run_batch(3, &[SendOutcome::WouldBlock]),
        BatchState::Finished { sent: 0 }
    );
    assert_eq!(
        run_batch(3, &[sent, SendOutcome::WouldBlock, SendOutcome::Failed]),
        BatchState::Finished { sent: 1 }
    );
    assert_eq!(
        run_batch(3, &[sent, sent, SendOutcome::Failed, sent]),
        BatchState::Failed
    );
}
