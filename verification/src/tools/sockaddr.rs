//! Socket addresses as the Linux kernel lays them out in memory.

use vstd::arithmetic::div_mod::lemma_div_denominator;
use vstd::prelude::*;

use crate::tools::addr::SocketAddr;

verus! {

/// The address family of IPv4 on Linux.
pub const AF_INET: u16 = 2;

/// The address family of IPv6 on Linux.
pub const AF_INET6: u16 = 10;

/// Why a raw address cannot be read.
#[derive(Clone, Copy, Debug, PartialEq, Eq, Structural)]
pub enum AddrError {
    /// Its address family is neither IPv4 nor IPv6.
    UnknownFamily,
}

/// A raw address: its family, and the 128 bytes of the address structure, the
/// first two of which hold the family again.
#[derive(Clone, Copy, Debug)]
pub struct RawSockAddr {
    pub family: u16,
    pub bytes: [u8; 128],
}

/// One datagram of a batch: how many bytes it has, and who sent it.
#[derive(Clone, Copy, Debug)]
pub struct ReceivedMessage {
    pub len: u32,
    pub sender: RawSockAddr,
}

/// The number that bytes spell in network order.
pub open spec fn network_value(bytes: Seq<u8>) -> int
    decreases bytes.len(),
{
    if bytes.len() == 0 {
        0
    } else {
        network_value(bytes.drop_last()) * 256 + bytes.last()
    }
}

/// The address that a raw address stands for. The port follows the family; the
/// IPv4 address stands right behind it, the IPv6 address behind four bytes of
/// flow information, which are left out as the scope is.
pub open spec fn decoded(raw: RawSockAddr) -> Result<SocketAddr, AddrError> {
    let port = network_value(raw.bytes@.subrange(2, 4)) as u16;
    if raw.family == AF_INET {
        Ok(SocketAddr::V4 { ip: network_value(raw.bytes@.subrange(4, 8)) as u32, port })
    } else if raw.family == AF_INET6 {
        Ok(
            SocketAddr::V6 {
                ip: network_value(raw.bytes@.subrange(8, 24)) as u128,
                port,
                flowinfo: 0,
                scope_id: 0,
            },
        )
    } else {
        Err(AddrError::UnknownFamily)
    }
}

/// 256 to the power of `n`.
spec fn byte_range(n: nat) -> int
    decreases n,
{
    if n == 0 {
        1
    } else {
        byte_range((n - 1) as nat) * 256
    }
}

proof fn lemma_byte_range(n: nat)
    requires
        n <= 16,
    ensures
        byte_range(n) <= 0x1_0000_0000_0000_0000_0000_0000_0000_0000,
        n <= 4 ==> byte_range(n) <= 0x1_0000_0000,
        n <= 2 ==> byte_range(n) <= 0x1_0000,
{
    reveal_with_fuel(byte_range, 17);
}

proof fn lemma_network_value_range(bytes: Seq<u8>)
    ensures
        0 <= network_value(bytes) < byte_range(bytes.len()),
    decreases bytes.len(),
{
    if bytes.len() > 0 {
        lemma_network_value_range(bytes.drop_last());
    }
}

/// Reads the number that some of the bytes spell in network order.
fn read_network(bytes: &[u8; 128], from: usize, to: usize) -> (r: u128)
    requires
        from <= to <= 128,
        to - from <= 16,
    ensures
        r == network_value(bytes@.subrange(from as int, to as int)),
        to - from == 2 ==> r <= u16::MAX,
        to - from == 4 ==> r <= u32::MAX,
{
    let mut value: u128 = 0;
    let mut i: usize = from;
    while i < to
        invariant
            from <= i <= to <= 128,
            to - from <= 16,
            value == network_value(bytes@.subrange(from as int, i as int)),
        decreases to - i,
    {
        proof {
            let next = bytes@.subrange(from as int, i + 1);
            assert(next.drop_last() =~= bytes@.subrange(from as int, i as int));
            assert(next.last() == bytes@[i as int]);
            lemma_network_value_range(next);
            lemma_byte_range(next.len());
        }
        value = value * 256 + bytes[i] as u128;
        i += 1;
    }
    proof {
        lemma_network_value_range(bytes@.subrange(from as int, to as int));
        lemma_byte_range((to - from) as nat);
    }
    value
}

/// Two bytes spell the port.
proof fn lemma_port(raw: RawSockAddr)
    ensures
        network_value(raw.bytes@.subrange(2, 4)) == raw.bytes@[2] * 0x100 + raw.bytes@[3],
{
    reveal_with_fuel(network_value, 3);
    let s = raw.bytes@.subrange(2, 4);
    assert(s.drop_last().drop_last().len() == 0);
}

/// Four bytes spell an IPv4 address.
proof fn lemma_v4(raw: RawSockAddr)
    ensures
        network_value(raw.bytes@.subrange(4, 8)) == raw.bytes@[4] * 0x100_0000 + raw.bytes@[5]
            * 0x1_0000 + raw.bytes@[6] * 0x100 + raw.bytes@[7],
{
    reveal_with_fuel(network_value, 5);
    let s = raw.bytes@.subrange(4, 8);
    assert(s.drop_last().drop_last().drop_last().drop_last().len() == 0);
}

/// The bytes of a number in network order spell that number.
proof fn lemma_network_value_of_digits(bytes: Seq<u8>, value: int)
    requires
        0 <= value < byte_range(bytes.len()),
        forall|k: int|
            0 <= k < bytes.len() ==> #[trigger] bytes[k] == (value / byte_range(
                (bytes.len() - 1 - k) as nat,
            )) % 256,
    ensures
        network_value(bytes) == value,
    decreases bytes.len(),
{
    if bytes.len() > 0 {
        let n = bytes.len();
        let fewer = bytes.drop_last();
        assert(0 <= value / 256 < byte_range((n - 1) as nat));
        assert forall|k: int| 0 <= k < fewer.len() implies #[trigger] fewer[k] == (value / 256
            / byte_range((fewer.len() - 1 - k) as nat)) % 256 by {
            let low = byte_range((fewer.len() - 1 - k) as nat);
            assert(bytes[k] == (value / byte_range((n - 1 - k) as nat)) % 256);
            assert(byte_range((n - 1 - k) as nat) == low * 256);
            lemma_byte_range_positive((fewer.len() - 1 - k) as nat);
            lemma_div_denominator(value, 256, low);
            assert(256 * low == low * 256);
        }
        lemma_network_value_of_digits(fewer, value / 256);
        assert(byte_range(0) == 1);
        assert(bytes[n - 1] == (value / byte_range(0)) % 256);
    }
}

proof fn lemma_byte_range_positive(n: nat)
    ensures
        byte_range(n) > 0,
    decreases n,
{
    if n > 0 {
        lemma_byte_range_positive((n - 1) as nat);
    }
}

/// Law: a raw IPv4 address decodes to what the kernel wrote into it. The family is
/// 2, two bytes with the port follow it, and four with the address, the upper
/// bytes first.
pub proof fn law_v4_decodes_as_written(raw: RawSockAddr, ip: u32, port: u16)
    requires
        raw.family == 2,
        raw.bytes@[2] == port / 256,
        raw.bytes@[3] == port % 256,
        raw.bytes@[4] == ip / 0x100_0000,
        raw.bytes@[5] == (ip / 0x1_0000) % 256,
        raw.bytes@[6] == (ip / 0x100) % 256,
        raw.bytes@[7] == ip % 256,
    ensures
        decoded(raw) == Ok::<SocketAddr, AddrError>(SocketAddr::V4 { ip, port }),
{
    lemma_port(raw);
    lemma_v4(raw);
}

/// Law: a raw IPv6 address decodes to what the kernel wrote into it. The family is
/// 10, two bytes with the port follow it, four with flow information that is left
/// out, and sixteen with the address, the upper bytes first.
pub proof fn law_v6_decodes_as_written(raw: RawSockAddr, ip: u128, port: u16)
    requires
        raw.family == 10,
        raw.bytes@[2] == port / 256,
        raw.bytes@[3] == port % 256,
        raw.bytes@[8] == ip / 0x100_0000_0000_0000_0000_0000_0000_0000,
        raw.bytes@[9] == (ip / 0x1_0000_0000_0000_0000_0000_0000_0000) % 256,
        raw.bytes@[10] == (ip / 0x100_0000_0000_0000_0000_0000_0000) % 256,
        raw.bytes@[11] == (ip / 0x1_0000_0000_0000_0000_0000_0000) % 256,
        raw.bytes@[12] == (ip / 0x100_0000_0000_0000_0000_0000) % 256,
        raw.bytes@[13] == (ip / 0x1_0000_0000_0000_0000_0000) % 256,
        raw.bytes@[14] == (ip / 0x100_0000_0000_0000_0000) % 256,
        raw.bytes@[15] == (ip / 0x1_0000_0000_0000_0000) % 256,
        raw.bytes@[16] == (ip / 0x100_0000_0000_0000) % 256,
        raw.bytes@[17] == (ip / 0x1_0000_0000_0000) % 256,
        raw.bytes@[18] == (ip / 0x100_0000_0000) % 256,
        raw.bytes@[19] == (ip / 0x1_0000_0000) % 256,
        raw.bytes@[20] == (ip / 0x100_0000) % 256,
        raw.bytes@[21] == (ip / 0x1_0000) % 256,
        raw.bytes@[22] == (ip / 0x100) % 256,
        raw.bytes@[23] == ip % 256,
    ensures
        decoded(raw) == Ok::<SocketAddr, AddrError>(
            SocketAddr::V6 { ip, port, flowinfo: 0, scope_id: 0 },
        ),
{
    lemma_port(raw);
    let s = raw.bytes@.subrange(8, 24);
    reveal_with_fuel(byte_range, 17);
    assert forall|k: int| 0 <= k < s.len() implies #[trigger] s[k] == (ip as int / byte_range(
        (s.len() - 1 - k) as nat,
    )) % 256 by {
        assert(s[k] == raw.bytes@[8 + k]);
        assert(k == 0 || k == 1 || k == 2 || k == 3 || k == 4 || k == 5 || k == 6 || k == 7 || k
            == 8 || k == 9 || k == 10 || k == 11 || k == 12 || k == 13 || k == 14 || k == 15);
    }
    lemma_network_value_of_digits(s, ip as int);
}

/// Law: only families 2 and 10 can be read.
pub proof fn law_other_families_are_refused(raw: RawSockAddr)
    ensures
        raw.family != 2 && raw.family != 10 <==> decoded(raw) is Err,
        decoded(raw) is Err ==> decoded(raw) == Err::<SocketAddr, AddrError>(
            AddrError::UnknownFamily,
        ),
{
}

/// Law: two raw addresses of a family decode alike only where the bytes of the
/// port and of the address are the same, so that no two senders are taken for
/// one another. No other bytes matter.
pub proof fn law_decoding_tells_senders_apart(a: RawSockAddr, b: RawSockAddr)
    ensures
        a.family == 2 && b.family == 2 ==> (decoded(a) == decoded(b) <==> forall|k: int|
            2 <= k < 8 ==> #[trigger] a.bytes@[k] == b.bytes@[k]),
        a.family == 10 && b.family == 10 ==> (decoded(a) == decoded(b) <==> (forall|k: int|
            (2 <= k < 4 || 8 <= k < 24) ==> #[trigger] a.bytes@[k] == b.bytes@[k])),
        a.family == 2 && b.family == 10 ==> decoded(a) != decoded(b),
{
    lemma_port(a);
    lemma_port(b);
    lemma_v4(a);
    lemma_v4(b);
    assert((forall|k: int| 2 <= k < 8 ==> #[trigger] a.bytes@[k] == b.bytes@[k]) <==> {
        &&& a.bytes@[2] == b.bytes@[2]
        &&& a.bytes@[3] == b.bytes@[3]
        &&& a.bytes@[4] == b.bytes@[4]
        &&& a.bytes@[5] == b.bytes@[5]
        &&& a.bytes@[6] == b.bytes@[6]
        &&& a.bytes@[7] == b.bytes@[7]
    }) by {
        assert forall|k: int|
            a.bytes@[2] == b.bytes@[2] && a.bytes@[3] == b.bytes@[3] && a.bytes@[4] == b.bytes@[4]
                && a.bytes@[5] == b.bytes@[5] && a.bytes@[6] == b.bytes@[6] && a.bytes@[7]
                == b.bytes@[7] && 2 <= k < 8 implies #[trigger] a.bytes@[k] == b.bytes@[k] by {
            assert(k == 2 || k == 3 || k == 4 || k == 5 || k == 6 || k == 7);
        }
    }
    let s = a.bytes@.subrange(8, 24);
    let t = b.bytes@.subrange(8, 24);
    lemma_network_value_injective(s, t);
    lemma_network_value_range(s);
    lemma_network_value_range(t);
    lemma_byte_range(16);
    if a.family == 10 && b.family == 10 {
        if decoded(a) == decoded(b) {
            assert(a.bytes@[2] == b.bytes@[2] && a.bytes@[3] == b.bytes@[3]);
            assert(s == t);
            assert forall|k: int| (2 <= k < 4 || 8 <= k < 24) implies #[trigger] a.bytes@[k]
                == b.bytes@[k] by {
                if k >= 8 {
                    assert(s[k - 8] == t[k - 8]);
                } else {
                    assert(k == 2 || k == 3);
                }
            }
        }
        if forall|k: int| (2 <= k < 4 || 8 <= k < 24) ==> #[trigger] a.bytes@[k] == b.bytes@[k] {
            assert(a.bytes@[2] == b.bytes@[2] && a.bytes@[3] == b.bytes@[3]);
            assert forall|k: int| 0 <= k < 16 implies #[trigger] s[k] == t[k] by {
                assert(a.bytes@[k + 8] == b.bytes@[k + 8]);
            }
            assert(s =~= t);
        }
    }
}

proof fn lemma_network_value_injective(a: Seq<u8>, b: Seq<u8>)
    requires
        a.len() == b.len(),
    ensures
        network_value(a) == network_value(b) ==> a == b,
    decreases a.len(),
{
    if a.len() > 0 {
        lemma_network_value_injective(a.drop_last(), b.drop_last());
        if network_value(a) == network_value(b) {
            assert(a.last() == b.last());
            assert(a =~= a.drop_last().push(a.last()));
            assert(b =~= b.drop_last().push(b.last()));
        }
    } else {
        assert(a =~= b);
    }
}

/// Reads a socket address out of its raw form.
pub fn sockaddr_to_socketaddr(raw: &RawSockAddr) -> (r: Result<SocketAddr, AddrError>)
    ensures
        r == decoded(*raw),
        raw.family == 2 ==> (r matches Ok(SocketAddr::V4 { ip, port }) && port == raw.bytes@[2]
            * 0x100 + raw.bytes@[3] && ip == raw.bytes@[4] * 0x100_0000 + raw.bytes@[5] * 0x1_0000
            + raw.bytes@[6] * 0x100 + raw.bytes@[7]),
        raw.family == 10 ==> (r matches Ok(SocketAddr::V6 { port, flowinfo, scope_id, .. })
            && port == raw.bytes@[2] * 0x100 + raw.bytes@[3] && flowinfo == 0 && scope_id == 0),
        raw.family != 2 && raw.family != 10 ==> r == Err::<SocketAddr, AddrError>(
            AddrError::UnknownFamily,
        ),
{
    proof {
        lemma_port(*raw);
        lemma_v4(*raw);
    }
    if raw.family == AF_INET {
        let port: u16 = read_network(&raw.bytes, 2, 4) as u16;
        let ip: u32 = read_network(&raw.bytes, 4, 8) as u32;
        Ok(SocketAddr::V4 { ip, port })
    } else if raw.family == AF_INET6 {
        let port: u16 = read_network(&raw.bytes, 2, 4) as u16;
        let ip: u128 = read_network(&raw.bytes, 8, 24);
        Ok(SocketAddr::V6 { ip, port, flowinfo: 0, scope_id: 0 })
    } else {
        Err(AddrError::UnknownFamily)
    }
}

/// Lists a batch of datagrams that arrived at the address `local`: for each its
/// length, `local` and the sender. Fails where a sender cannot be read.
pub fn received_datagrams(messages: &Vec<ReceivedMessage>, local: SocketAddr) -> (r: Result<
    Vec<(usize, SocketAddr, SocketAddr)>,
    AddrError,
>)
    ensures
        match r {
            Ok(list) => {
                &&& list.len() == messages.len()
                &&& forall|i: int|
                    0 <= i < list.len() ==> {
                        &&& (#[trigger] list@[i]).0 == messages@[i].len
                        &&& list@[i].1 == local
                        &&& decoded(messages@[i].sender) == Ok::<SocketAddr, AddrError>(list@[i].2)
                    }
            },
            Err(e) => {
                &&& e == AddrError::UnknownFamily
                &&& exists|i: int|
                    0 <= i < messages.len() && decoded((#[trigger] messages@[i]).sender) is Err
            },
        },
{
    let mut list: Vec<(usize, SocketAddr, SocketAddr)> = Vec::new();
    let mut i: usize = 0;
    while i < messages.len()
        invariant
            i <= messages.len(),
            list.len() == i,
            forall|j: int|
                0 <= j < i ==> {
                    &&& (#[trigger] list@[j]).0 == messages@[j].len
                    &&& list@[j].1 == local
                    &&& decoded(messages@[j].sender) == Ok::<SocketAddr, AddrError>(list@[j].2)
                },
        decreases messages.len() - i,
    {
        let message = &messages[i];
        match sockaddr_to_socketaddr(&message.sender) {
            Ok(remote) => {
                list.push((message.len as usize, local, remote));
            },
            Err(e) => {
                assert(decoded(messages@[i as int].sender) is Err);
                return Err(e);
            },
        }
        i += 1;
    }
    Ok(list)
}

} // verus!
