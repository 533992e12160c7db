//! Internet addresses, and which of a host's addresses a connection can use.

use vstd::prelude::*;

verus! {

/// An IP address, as the number that its bytes spell in network order.
#[derive(Clone, Copy, Debug, PartialEq, Eq, Structural)]
pub enum IpAddr {
    /// An IPv4 address.
    V4(u32),
    /// An IPv6 address.
    V6(u128),
}

/// The address of a UDP socket.
#[allow(inconsistent_fields)]
#[derive(Clone, Copy, Debug, PartialEq, Eq, Structural)]
pub enum SocketAddr {
    /// An IPv4 address and a port.
    V4 { ip: u32, port: u16 },
    /// An IPv6 address and a port, with the flow information and the scope of the
    /// address.
    V6 { ip: u128, port: u16, flowinfo: u32, scope_id: u32 },
}

/// IPv4 addresses that do not identify a host beyond its own link: 127.0.0.0/8,
/// 169.254.0.0/16, 224.0.0.0/4, 0.0.0.0 and 255.255.255.255.
pub open spec fn v4_special(ip: u32) -> bool {
    ||| ip / 0x100_0000 == 127
    ||| ip / 0x1_0000 == 0xa9fe
    ||| ip / 0x1000_0000 == 14
    ||| ip == 0
    ||| ip == 0xffff_ffff
}

/// IPv6 addresses that do not identify a host beyond its own link: ::1,
/// fe80::/10, whose upper ten bits are 0x3fa, ff00::/8 and ::.
pub open spec fn v6_special(ip: u128) -> bool {
    ||| ip == 1
    ||| ip / 0x40_0000_0000_0000_0000_0000_0000_0000 == 0x3fa
    ||| ip / 0x100_0000_0000_0000_0000_0000_0000_0000 == 0xff
    ||| ip == 0
}

/// Whether other hosts can reach an address: it is neither loopback, link-local,
/// multicast, unspecified nor broadcast.
pub open spec fn usable(ip: IpAddr) -> bool {
    match ip {
        IpAddr::V4(bits) => !v4_special(bits),
        IpAddr::V6(bits) => !v6_special(bits),
    }
}

/// The order of addresses: IPv4 before IPv6, and by their bytes within each.
pub open spec fn before(a: IpAddr, b: IpAddr) -> bool {
    match (a, b) {
        (IpAddr::V4(x), IpAddr::V4(y)) => x < y,
        (IpAddr::V4(_), IpAddr::V6(_)) => true,
        (IpAddr::V6(_), IpAddr::V4(_)) => false,
        (IpAddr::V6(x), IpAddr::V6(y)) => x < y,
    }
}

/// The addresses ascend, and none occurs twice.
pub open spec fn ascending(ips: Seq<IpAddr>) -> bool {
    forall|i: int, j: int| 0 <= i < j < ips.len() ==> before(#[trigger] ips[i], #[trigger] ips[j])
}

fn is_before(a: IpAddr, b: IpAddr) -> (r: bool)
    ensures
        r == before(a, b),
{
    match (a, b) {
        (IpAddr::V4(x), IpAddr::V4(y)) => x < y,
        (IpAddr::V4(_), IpAddr::V6(_)) => true,
        (IpAddr::V6(_), IpAddr::V4(_)) => false,
        (IpAddr::V6(x), IpAddr::V6(y)) => x < y,
    }
}

/// Whether other hosts can reach an address.
pub fn is_usable_ip(ip: IpAddr) -> (r: bool)
    ensures
        r == usable(ip),
{
    match ip {
        IpAddr::V4(bits) => {
            let loopback = bits / 0x100_0000 == 127;
            let link_local = bits / 0x1_0000 == 0xa9fe;
            let multicast = bits / 0x1000_0000 == 14;
            !(loopback || link_local || multicast || bits == 0 || bits == 0xffff_ffff)
        },
        IpAddr::V6(bits) => {
            let link_local = bits / 0x40_0000_0000_0000_0000_0000_0000_0000 == 0x3fa;
            let multicast = bits / 0x100_0000_0000_0000_0000_0000_0000_0000 == 0xff;
            !(bits == 1 || link_local || multicast || bits == 0)
        },
    }
}

/// Selects from the addresses of a host's interfaces those that other hosts can
/// reach, in ascending order and each once.
pub fn global_ip_addrs(found: &Vec<IpAddr>) -> (addrs: Vec<IpAddr>)
    ensures
        ascending(addrs@),
        forall|ip: IpAddr| #[trigger]
            addrs@.contains(ip) <==> usable(ip) && found@.contains(ip),
{
    let mut addrs: Vec<IpAddr> = Vec::new();
    let mut i: usize = 0;
    while i < found.len()
        invariant
            i <= found.len(),
            ascending(addrs@),
            forall|ip: IpAddr| #[trigger]
                addrs@.contains(ip) <==> usable(ip) && found@.take(i as int).contains(ip),
        decreases found.len() - i,
    {
        let ip = found[i];
        let ghost earlier = addrs@;
        if is_usable_ip(ip) {
            insert_ascending(&mut addrs, ip);
        }
        proof {
            let seen = found@.take(i as int);
            let seen_too = found@.take(i + 1);
            assert(seen_too =~= seen.push(ip));
            assert forall|x: IpAddr| seen_too.contains(x) <==> seen.contains(x) || x == ip by {
                if seen.contains(x) {
                    assert(seen_too[seen.index_of(x)] == x);
                }
                assert(seen_too[i as int] == ip);
            }
            assert forall|x: IpAddr| #[trigger]
                addrs@.contains(x) <==> usable(x) && seen_too.contains(x) by {
                assert(earlier.contains(x) <==> usable(x) && seen.contains(x));
            }
        }
        i += 1;
    }
    assert(found@.take(found@.len() as int) =~= found@);
    addrs
}

/// Puts an address at its place among ascending ones, unless it is there.
fn insert_ascending(addrs: &mut Vec<IpAddr>, ip: IpAddr)
    requires
        ascending(old(addrs)@),
    ensures
        ascending(final(addrs)@),
        forall|x: IpAddr| #[trigger]
            final(addrs)@.contains(x) <==> old(addrs)@.contains(x) || x == ip,
{
    let ghost earlier = addrs@;
    let mut at: usize = 0;
    while at < addrs.len() && is_before(addrs[at], ip)
        invariant
            at <= addrs.len(),
            addrs@ == earlier,
            forall|j: int| 0 <= j < at ==> before(#[trigger] earlier[j], ip),
        decreases addrs.len() - at,
    {
        at += 1;
    }
    if at < addrs.len() && addrs[at] == ip {
        assert(earlier[at as int] == ip);
        return;
    }
    addrs.insert(at, ip);
    proof {
        let later = addrs@;
        assert forall|i: int, j: int| 0 <= i < j < later.len() implies before(
            #[trigger] later[i],
            #[trigger] later[j],
        ) by {
            if i == at {
                assert(later[j] == earlier[j - 1]);
                assert(before(ip, earlier[at as int]));
                if at < j - 1 {
                    assert(before(earlier[at as int], earlier[j - 1]));
                }
            } else {
                let old_i = if i < at { i } else { i - 1 };
                assert(later[i] == earlier[old_i]);
                if j != at {
                    let old_j = if j < at { j } else { j - 1 };
                    assert(later[j] == earlier[old_j]);
                }
            }
        }
        assert forall|x: IpAddr| #[trigger] later.contains(x) <==> earlier.contains(x) || x == ip by {
            if later.contains(x) {
                let k = later.index_of(x);
                if k < at {
                    assert(earlier[k] == x);
                } else if k > at {
                    assert(earlier[k - 1] == x);
                }
            }
            if earlier.contains(x) {
                let k = earlier.index_of(x);
                if k < at {
                    assert(later[k] == x);
                } else {
                    assert(later[k + 1] == x);
                }
            }
            assert(later[at as int] == ip);
        }
    }
}

/// Law: two ascending sequences with the same addresses are the same, so that
/// the result of `global_ip_addrs` depends on which addresses were found, not on
/// their order or how often each was.
pub proof fn law_ascending_is_unique(a: Seq<IpAddr>, b: Seq<IpAddr>)
    requires
        ascending(a),
        ascending(b),
        forall|ip: IpAddr| a.contains(ip) <==> b.contains(ip),
    ensures
        a == b,
    decreases a.len(),
{
    if a.len() == 0 {
        if b.len() > 0 {
            assert(b.contains(b[0]));
            assert(a.contains(b[0]));
        }
        assert(a =~= b);
    } else {
        assert(a.contains(a[0]));
        assert(b.contains(a[0]));
        assert(b.contains(b[0]));
        assert(a.contains(b[0]));
        let i = b.index_of(a[0]);
        let j = a.index_of(b[0]);
        assert(a[0] == b[0]) by {
            if i > 0 && j > 0 {
                assert(before(b[0], b[i]));
                assert(before(a[0], a[j]));
            }
        }
        let a1 = a.skip(1);
        let b1 = b.skip(1);
        assert forall|ip: IpAddr| a1.contains(ip) <==> b1.contains(ip) by {
            lemma_skip_first(a, ip);
            lemma_skip_first(b, ip);
        }
        law_ascending_is_unique(a1, b1);
        assert(a =~= seq![a[0]] + a1);
        assert(b =~= seq![b[0]] + b1);
    }
}

proof fn lemma_skip_first(a: Seq<IpAddr>, ip: IpAddr)
    requires
        a.len() > 0,
        ascending(a),
    ensures
        a.skip(1).contains(ip) <==> a.contains(ip) && ip != a[0],
{
    if a.skip(1).contains(ip) {
        let k = a.skip(1).index_of(ip);
        assert(a[k + 1] == ip);
        assert(before(a[0], a[k + 1]));
    }
    if a.contains(ip) && ip != a[0] {
        let k = a.index_of(ip);
        assert(a.skip(1)[k - 1] == ip);
    }
}

/// Law: which IPv4 addresses other hosts can reach, by the four numbers that an
/// address is written as: all but those from 127, 169.254 and 224 to 239, the one
/// of zeros and the one of 255s.
pub proof fn law_usable_v4_by_octets(ip: u32, a: u8, b: u8, c: u8, d: u8)
    requires
        ip == a * 0x100_0000 + b * 0x1_0000 + c * 0x100 + d,
    ensures
        usable(IpAddr::V4(ip)) <==> {
            &&& a != 127
            &&& !(a == 169 && b == 254)
            &&& !(224 <= a <= 239)
            &&& !(a == 0 && b == 0 && c == 0 && d == 0)
            &&& !(a == 255 && b == 255 && c == 255 && d == 255)
        },
{
}

/// Law: which IPv6 addresses other hosts can reach, by the first of the groups that
/// an address is written as: all but those from fe80 to febf and from ff00 on, and
/// the addresses :: and ::1.
pub proof fn law_usable_v6_by_groups(ip: u128, first: u16, rest: u128)
    requires
        rest < 0x1_0000_0000_0000_0000_0000_0000_0000,
        ip == first * 0x1_0000_0000_0000_0000_0000_0000_0000 + rest,
    ensures
        usable(IpAddr::V6(ip)) <==> {
            &&& !(0xfe80 <= first <= 0xfebf)
            &&& first < 0xff00
            &&& !(first == 0 && rest <= 1)
        },
{
}

/// Law: ascending addresses are the IPv4 addresses by their numbers, and behind
/// all of them the IPv6 addresses by theirs.
pub proof fn law_ascending_order(ips: Seq<IpAddr>, i: int, j: int)
    requires
        ascending(ips),
        0 <= i < j < ips.len(),
    ensures
        match (ips[i], ips[j]) {
            (IpAddr::V4(x), IpAddr::V4(y)) => x < y,
            (IpAddr::V6(x), IpAddr::V6(y)) => x < y,
            (a, b) => a is V4 && b is V6,
        },
{
    assert(before(ips[i], ips[j]));
}

} // verus!
