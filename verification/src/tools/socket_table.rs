//! The bookkeeping of the UDP sockets of an endpoint: which socket stands behind
//! an event token, and which one is bound to a local address.
//!
//! A socket is represented by a number under which its owner finds it again.

use rustc_hash::{FxHashMap, FxHasher};
use slab::Slab;
use vstd::prelude::*;

use crate::tools::addr::SocketAddr;

verus! {

/// A socket address as integers: the version of the protocol, the address, the
/// port, the flow information and the scope.
pub type AddrKey = (u8, u128, u16, u32, u32);

/// The integers of a socket address.
pub open spec fn key_of(addr: SocketAddr) -> AddrKey {
    match addr {
        SocketAddr::V4 { ip, port } => (4u8, ip as u128, port, 0u32, 0u32),
        SocketAddr::V6 { ip, port, flowinfo, scope_id } => (6u8, ip, port, flowinfo, scope_id),
    }
}

/// `slab::Slab`: values under keys that it gives out itself.
#[verifier::external_type_specification]
#[verifier::external_body]
#[verifier::reject_recursive_types(T)]
pub struct ExSlab<T>(Slab<T>);

/// `rustc_hash::FxHasher`: the hasher of `FxHashMap`. Nothing is claimed of it.
#[verifier::external_type_specification]
#[verifier::external_body]
pub struct ExFxHasher(FxHasher);

/// `std::hash::BuildHasherDefault`, through which `FxHashMap` makes its hashers.
/// Nothing is claimed of it.
#[verifier::external_type_specification]
#[verifier::external_body]
#[verifier::reject_recursive_types(H)]
pub struct ExBuildHasherDefault<H>(std::hash::BuildHasherDefault<H>);

/// The values that a `slab::Slab` holds, by key.
pub uninterp spec fn slab_values(slab: Slab<u64>) -> Map<usize, u64>;

/// The keys of a `slab::Slab` whose values were removed, in the order in which they
/// are used again.
pub uninterp spec fn slab_vacant(slab: Slab<u64>) -> Seq<usize>;

/// The key that the next of some values gets: the first vacant one, and where none
/// is, the number of values, since these then have the keys below it.
pub open spec fn next_key(values: Map<usize, u64>, vacant: Seq<usize>) -> usize {
    if vacant.len() > 0 {
        vacant[0]
    } else {
        values.len() as usize
    }
}

/// What is vacant once the next key was used.
pub open spec fn vacant_after(vacant: Seq<usize>) -> Seq<usize> {
    if vacant.len() > 0 {
        vacant.drop_first()
    } else {
        vacant
    }
}

/// `slab::Slab::new`: the slab is empty, and no key is vacant.
#[verifier::external_body]
fn slab_new() -> (r: Slab<u64>)
    ensures
        (slab_values(r) == Map::<usize, u64>::empty()),
        (slab_vacant(r) == Seq::<usize>::empty()),
{
    Slab::new()
}

/// `slab::Slab::insert`: the value is stored under the next key, which no value is
/// under, and which is returned; all other values stay where they are. The key was
/// the first of the vacant ones, or there was none and the slab grows by one.
#[verifier::external_body]
fn slab_insert(slab: &mut Slab<u64>, value: u64) -> (key: usize)
    ensures
        key == next_key(slab_values(*old(slab)), slab_vacant(*old(slab))),
        !slab_values(*old(slab)).contains_key(key),
        slab_values(*final(slab)) == slab_values(*old(slab)).insert(key, value),
        slab_vacant(*final(slab)) == vacant_after(slab_vacant(*old(slab))),
{
    slab.insert(value)
}

/// `slab::Slab::get`: the value under a key, if one is there.
#[verifier::external_body]
fn slab_get(slab: &Slab<u64>, key: usize) -> (value: Option<u64>)
    ensures
        value == (if slab_values(*slab).contains_key(key) {
            Some(slab_values(*slab)[key])
        } else {
            None
        }),
{
    slab.get(key).copied()
}

/// `slab::Slab::remove`, which panics where no value is under the key: the value
/// leaves and is returned, all others stay, and its key is the first of the vacant
/// ones.
#[verifier::external_body]
fn slab_remove(slab: &mut Slab<u64>, key: usize) -> (value: u64)
    requires
        slab_values(*old(slab)).contains_key(key),
    ensures
        value == slab_values(*old(slab))[key],
        slab_values(*final(slab)) == slab_values(*old(slab)).remove(key),
        slab_vacant(*final(slab)) == seq![key] + slab_vacant(*old(slab)),
{
    slab.remove(key)
}

/// `rustc_hash::FxHashMap::insert`: the key leads to the value, whatever it led to
/// before; all other keys lead where they did.
#[verifier::external_body]
fn addrs_insert(map: &mut FxHashMap<AddrKey, usize>, key: AddrKey, value: usize)
    ensures
        final(map)@ == old(map)@.insert(key, value),
{
    map.insert(key, value);
}

/// `rustc_hash::FxHashMap::get`: the value that the key leads to, if any.
#[verifier::external_body]
fn addrs_get(map: &FxHashMap<AddrKey, usize>, key: &AddrKey) -> (value: Option<usize>)
    ensures
        value == (if map@.contains_key(*key) {
            Some(map@[*key])
        } else {
            None
        }),
{
    map.get(key).copied()
}

/// `rustc_hash::FxHashMap::remove`: the key leads nowhere any more; all other keys
/// lead where they did.
#[verifier::external_body]
fn addrs_remove(map: &mut FxHashMap<AddrKey, usize>, key: &AddrKey)
    ensures
        final(map)@ == old(map)@.remove(*key),
{
    map.remove(key);
}

/// The state of a socket table as mathematics.
pub struct TableView {
    /// The socket behind each token.
    pub sockets: Map<usize, u64>,
    /// The token of each bound local address.
    pub tokens: Map<SocketAddr, usize>,
    /// The local address of the first socket.
    pub local_addr: SocketAddr,
    /// The tokens that were given up, in the order in which they are used again.
    pub vacant: Seq<usize>,
}

impl TableView {
    /// The token that the next socket gets: the one that was given up last and is
    /// not in use again, or else the number of sockets.
    pub open spec fn next_token(self) -> usize {
        next_key(self.sockets, self.vacant)
    }

    /// The socket that packets from a local address go out on, if there is one.
    pub open spec fn socket_of(self, local: SocketAddr) -> Option<u64> {
        if self.tokens.contains_key(local) && self.sockets.contains_key(self.tokens[local]) {
            Some(self.sockets[self.tokens[local]])
        } else {
            None
        }
    }

    /// `after` is the table after a socket was bound to a local address: it is
    /// behind the next token, which no socket was behind.
    pub open spec fn bound(self, local: SocketAddr, socket: u64, after: TableView) -> bool {
        &&& !self.sockets.contains_key(self.next_token())
        &&& after.sockets == self.sockets.insert(self.next_token(), socket)
        &&& after.tokens == self.tokens.insert(local, self.next_token())
        &&& after.local_addr == self.local_addr
        &&& after.vacant == vacant_after(self.vacant)
    }

    /// `after` is the table after the binding of a local address was deleted: the
    /// address has no token any more, and its token, which is the next to be used,
    /// no socket.
    pub open spec fn unbound(self, local: SocketAddr, after: TableView) -> bool {
        &&& after.sockets == self.sockets.remove(self.tokens[local])
        &&& after.tokens == self.tokens.remove(local)
        &&& after.local_addr == self.local_addr
        &&& after.vacant == seq![self.tokens[local]] + self.vacant
    }

    /// Behind every bound address stands a socket, and behind any two addresses
    /// two tokens. There are finitely many sockets.
    pub open spec fn valid(self) -> bool {
        &&& self.sockets.dom().finite()
        &&& forall|a: SocketAddr| #[trigger]
            self.tokens.contains_key(a) ==> self.sockets.contains_key(self.tokens[a])
        &&& forall|a: SocketAddr, b: SocketAddr|
            #![trigger self.tokens.contains_key(a), self.tokens.contains_key(b)]
            self.tokens.contains_key(a) && self.tokens.contains_key(b) && a != b ==> self.tokens[a]
                != self.tokens[b]
    }
}

/// The UDP sockets of an endpoint.
pub struct SocketTable {
    /// The sockets by token.
    socks: Slab<u64>,
    /// The token of each local address.
    addrs: FxHashMap<AddrKey, usize>,
    /// The local address of the first socket.
    local_addr: SocketAddr,
}

impl View for SocketTable {
    type V = TableView;

    closed spec fn view(&self) -> TableView {
        TableView {
            sockets: slab_values(self.socks),
            tokens: Map::new(
                |a: SocketAddr| self.addrs@.contains_key(key_of(a)),
                |a: SocketAddr| self.addrs@[key_of(a)],
            ),
            local_addr: self.local_addr,
            vacant: slab_vacant(self.socks),
        }
    }
}

/// Law: the integers of a socket address identify it.
pub proof fn law_keys_identify_addresses(a: SocketAddr, b: SocketAddr)
    ensures
        key_of(a) == key_of(b) ==> a == b,
{
}

fn addr_key(addr: &SocketAddr) -> (key: AddrKey)
    ensures
        key == key_of(*addr),
{
    match *addr {
        SocketAddr::V4 { ip, port } => (4u8, ip as u128, port, 0u32, 0u32),
        SocketAddr::V6 { ip, port, flowinfo, scope_id } => (6u8, ip, port, flowinfo, scope_id),
    }
}

impl SocketTable {
    /// Creates the table of an endpoint whose first socket is bound to
    /// `local_addr`, and returns the token of that socket.
    pub fn new(local_addr: SocketAddr, socket: u64) -> (r: (SocketTable, usize))
        ensures
            r.1 == 0,
            r.0@.sockets == Map::<usize, u64>::empty().insert(0, socket),
            r.0@.tokens == Map::<SocketAddr, usize>::empty().insert(local_addr, 0),
            r.0@.local_addr == local_addr,
            r.0@.vacant == Seq::<usize>::empty(),
            r.0@.valid(),
    {
        let mut table = SocketTable { socks: slab_new(), addrs: FxHashMap::default(), local_addr };
        assert(table@.tokens =~= Map::<SocketAddr, usize>::empty());
        let token: usize = table.add(local_addr, socket);
        (table, token)
    }

    /// The local address of the first socket.
    pub fn local_addr(&self) -> (r: SocketAddr)
        ensures
            r == self@.local_addr,
    {
        self.local_addr
    }

    /// Adds a socket that is bound to `local_addr`, and returns its token.
    pub fn add(&mut self, local_addr: SocketAddr, socket: u64) -> (token: usize)
        ensures
            token == old(self)@.next_token(),
            token == (if old(self)@.vacant.len() > 0 {
                old(self)@.vacant[0]
            } else {
                old(self)@.sockets.len() as usize
            }),
            !old(self)@.sockets.contains_key(token),
            final(self)@.sockets == old(self)@.sockets.insert(token, socket),
            final(self)@.tokens == old(self)@.tokens.insert(local_addr, token),
            final(self)@.local_addr == old(self)@.local_addr,
            final(self)@.vacant == (if old(self)@.vacant.len() > 0 {
                old(self)@.vacant.skip(1)
            } else {
                old(self)@.vacant
            }),
            old(self)@.bound(local_addr, socket, final(self)@),
            old(self)@.valid() ==> final(self)@.valid(),
    {
        let token: usize = slab_insert(&mut self.socks, socket);
        addrs_insert(&mut self.addrs, addr_key(&local_addr), token);
        proof {
            assert forall|a: SocketAddr| a != local_addr implies key_of(a) != key_of(
                local_addr,
            ) by {
                law_keys_identify_addresses(a, local_addr);
            }
            assert(self@.tokens =~= old(self)@.tokens.insert(local_addr, token));
        }
        token
    }

    /// The socket behind a token, if there is one.
    pub fn socket_at(&self, token: usize) -> (r: Option<u64>)
        ensures
            r == (if self@.sockets.contains_key(token) {
                Some(self@.sockets[token])
            } else {
                None
            }),
    {
        slab_get(&self.socks, token)
    }

    /// The socket on which packets from a local address go out. There is none
    /// where no socket is bound to the address; such packets are dropped.
    pub fn socket_of(&self, local: &SocketAddr) -> (r: Option<u64>)
        ensures
            r == self@.socket_of(*local),
            match r {
                Some(socket) => {
                    &&& self@.tokens.contains_key(*local)
                    &&& self@.sockets.contains_key(self@.tokens[*local])
                    &&& self@.sockets[self@.tokens[*local]] == socket
                },
                None => self@.tokens.contains_key(*local) ==> !self@.sockets.contains_key(
                    self@.tokens[*local],
                ),
            },
    {
        match addrs_get(&self.addrs, &addr_key(local)) {
            Some(token) => slab_get(&self.socks, token),
            None => None,
        }
    }

    /// Deletes the binding of a local address and returns its socket; where the
    /// address has none, nothing happens.
    pub fn del(&mut self, local: &SocketAddr) -> (r: Option<u64>)
        ensures
            r == old(self)@.socket_of(*local),
            match r {
                Some(socket) => {
                    &&& old(self)@.unbound(*local, final(self)@)
                    &&& old(self)@.tokens.contains_key(*local)
                    &&& old(self)@.sockets.contains_key(old(self)@.tokens[*local])
                    &&& old(self)@.sockets[old(self)@.tokens[*local]] == socket
                    &&& final(self)@.sockets == old(self)@.sockets.remove(
                        old(self)@.tokens[*local],
                    )
                    &&& final(self)@.tokens == old(self)@.tokens.remove(*local)
                    &&& final(self)@.local_addr == old(self)@.local_addr
                    &&& final(self)@.vacant == seq![old(self)@.tokens[*local]]
                        + old(self)@.vacant
                },
                None => {
                    &&& final(self)@ == old(self)@
                    &&& old(self)@.tokens.contains_key(*local) ==> !old(
                        self,
                    )@.sockets.contains_key(old(self)@.tokens[*local])
                },
            },
            old(self)@.valid() ==> final(self)@.valid(),
    {
        let key = addr_key(local);
        let token: usize = match addrs_get(&self.addrs, &key) {
            Some(token) => token,
            None => {
                return None;
            },
        };
        match slab_get(&self.socks, token) {
            Some(_) => {
                let socket: u64 = slab_remove(&mut self.socks, token);
                addrs_remove(&mut self.addrs, &key);
                proof {
                    assert forall|a: SocketAddr| a != *local implies key_of(a) != key_of(
                        *local,
                    ) by {
                        law_keys_identify_addresses(a, *local);
                    }
                    assert(self@.tokens =~= old(self)@.tokens.remove(*local));
                }
                Some(socket)
            },
            None => None,
        }
    }
}

/// Law: in a valid table an address has a socket exactly while it is bound.
pub proof fn law_bound_means_socket(table: TableView, local: SocketAddr)
    requires
        table.valid(),
    ensures
        table.socket_of(local) is Some <==> table.tokens.contains_key(local),
{
}

/// Law: as long as no binding is deleted, tokens count up from zero. Where none is
/// vacant, the token of the next socket is the number of sockets.
pub proof fn law_tokens_count_up(
    before: TableView,
    local: SocketAddr,
    socket: u64,
    after: TableView,
)
    requires
        before.valid(),
        before.bound(local, socket, after),
        before.vacant.len() == 0,
    ensures
        before.next_token() == before.sockets.len() as usize,
        after.vacant.len() == 0,
        after.sockets.len() == before.sockets.len() + 1,
        after.next_token() == (before.sockets.len() + 1) as usize,
{
}

/// Law: the token of a deleted binding goes to the next socket, and with it the
/// tokens are used up as if nothing had been deleted.
pub proof fn law_freed_token_is_used_next(
    before: TableView,
    local: SocketAddr,
    deleted: TableView,
    other: SocketAddr,
    socket: u64,
    after: TableView,
)
    requires
        before.valid(),
        before.tokens.contains_key(local),
        before.unbound(local, deleted),
        deleted.bound(other, socket, after),
    ensures
        deleted.next_token() == before.tokens[local],
        after.tokens[other] == before.tokens[local],
        after.vacant == before.vacant,
        after.next_token() == before.next_token(),
{
    assert(after.vacant =~= before.vacant);
}

/// Law: a socket that was bound to an address is the one that packets from this
/// address go out on, and the sockets of all other addresses stay theirs.
pub proof fn law_bound_socket_is_used(
    before: TableView,
    local: SocketAddr,
    socket: u64,
    after: TableView,
)
    requires
        before.bound(local, socket, after),
    ensures
        after.socket_of(local) == Some(socket),
        forall|other: SocketAddr|
            other != local && before.socket_of(other) is Some ==> #[trigger] after.socket_of(other)
                == before.socket_of(other),
        forall|token: usize|
            before.sockets.contains_key(token) ==> #[trigger] after.sockets.contains_key(token)
                && after.sockets[token] == before.sockets[token],
{
}

/// Law: an address that is not bound stays without a socket when another address
/// is bound, so that its packets go on to be dropped.
pub proof fn law_unknown_stays_unknown(
    before: TableView,
    local: SocketAddr,
    socket: u64,
    after: TableView,
    other: SocketAddr,
)
    requires
        before.bound(local, socket, after),
        other != local,
        !before.tokens.contains_key(other),
    ensures
        !after.tokens.contains_key(other),
        after.socket_of(other) is None,
{
}

/// Law: once its binding was deleted, packets from an address are dropped, also
/// after another address was bound and got the token that became free.
pub proof fn law_deleted_address_is_unknown(
    before: TableView,
    local: SocketAddr,
    deleted: TableView,
    other: SocketAddr,
    socket: u64,
    after: TableView,
)
    requires
        before.unbound(local, deleted),
        deleted.bound(other, socket, after),
        other != local,
    ensures
        deleted.socket_of(local) is None,
        after.socket_of(local) is None,
{
}

/// Law: deleting the binding of an address leaves the sockets of all other
/// addresses theirs.
pub proof fn law_deletion_spares_others(before: TableView, local: SocketAddr, after: TableView)
    requires
        before.valid(),
        before.tokens.contains_key(local),
        before.unbound(local, after),
    ensures
        !after.sockets.contains_key(before.tokens[local]),
        forall|other: SocketAddr|
            other != local ==> #[trigger] after.socket_of(other) == before.socket_of(other),
{
    assert forall|other: SocketAddr| other != local implies #[trigger] after.socket_of(other)
        == before.socket_of(other) by {
        assert(after.tokens.contains_key(other) == before.tokens.contains_key(other));
    }
}

} // verus!
