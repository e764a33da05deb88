//! The configuration of a node, and its binary form.

use crate::bytes::{be64, copy_bytes, lemma_be64_read_back, push_be64, same_bytes};
use crate::random::{addr_in, addr_of_draw, draw_key, number_in, number_of_draw};
use crate::genesis::{
    genesis_bytes, law_genesis_round_trip, parse_genesis, GenesisRecord, GenesisView,
};
use crate::wire::{
    be128, be128_value, be16, be16_value, blob_bytes, lemma_be128_read_back,
    lemma_be16_read_back, lemma_blob_read_back, lemma_u64_read_back, parse_blob, parse_u64,
    push_be128, push_be16, push_blob, take_be128, take_be16, take_be64, take_blob,
};
use rand::rngs::StdRng;
use vstd::prelude::*;

verus! {

/// The address of a socket: an internet address of 128 bits and a port.
#[derive(Clone, Copy, Debug, PartialEq, Eq, Structural)]
pub struct NetAddr {
    pub ip: u128,
    pub port: u16,
}

/// A peer that the node connects to: the public key of the peer and the
/// address to reach it at.
#[derive(Debug, PartialEq, Eq)]
pub struct Peer {
    pub key: Vec<u8>,
    pub addr: NetAddr,
}

/// What a peer holds, as mathematical values.
pub ghost struct PeerView {
    pub key: Seq<u8>,
    pub addr: NetAddr,
}

impl View for Peer {
    type V = PeerView;

    open spec fn view(&self) -> PeerView {
        PeerView { key: self.key@, addr: self.addr }
    }
}

impl Clone for Peer {
    fn clone(&self) -> (copy: Self)
        ensures
            copy@ == self@,
    {
        Peer { key: copy_bytes(self.key.as_slice()), addr: self.addr }
    }
}

/// The configuration of a node.
#[derive(Debug, PartialEq, Eq)]
pub struct AppConfig {
    /// The address that the node listens on.
    pub server_addr: NetAddr,
    /// The address that the node tells its peers.
    pub public_addr: NetAddr,
    /// The address that the node serves its metrics on, if it serves any.
    pub metrics_server_addr: Option<NetAddr>,
    /// The genesis of the chain that the node takes part in.
    pub genesis: GenesisRecord,
    /// How many inbound connections the node takes from peers that it was
    /// not told of.
    pub gossip_dynamic_inbound_limit: u64,
    /// The public keys of the peers that may always connect: a set, no key
    /// occurs twice.
    pub gossip_static_inbound: Vec<Vec<u8>>,
    /// The peers that the node always connects to: a map, no key occurs
    /// twice.
    pub gossip_static_outbound: Vec<Peer>,
    /// The greatest size of a block payload, in bytes.
    pub max_payload_size: u64,
}

/// What a configuration holds, as mathematical values.
pub ghost struct ConfigView {
    pub server_addr: NetAddr,
    pub public_addr: NetAddr,
    pub metrics_server_addr: Option<NetAddr>,
    pub genesis: GenesisView,
    pub gossip_dynamic_inbound_limit: u64,
    pub gossip_static_inbound: Seq<Seq<u8>>,
    pub gossip_static_outbound: Seq<PeerView>,
    pub max_payload_size: u64,
}

/// The views of a run of keys.
pub open spec fn key_views(keys: Seq<Vec<u8>>) -> Seq<Seq<u8>> {
    Seq::new(keys.len(), |i: int| keys[i]@)
}

/// The views of a run of peers.
pub open spec fn peer_views(peers: Seq<Peer>) -> Seq<PeerView> {
    Seq::new(peers.len(), |i: int| peers[i]@)
}

impl View for AppConfig {
    type V = ConfigView;

    open spec fn view(&self) -> ConfigView {
        ConfigView {
            server_addr: self.server_addr,
            public_addr: self.public_addr,
            metrics_server_addr: self.metrics_server_addr,
            genesis: self.genesis@,
            gossip_dynamic_inbound_limit: self.gossip_dynamic_inbound_limit,
            gossip_static_inbound: key_views(self.gossip_static_inbound@),
            gossip_static_outbound: peer_views(self.gossip_static_outbound@),
            max_payload_size: self.max_payload_size,
        }
    }
}

impl Clone for AppConfig {
    fn clone(&self) -> (copy: Self)
        ensures
            copy@ == self@,
    {
        let mut inbound: Vec<Vec<u8>> = Vec::new();
        let mut i: usize = 0;
        while i < self.gossip_static_inbound.len()
            invariant
                i <= self.gossip_static_inbound@.len(),
                inbound@.len() == i,
                forall|k: int|
                    0 <= k < i ==> (#[trigger] inbound@[k])@ == self.gossip_static_inbound@[k]@,
            decreases self.gossip_static_inbound.len() - i,
        {
            inbound.push(copy_bytes(self.gossip_static_inbound[i].as_slice()));
            i += 1;
        }
        let mut outbound: Vec<Peer> = Vec::new();
        let mut j: usize = 0;
        while j < self.gossip_static_outbound.len()
            invariant
                j <= self.gossip_static_outbound@.len(),
                outbound@.len() == j,
                forall|k: int|
                    0 <= k < j ==> (#[trigger] outbound@[k])@ == self.gossip_static_outbound@[k]@,
            decreases self.gossip_static_outbound.len() - j,
        {
            outbound.push(self.gossip_static_outbound[j].clone());
            j += 1;
        }
        assert(key_views(inbound@) =~= key_views(self.gossip_static_inbound@));
        assert(peer_views(outbound@) =~= peer_views(self.gossip_static_outbound@));
        AppConfig {
            server_addr: self.server_addr,
            public_addr: self.public_addr,
            metrics_server_addr: self.metrics_server_addr,
            genesis: self.genesis.clone(),
            gossip_dynamic_inbound_limit: self.gossip_dynamic_inbound_limit,
            gossip_static_inbound: inbound,
            gossip_static_outbound: outbound,
            max_payload_size: self.max_payload_size,
        }
    }
}

/// No key occurs twice.
pub open spec fn distinct_keys(keys: Seq<Seq<u8>>) -> bool {
    forall|i: int, j: int| 0 <= i < j < keys.len() ==> #[trigger] keys[i] != #[trigger] keys[j]
}

/// The keys of a run of peers.
pub open spec fn peer_keys(peers: Seq<PeerView>) -> Seq<Seq<u8>> {
    Seq::new(peers.len(), |i: int| peers[i].key)
}

/// The configuration is in order: its static inbound peers are a set and its
/// static outbound peers are a map, so no key occurs twice in either.
pub open spec fn valid_config(c: ConfigView) -> bool {
    &&& distinct_keys(c.gossip_static_inbound)
    &&& distinct_keys(peer_keys(c.gossip_static_outbound))
}

/// Every length in the configuration can be written down in eight bytes.
pub open spec fn fits_config(c: ConfigView) -> bool {
    &&& genesis_bytes(c.genesis).len() <= u64::MAX
    &&& c.gossip_static_inbound.len() <= u64::MAX
    &&& c.gossip_static_outbound.len() <= u64::MAX
    &&& forall|i: int|
        0 <= i < c.gossip_static_inbound.len() ==> (#[trigger] c.gossip_static_inbound[i]).len()
            <= u64::MAX
    &&& forall|i: int|
        0 <= i < c.gossip_static_outbound.len() ==> (
        #[trigger] c.gossip_static_outbound[i]).key.len() <= u64::MAX
}

/// The binary form of an address: the internet address in sixteen bytes, the
/// port in two, each most significant byte first.
pub open spec fn addr_bytes(a: NetAddr) -> Seq<u8> {
    be128(a.ip) + be16(a.port)
}

/// The address at the front of `s`, and the number of bytes that it takes.
pub open spec fn parse_addr(s: Seq<u8>) -> Option<(NetAddr, int)> {
    if s.len() < 18 {
        None
    } else {
        Some(
            (
                NetAddr {
                    ip: be128_value(s.subrange(0, 16)) as u128,
                    port: be16_value(s.subrange(16, 18)) as u16,
                },
                18,
            ),
        )
    }
}

/// The binary form of an address that may be absent: one byte that tells
/// whether it is there, then the address if it is.
pub open spec fn opt_addr_bytes(a: Option<NetAddr>) -> Seq<u8> {
    match a {
        None => seq![0u8],
        Some(a) => seq![1u8] + addr_bytes(a),
    }
}

/// The address that may be absent at the front of `s`, and the number of
/// bytes that it takes.
pub open spec fn parse_opt_addr(s: Seq<u8>) -> Option<(Option<NetAddr>, int)> {
    if s.len() < 1 {
        None
    } else if s[0] == 0 {
        Some((None, 1))
    } else if s[0] == 1 {
        match parse_addr(s.skip(1)) {
            Some((a, used)) => Some((Some(a), 1 + used)),
            None => None,
        }
    } else {
        None
    }
}

/// The binary form of a run of keys: each key behind its length.
pub open spec fn keys_bytes(keys: Seq<Seq<u8>>) -> Seq<u8>
    decreases keys.len(),
{
    if keys.len() == 0 {
        Seq::empty()
    } else {
        blob_bytes(keys[0]) + keys_bytes(keys.skip(1))
    }
}

/// The `count` keys at the front of `s`, and the number of bytes that they
/// take.
pub open spec fn parse_keys(s: Seq<u8>, count: nat) -> Option<(Seq<Seq<u8>>, int)>
    decreases count,
{
    if count == 0 {
        Some((Seq::empty(), 0))
    } else {
        match parse_blob(s) {
            None => None,
            Some((key, used)) => match parse_keys(s.skip(used), (count - 1) as nat) {
                None => None,
                Some((more, used_more)) => Some((seq![key] + more, used + used_more)),
            },
        }
    }
}

/// The binary form of a peer: its key behind the length of the key, then its
/// address.
pub open spec fn peer_bytes(peer: PeerView) -> Seq<u8> {
    blob_bytes(peer.key) + addr_bytes(peer.addr)
}

/// The peer at the front of `s`, and the number of bytes that it takes.
pub open spec fn parse_peer(s: Seq<u8>) -> Option<(PeerView, int)> {
    match parse_blob(s) {
        None => None,
        Some((key, used)) => match parse_addr(s.skip(used)) {
            None => None,
            Some((addr, used_more)) => Some((PeerView { key, addr }, used + used_more)),
        },
    }
}

/// The binary form of a run of peers, one after the other.
pub open spec fn peers_bytes(peers: Seq<PeerView>) -> Seq<u8>
    decreases peers.len(),
{
    if peers.len() == 0 {
        Seq::empty()
    } else {
        peer_bytes(peers[0]) + peers_bytes(peers.skip(1))
    }
}

/// The `count` peers at the front of `s`, and the number of bytes that they
/// take.
pub open spec fn parse_peers(s: Seq<u8>, count: nat) -> Option<(Seq<PeerView>, int)>
    decreases count,
{
    if count == 0 {
        Some((Seq::empty(), 0))
    } else {
        match parse_peer(s) {
            None => None,
            Some((peer, used)) => match parse_peers(s.skip(used), (count - 1) as nat) {
                None => None,
                Some((more, used_more)) => Some((seq![peer] + more, used + used_more)),
            },
        }
    }
}

/// The binary form of a configuration: its fields in the order of their
/// declaration, the genesis behind the length of its persisted form, each list
/// behind the number of its items.
pub open spec fn config_bytes(c: ConfigView) -> Seq<u8> {
    addr_bytes(c.server_addr) + (addr_bytes(c.public_addr) + (opt_addr_bytes(
        c.metrics_server_addr,
    ) + (blob_bytes(genesis_bytes(c.genesis)) + (be64(c.gossip_dynamic_inbound_limit) + (be64(
        c.gossip_static_inbound.len() as u64,
    ) + (keys_bytes(c.gossip_static_inbound) + (be64(c.gossip_static_outbound.len() as u64) + (
    peers_bytes(c.gossip_static_outbound) + be64(c.max_payload_size)))))))))
}

/// The lists of a configuration and its last field, as they stand in `s`
/// behind the fields before them.
pub open spec fn parse_lists(s: Seq<u8>) -> Option<(Seq<Seq<u8>>, Seq<PeerView>, u64, int)> {
    match parse_u64(s) {
        None => None,
        Some((inbound_count, n1)) => match parse_keys(s.skip(n1), inbound_count as nat) {
            None => None,
            Some((inbound, n2)) => match parse_u64(s.skip(n1).skip(n2)) {
                None => None,
                Some((outbound_count, n3)) => match parse_peers(
                    s.skip(n1).skip(n2).skip(n3),
                    outbound_count as nat,
                ) {
                    None => None,
                    Some((outbound, n4)) => match parse_u64(
                        s.skip(n1).skip(n2).skip(n3).skip(n4),
                    ) {
                        None => None,
                        Some((max_payload_size, n5)) => Some(
                            (inbound, outbound, max_payload_size, n1 + n2 + n3 + n4 + n5),
                        ),
                    },
                },
            },
        },
    }
}

/// The configuration that `s` is the binary form of, if there is one: every
/// field must be there, nothing may follow the last, and no key may occur
/// twice among the static inbound peers or among the static outbound peers.
pub open spec fn parse_config(s: Seq<u8>) -> Option<ConfigView> {
    match parse_addr(s) {
        None => None,
        Some((server_addr, n1)) => match parse_addr(s.skip(n1)) {
            None => None,
            Some((public_addr, n2)) => match parse_opt_addr(s.skip(n1).skip(n2)) {
                None => None,
                Some((metrics_server_addr, n3)) => match parse_blob(
                    s.skip(n1).skip(n2).skip(n3),
                ) {
                    None => None,
                    Some((genesis, n4)) => match parse_genesis(genesis) {
                        None => None,
                        Some(genesis) => match parse_u64(
                            s.skip(n1).skip(n2).skip(n3).skip(n4),
                        ) {
                            None => None,
                            Some((limit, n5)) => match parse_lists(
                                s.skip(n1).skip(n2).skip(n3).skip(n4).skip(n5),
                            ) {
                                None => None,
                                Some((inbound, outbound, max_payload_size, n6)) => {
                                    let c = ConfigView {
                                        server_addr,
                                        public_addr,
                                        metrics_server_addr,
                                        genesis,
                                        gossip_dynamic_inbound_limit: limit,
                                        gossip_static_inbound: inbound,
                                        gossip_static_outbound: outbound,
                                        max_payload_size,
                                    };
                                    if n1 + n2 + n3 + n4 + n5 + n6 == s.len() && valid_config(c) {
                                        Some(c)
                                    } else {
                                        None
                                    }
                                },
                            },
                        },
                    },
                },
            },
        },
    }
}

/// Reading the binary form of an address gives the address back, whatever
/// follows it.
pub proof fn lemma_addr_read_back(a: NetAddr, rest: Seq<u8>)
    ensures
        addr_bytes(a).len() == 18,
        parse_addr(addr_bytes(a) + rest) == Some((a, 18int)),
        (addr_bytes(a) + rest).skip(18) == rest,
{
    let s = addr_bytes(a) + rest;
    lemma_be128_read_back(a.ip, be16(a.port) + rest);
    lemma_be16_read_back(a.port, rest);
    assert(s =~= be128(a.ip) + (be16(a.port) + rest));
    assert(s.subrange(0, 16) =~= (be128(a.ip) + (be16(a.port) + rest)).subrange(0, 16));
    assert(s.subrange(16, 18) =~= (be16(a.port) + rest).subrange(0, 2));
    assert(s.skip(18) =~= rest);
}

/// Reading the binary form of an address that may be absent gives it back,
/// whatever follows it.
pub proof fn lemma_opt_addr_read_back(a: Option<NetAddr>, rest: Seq<u8>)
    ensures
        parse_opt_addr(opt_addr_bytes(a) + rest) == Some((a, opt_addr_bytes(a).len() as int)),
        (opt_addr_bytes(a) + rest).skip(opt_addr_bytes(a).len() as int) == rest,
{
    let s = opt_addr_bytes(a) + rest;
    match a {
        None => {
            assert(s[0] == 0);
            assert(s.skip(1) =~= rest);
        },
        Some(addr) => {
            assert(s[0] == 1);
            lemma_addr_read_back(addr, rest);
            assert(s.skip(1) =~= addr_bytes(addr) + rest);
            assert(s.skip(19) =~= rest);
        },
    }
}

/// Reading the binary form of a run of keys gives the keys back, whatever
/// follows them.
pub proof fn lemma_keys_read_back(keys: Seq<Seq<u8>>, rest: Seq<u8>)
    requires
        forall|i: int| 0 <= i < keys.len() ==> (#[trigger] keys[i]).len() <= u64::MAX,
    ensures
        parse_keys(keys_bytes(keys) + rest, keys.len()) == Some(
            (keys, keys_bytes(keys).len() as int),
        ),
        (keys_bytes(keys) + rest).skip(keys_bytes(keys).len() as int) == rest,
    decreases keys.len(),
{
    let s = keys_bytes(keys) + rest;
    if keys.len() == 0 {
        assert(s.skip(0) =~= rest);
    } else {
        let tail = keys.skip(1);
        let behind = keys_bytes(tail) + rest;
        assert(s =~= blob_bytes(keys[0]) + behind);
        lemma_blob_read_back(keys[0], behind);
        assert forall|i: int| 0 <= i < tail.len() implies (#[trigger] tail[i]).len()
            <= u64::MAX by {
            assert(tail[i] == keys[i + 1]);
        }
        lemma_keys_read_back(tail, rest);
        assert(seq![keys[0]] + tail =~= keys);
        let used = 8 + keys[0].len() as int;
        assert(s.skip(used) == behind);
        assert(s.skip(keys_bytes(keys).len() as int) =~= behind.skip(
            keys_bytes(tail).len() as int,
        ));
    }
}

/// Reading the binary form of a peer gives the peer back, whatever follows
/// it.
pub proof fn lemma_peer_read_back(peer: PeerView, rest: Seq<u8>)
    requires
        peer.key.len() <= u64::MAX,
    ensures
        parse_peer(peer_bytes(peer) + rest) == Some((peer, peer_bytes(peer).len() as int)),
        (peer_bytes(peer) + rest).skip(peer_bytes(peer).len() as int) == rest,
{
    let s = peer_bytes(peer) + rest;
    let behind = addr_bytes(peer.addr) + rest;
    assert(s =~= blob_bytes(peer.key) + behind);
    lemma_blob_read_back(peer.key, behind);
    lemma_addr_read_back(peer.addr, rest);
    assert(s.skip(peer_bytes(peer).len() as int) =~= behind.skip(18));
}

/// Reading the binary form of a run of peers gives the peers back, whatever
/// follows them.
pub proof fn lemma_peers_read_back(peers: Seq<PeerView>, rest: Seq<u8>)
    requires
        forall|i: int| 0 <= i < peers.len() ==> (#[trigger] peers[i]).key.len() <= u64::MAX,
    ensures
        parse_peers(peers_bytes(peers) + rest, peers.len()) == Some(
            (peers, peers_bytes(peers).len() as int),
        ),
        (peers_bytes(peers) + rest).skip(peers_bytes(peers).len() as int) == rest,
    decreases peers.len(),
{
    let s = peers_bytes(peers) + rest;
    if peers.len() == 0 {
        assert(s.skip(0) =~= rest);
    } else {
        let tail = peers.skip(1);
        let behind = peers_bytes(tail) + rest;
        assert(s =~= peer_bytes(peers[0]) + behind);
        lemma_peer_read_back(peers[0], behind);
        assert forall|i: int| 0 <= i < tail.len() implies (#[trigger] tail[i]).key.len()
            <= u64::MAX by {
            assert(tail[i] == peers[i + 1]);
        }
        lemma_peers_read_back(tail, rest);
        assert(seq![peers[0]] + tail =~= peers);
        let used = peer_bytes(peers[0]).len() as int;
        assert(s.skip(used) == behind);
        assert(s.skip(peers_bytes(peers).len() as int) =~= behind.skip(
            peers_bytes(tail).len() as int,
        ));
    }
}

/// Reading the lists of a configuration and its last field gives them back.
pub proof fn lemma_lists_read_back(inbound: Seq<Seq<u8>>, outbound: Seq<PeerView>, last: u64)
    requires
        inbound.len() <= u64::MAX,
        outbound.len() <= u64::MAX,
        forall|i: int| 0 <= i < inbound.len() ==> (#[trigger] inbound[i]).len() <= u64::MAX,
        forall|i: int| 0 <= i < outbound.len() ==> (#[trigger] outbound[i]).key.len() <= u64::MAX,
    ensures
        ({
            let s = be64(inbound.len() as u64) + (keys_bytes(inbound) + (be64(
                outbound.len() as u64,
            ) + (peers_bytes(outbound) + be64(last))));
            parse_lists(s) == Some((inbound, outbound, last, s.len() as int))
        }),
{
    let s4 = be64(last);
    let s3 = peers_bytes(outbound) + s4;
    let s2 = be64(outbound.len() as u64) + s3;
    let s1 = keys_bytes(inbound) + s2;
    let s = be64(inbound.len() as u64) + s1;
    let n2 = keys_bytes(inbound).len() as int;
    let n4 = peers_bytes(outbound).len() as int;
    assert(parse_u64(s) == Some((inbound.len() as u64, 8int)) && s.skip(8) == s1) by {
        lemma_u64_read_back(inbound.len() as u64, s1);
    }
    assert(parse_keys(s1, inbound.len()) == Some((inbound, n2)) && s1.skip(n2) == s2) by {
        lemma_keys_read_back(inbound, s2);
    }
    assert(parse_u64(s2) == Some((outbound.len() as u64, 8int)) && s2.skip(8) == s3) by {
        lemma_u64_read_back(outbound.len() as u64, s3);
    }
    assert(parse_peers(s3, outbound.len()) == Some((outbound, n4)) && s3.skip(n4) == s4) by {
        lemma_peers_read_back(outbound, s4);
    }
    assert(parse_u64(s4) == Some((last, 8int))) by {
        lemma_u64_read_back(last, Seq::empty());
        assert(s4 + Seq::<u8>::empty() =~= s4);
    }
    assert(s.len() == 8 + n2 + 8 + n4 + 8) by {
        lemma_be64_read_back(inbound.len() as u64);
        lemma_be64_read_back(outbound.len() as u64);
        lemma_be64_read_back(last);
    }
}

/// Round trip of a configuration: decoding the binary form of a
/// configuration that is in order gives the configuration back.
pub proof fn law_config_round_trip(c: ConfigView)
    requires
        valid_config(c),
        fits_config(c),
    ensures
        parse_config(config_bytes(c)) == Some(c),
{
    let s6 = be64(c.gossip_static_inbound.len() as u64) + (keys_bytes(c.gossip_static_inbound) + (
    be64(c.gossip_static_outbound.len() as u64) + (peers_bytes(c.gossip_static_outbound) + be64(
        c.max_payload_size,
    ))));
    let s5 = be64(c.gossip_dynamic_inbound_limit) + s6;
    let s4 = blob_bytes(genesis_bytes(c.genesis)) + s5;
    let s3 = opt_addr_bytes(c.metrics_server_addr) + s4;
    let s2 = addr_bytes(c.public_addr) + s3;
    let s = addr_bytes(c.server_addr) + s2;
    assert(s == config_bytes(c));
    lemma_addr_read_back(c.server_addr, s2);
    lemma_addr_read_back(c.public_addr, s3);
    lemma_opt_addr_read_back(c.metrics_server_addr, s4);
    lemma_blob_read_back(genesis_bytes(c.genesis), s5);
    law_genesis_round_trip(c.genesis);
    lemma_u64_read_back(c.gossip_dynamic_inbound_limit, s6);
    lemma_lists_read_back(c.gossip_static_inbound, c.gossip_static_outbound, c.max_payload_size);
}

/// The binary form of a run of keys with one more key at its end is that of
/// the run, then the key behind its length.
pub proof fn lemma_keys_bytes_push(keys: Seq<Seq<u8>>, key: Seq<u8>)
    ensures
        keys_bytes(keys.push(key)) == keys_bytes(keys) + blob_bytes(key),
    decreases keys.len(),
{
    let longer = keys.push(key);
    if keys.len() == 0 {
        assert(longer.skip(1) =~= Seq::<Seq<u8>>::empty());
        assert(keys_bytes(longer.skip(1)) =~= Seq::<u8>::empty());
        assert(keys_bytes(longer) =~= keys_bytes(keys) + blob_bytes(key));
    } else {
        assert(longer.skip(1) =~= keys.skip(1).push(key));
        lemma_keys_bytes_push(keys.skip(1), key);
        assert(keys_bytes(longer) =~= keys_bytes(keys) + blob_bytes(key));
    }
}

/// The binary form of a run of peers with one more peer at its end is that
/// of the run, then that of the peer.
pub proof fn lemma_peers_bytes_push(peers: Seq<PeerView>, peer: PeerView)
    ensures
        peers_bytes(peers.push(peer)) == peers_bytes(peers) + peer_bytes(peer),
    decreases peers.len(),
{
    let longer = peers.push(peer);
    if peers.len() == 0 {
        assert(longer.skip(1) =~= Seq::<PeerView>::empty());
        assert(peers_bytes(longer.skip(1)) =~= Seq::<u8>::empty());
        assert(peers_bytes(longer) =~= peers_bytes(peers) + peer_bytes(peer));
    } else {
        assert(longer.skip(1) =~= peers.skip(1).push(peer));
        lemma_peers_bytes_push(peers.skip(1), peer);
        assert(peers_bytes(longer) =~= peers_bytes(peers) + peer_bytes(peer));
    }
}

/// Appends the binary form of an address.
pub fn push_addr(out: &mut Vec<u8>, addr: NetAddr)
    ensures
        final(out)@ == old(out)@ + addr_bytes(addr),
{
    push_be128(out, addr.ip);
    push_be16(out, addr.port);
    assert(out@ =~= old(out)@ + addr_bytes(addr));
}

/// Appends the binary form of an address that may be absent.
pub fn push_opt_addr(out: &mut Vec<u8>, addr: Option<NetAddr>)
    ensures
        final(out)@ == old(out)@ + opt_addr_bytes(addr),
{
    match addr {
        None => {
            out.push(0);
        },
        Some(addr) => {
            out.push(1);
            push_addr(out, addr);
        },
    }
    assert(out@ =~= old(out)@ + opt_addr_bytes(addr));
}

/// Appends the binary form of a run of keys.
pub fn push_keys(out: &mut Vec<u8>, keys: &Vec<Vec<u8>>)
    ensures
        final(out)@ == old(out)@ + keys_bytes(key_views(keys@)),
{
    let ghost views = key_views(keys@);
    let mut i: usize = 0;
    assert(views.take(0) =~= Seq::<Seq<u8>>::empty());
    assert(out@ =~= old(out)@ + keys_bytes(views.take(0)));
    while i < keys.len()
        invariant
            i <= keys@.len(),
            views == key_views(keys@),
            out@ == old(out)@ + keys_bytes(views.take(i as int)),
        decreases keys.len() - i,
    {
        push_blob(out, keys[i].as_slice());
        proof {
            lemma_keys_bytes_push(views.take(i as int), views[i as int]);
            assert(views.take(i as int).push(views[i as int]) =~= views.take(i + 1));
            assert(out@ =~= old(out)@ + keys_bytes(views.take(i + 1)));
        }
        i += 1;
    }
    assert(views.take(keys@.len() as int) =~= views);
}

/// Appends the binary form of a run of peers.
pub fn push_peers(out: &mut Vec<u8>, peers: &Vec<Peer>)
    ensures
        final(out)@ == old(out)@ + peers_bytes(peer_views(peers@)),
{
    let ghost views = peer_views(peers@);
    let mut i: usize = 0;
    assert(views.take(0) =~= Seq::<PeerView>::empty());
    assert(out@ =~= old(out)@ + peers_bytes(views.take(0)));
    while i < peers.len()
        invariant
            i <= peers@.len(),
            views == peer_views(peers@),
            out@ == old(out)@ + peers_bytes(views.take(i as int)),
        decreases peers.len() - i,
    {
        let ghost before = out@;
        push_blob(out, peers[i].key.as_slice());
        push_addr(out, peers[i].addr);
        proof {
            lemma_peers_bytes_push(views.take(i as int), views[i as int]);
            assert(views.take(i as int).push(views[i as int]) =~= views.take(i + 1));
            assert(out@ =~= before + peer_bytes(views[i as int]));
            assert(out@ =~= old(out)@ + peers_bytes(views.take(i + 1)));
        }
        i += 1;
    }
    assert(views.take(peers@.len() as int) =~= views);
}

/// Reads the address at `at`, and the place behind it.
pub fn take_addr(bytes: &[u8], at: usize) -> (read: Option<(NetAddr, usize)>)
    ensures
        read is Some <==> at <= bytes@.len() && parse_addr(bytes@.skip(at as int)) is Some,
        read is Some ==> (read->0).0 == (parse_addr(bytes@.skip(at as int))->0).0 && (read->0).1
            == at + (parse_addr(bytes@.skip(at as int))->0).1 && (read->0).1 <= bytes@.len(),
{
    let ghost s = bytes@.skip(at as int);
    if at > bytes.len() || bytes.len() - at < 18 {
        return None;
    }
    assert(bytes@.skip(at + 16).subrange(0, 2) =~= s.subrange(16, 18));
    match take_be128(bytes, at) {
        None => None,
        Some((ip, next)) => match take_be16(bytes, next) {
            None => None,
            Some((port, end)) => Some((NetAddr { ip, port }, end)),
        },
    }
}

/// Reads the address that may be absent at `at`, and the place behind it.
pub fn take_opt_addr(bytes: &[u8], at: usize) -> (read: Option<(Option<NetAddr>, usize)>)
    ensures
        read is Some <==> at <= bytes@.len() && parse_opt_addr(bytes@.skip(at as int)) is Some,
        read is Some ==> (read->0).0 == (parse_opt_addr(bytes@.skip(at as int))->0).0 && (
        read->0).1 == at + (parse_opt_addr(bytes@.skip(at as int))->0).1 && (read->0).1
            <= bytes@.len(),
{
    let ghost s = bytes@.skip(at as int);
    if at > bytes.len() || bytes.len() - at < 1 {
        return None;
    }
    assert(s[0] == bytes@[at as int]);
    assert(s.skip(1) =~= bytes@.skip(at + 1));
    let tag = bytes[at];
    if tag == 0 {
        Some((None, at + 1))
    } else if tag == 1 {
        match take_addr(bytes, at + 1) {
            None => None,
            Some((addr, end)) => Some((Some(addr), end)),
        }
    } else {
        None
    }
}

/// Reads the `count` keys at `at`, and the place behind them.
pub fn take_keys(bytes: &[u8], at: usize, count: u64) -> (read: Option<(Vec<Vec<u8>>, usize)>)
    ensures
        read is Some <==> at <= bytes@.len() && parse_keys(bytes@.skip(at as int), count as nat)
            is Some,
        read is Some ==> key_views((read->0).0@) == (parse_keys(
            bytes@.skip(at as int),
            count as nat,
        )->0).0 && (read->0).1 == at + (parse_keys(bytes@.skip(at as int), count as nat)->0).1
            && at <= (read->0).1 <= bytes@.len(),
{
    if at > bytes.len() {
        return None;
    }
    let ghost whole = parse_keys(bytes@.skip(at as int), count as nat);
    let mut keys: Vec<Vec<u8>> = Vec::new();
    let mut cur: usize = at;
    let mut i: u64 = 0;
    assert(key_views(keys@) + (whole->0).0 =~= (whole->0).0);
    while i < count
        invariant
            at <= cur <= bytes@.len(),
            i <= count,
            whole == parse_keys(bytes@.skip(at as int), count as nat),
            whole == match parse_keys(bytes@.skip(cur as int), (count - i) as nat) {
                None => None,
                Some((more, used)) => Some((key_views(keys@) + more, cur - at + used)),
            },
        decreases count - i,
    {
        let ghost rest = bytes@.skip(cur as int);
        let ghost before = key_views(keys@);
        match take_blob(bytes, cur) {
            None => {
                return None;
            },
            Some((key, next)) => {
                proof {
                    let used = (parse_blob(rest)->0).1;
                    assert(rest.skip(used) =~= bytes@.skip(next as int));
                    match parse_keys(bytes@.skip(next as int), (count - i - 1) as nat) {
                        None => {},
                        Some((more, used_more)) => {
                            assert(before + (seq![key@] + more) =~= before.push(key@) + more);
                        },
                    }
                    assert(key_views(keys@.push(key)) =~= before.push(key@));
                }
                keys.push(key);
                cur = next;
                i += 1;
            },
        }
    }
    assert(key_views(keys@) + Seq::<Seq<u8>>::empty() =~= key_views(keys@));
    Some((keys, cur))
}

/// Reads the peer at `at`, and the place behind it.
pub fn take_peer(bytes: &[u8], at: usize) -> (read: Option<(Peer, usize)>)
    ensures
        read is Some <==> at <= bytes@.len() && parse_peer(bytes@.skip(at as int)) is Some,
        read is Some ==> (read->0).0@ == (parse_peer(bytes@.skip(at as int))->0).0 && (read->0).1
            == at + (parse_peer(bytes@.skip(at as int))->0).1 && (read->0).1 <= bytes@.len(),
{
    let ghost s = bytes@.skip(at as int);
    match take_blob(bytes, at) {
        None => None,
        Some((key, next)) => {
            assert(s.skip((parse_blob(s)->0).1) =~= bytes@.skip(next as int));
            match take_addr(bytes, next) {
                None => None,
                Some((addr, end)) => Some((Peer { key, addr }, end)),
            }
        },
    }
}

/// Reads the `count` peers at `at`, and the place behind them.
pub fn take_peers(bytes: &[u8], at: usize, count: u64) -> (read: Option<(Vec<Peer>, usize)>)
    ensures
        read is Some <==> at <= bytes@.len() && parse_peers(bytes@.skip(at as int), count as nat)
            is Some,
        read is Some ==> peer_views((read->0).0@) == (parse_peers(
            bytes@.skip(at as int),
            count as nat,
        )->0).0 && (read->0).1 == at + (parse_peers(bytes@.skip(at as int), count as nat)->0).1
            && at <= (read->0).1 <= bytes@.len(),
{
    if at > bytes.len() {
        return None;
    }
    let ghost whole = parse_peers(bytes@.skip(at as int), count as nat);
    let mut peers: Vec<Peer> = Vec::new();
    let mut cur: usize = at;
    let mut i: u64 = 0;
    assert(peer_views(peers@) + (whole->0).0 =~= (whole->0).0);
    while i < count
        invariant
            at <= cur <= bytes@.len(),
            i <= count,
            whole == parse_peers(bytes@.skip(at as int), count as nat),
            whole == match parse_peers(bytes@.skip(cur as int), (count - i) as nat) {
                None => None,
                Some((more, used)) => Some((peer_views(peers@) + more, cur - at + used)),
            },
        decreases count - i,
    {
        let ghost rest = bytes@.skip(cur as int);
        let ghost before = peer_views(peers@);
        match take_peer(bytes, cur) {
            None => {
                return None;
            },
            Some((peer, next)) => {
                proof {
                    let used = (parse_peer(rest)->0).1;
                    assert(rest.skip(used) =~= bytes@.skip(next as int));
                    match parse_peers(bytes@.skip(next as int), (count - i - 1) as nat) {
                        None => {},
                        Some((more, used_more)) => {
                            assert(before + (seq![peer@] + more) =~= before.push(peer@) + more);
                        },
                    }
                    assert(peer_views(peers@.push(peer)) =~= before.push(peer@));
                }
                peers.push(peer);
                cur = next;
                i += 1;
            },
        }
    }
    assert(peer_views(peers@) + Seq::<PeerView>::empty() =~= peer_views(peers@));
    Some((peers, cur))
}

/// Joining byte strings is associative.
pub proof fn lemma_join(a: Seq<u8>, b: Seq<u8>, c: Seq<u8>)
    ensures
        (a + b) + c == a + (b + c),
{
    assert((a + b) + c =~= a + (b + c));
}

/// The binary form of a configuration is its fields written one after the
/// other.
pub proof fn lemma_config_bytes_flat(c: ConfigView)
    ensures
        config_bytes(c) == Seq::<u8>::empty() + addr_bytes(c.server_addr) + addr_bytes(
            c.public_addr,
        ) + opt_addr_bytes(c.metrics_server_addr) + blob_bytes(genesis_bytes(c.genesis)) + be64(
            c.gossip_dynamic_inbound_limit,
        ) + be64(c.gossip_static_inbound.len() as u64) + keys_bytes(c.gossip_static_inbound)
            + be64(c.gossip_static_outbound.len() as u64) + peers_bytes(c.gossip_static_outbound)
            + be64(c.max_payload_size),
{
    let a1 = addr_bytes(c.server_addr);
    let a2 = addr_bytes(c.public_addr);
    let a3 = opt_addr_bytes(c.metrics_server_addr);
    let a4 = blob_bytes(genesis_bytes(c.genesis));
    let a5 = be64(c.gossip_dynamic_inbound_limit);
    let a6 = be64(c.gossip_static_inbound.len() as u64);
    let a7 = keys_bytes(c.gossip_static_inbound);
    let a8 = be64(c.gossip_static_outbound.len() as u64);
    let a9 = peers_bytes(c.gossip_static_outbound);
    let a10 = be64(c.max_payload_size);
    let t9 = a9 + a10;
    let t8 = a8 + t9;
    let t7 = a7 + t8;
    let t6 = a6 + t7;
    let t5 = a5 + t6;
    let t4 = a4 + t5;
    let t3 = a3 + t4;
    let x1 = Seq::<u8>::empty() + a1;
    let x2 = x1 + a2;
    let x3 = x2 + a3;
    let x4 = x3 + a4;
    let x5 = x4 + a5;
    let x6 = x5 + a6;
    let x7 = x6 + a7;
    let x8 = x7 + a8;
    assert(x1 =~= a1);
    lemma_join(x8, a9, a10);
    lemma_join(x7, a8, t9);
    lemma_join(x6, a7, t8);
    lemma_join(x5, a6, t7);
    lemma_join(x4, a5, t6);
    lemma_join(x3, a4, t5);
    lemma_join(x2, a3, t4);
    lemma_join(x1, a2, t3);
}

/// Reads the lists of a configuration and its last field at `at`, and the
/// place behind them.
pub fn take_lists(bytes: &[u8], at: usize) -> (read: Option<(Vec<Vec<u8>>, Vec<Peer>, u64, usize)>)
    ensures
        read is Some <==> at <= bytes@.len() && parse_lists(bytes@.skip(at as int)) is Some,
        read is Some ==> ({
            let parsed = parse_lists(bytes@.skip(at as int))->0;
            &&& key_views((read->0).0@) == parsed.0
            &&& peer_views((read->0).1@) == parsed.1
            &&& (read->0).2 == parsed.2
            &&& (read->0).3 == at + parsed.3
            &&& (read->0).3 <= bytes@.len()
        }),
{
    let ghost s = bytes@.skip(at as int);
    let (inbound_count, at1) = match take_be64(bytes, at) {
        Some(read) => read,
        None => {
            return None;
        },
    };
    let (inbound, at2) = match take_keys(bytes, at1, inbound_count) {
        Some(read) => {
            assert(s.skip(8) =~= bytes@.skip(at1 as int));
            read
        },
        None => {
            assert(s.skip(8) =~= bytes@.skip(at1 as int));
            return None;
        },
    };
    let ghost n2 = at2 - at1;
    assert(s.skip(8) =~= bytes@.skip(at1 as int));
    assert(bytes@.skip(at1 as int).skip(n2) =~= bytes@.skip(at2 as int));
    let (outbound_count, at3) = match take_be64(bytes, at2) {
        Some(read) => read,
        None => {
            return None;
        },
    };
    assert(bytes@.skip(at2 as int).skip(8) =~= bytes@.skip(at3 as int));
    let (outbound, at4) = match take_peers(bytes, at3, outbound_count) {
        Some(read) => read,
        None => {
            return None;
        },
    };
    let ghost n4 = at4 - at3;
    assert(bytes@.skip(at3 as int).skip(n4) =~= bytes@.skip(at4 as int));
    let (max_payload_size, at5) = match take_be64(bytes, at4) {
        Some(read) => read,
        None => {
            return None;
        },
    };
    Some((inbound, outbound, max_payload_size, at5))
}

/// Whether no key occurs twice among `keys`.
pub fn keys_distinct(keys: &Vec<Vec<u8>>) -> (distinct: bool)
    ensures
        distinct == distinct_keys(key_views(keys@)),
{
    let ghost views = key_views(keys@);
    let mut j: usize = 0;
    while j < keys.len()
        invariant
            j <= keys@.len(),
            views == key_views(keys@),
            forall|a: int, b: int| 0 <= a < b < j ==> #[trigger] views[a] != #[trigger] views[b],
        decreases keys.len() - j,
    {
        let mut i: usize = 0;
        while i < j
            invariant
                i <= j < keys@.len(),
                views == key_views(keys@),
                forall|a: int| 0 <= a < i ==> #[trigger] views[a] != views[j as int],
            decreases j - i,
        {
            if same_bytes(keys[i].as_slice(), keys[j].as_slice()) {
                assert(views[i as int] == views[j as int]);
                return false;
            }
            i += 1;
        }
        j += 1;
    }
    true
}

/// Whether no key occurs twice among the keys of `peers`.
pub fn peers_distinct(peers: &Vec<Peer>) -> (distinct: bool)
    ensures
        distinct == distinct_keys(peer_keys(peer_views(peers@))),
{
    let ghost views = peer_keys(peer_views(peers@));
    let mut j: usize = 0;
    while j < peers.len()
        invariant
            j <= peers@.len(),
            views == peer_keys(peer_views(peers@)),
            forall|a: int, b: int| 0 <= a < b < j ==> #[trigger] views[a] != #[trigger] views[b],
        decreases peers.len() - j,
    {
        let mut i: usize = 0;
        while i < j
            invariant
                i <= j < peers@.len(),
                views == peer_keys(peer_views(peers@)),
                forall|a: int| 0 <= a < i ==> #[trigger] views[a] != views[j as int],
            decreases j - i,
        {
            if same_bytes(peers[i].key.as_slice(), peers[j].key.as_slice()) {
                assert(views[i as int] == views[j as int]);
                return false;
            }
            i += 1;
        }
        j += 1;
    }
    true
}

impl AppConfig {
    /// Whether the configuration is in order: no key occurs twice among its
    /// static inbound peers, nor among its static outbound peers.
    pub fn is_valid(&self) -> (valid: bool)
        ensures
            valid == valid_config(self@),
    {
        keys_distinct(&self.gossip_static_inbound) && peers_distinct(&self.gossip_static_outbound)
    }

    /// The binary form of the configuration. Decoding it gives the
    /// configuration back, if the configuration is in order.
    pub fn encode(&self) -> (bytes: Vec<u8>)
        ensures
            bytes@ == config_bytes(self@),
            fits_config(self@),
            valid_config(self@) ==> parse_config(bytes@) == Some(self@),
    {
        let mut out: Vec<u8> = Vec::new();
        push_addr(&mut out, self.server_addr);
        push_addr(&mut out, self.public_addr);
        push_opt_addr(&mut out, self.metrics_server_addr);
        let genesis = self.genesis.encode();
        push_blob(&mut out, genesis.as_slice());
        push_be64(&mut out, self.gossip_dynamic_inbound_limit);
        push_be64(&mut out, self.gossip_static_inbound.len() as u64);
        push_keys(&mut out, &self.gossip_static_inbound);
        push_be64(&mut out, self.gossip_static_outbound.len() as u64);
        push_peers(&mut out, &self.gossip_static_outbound);
        push_be64(&mut out, self.max_payload_size);
        proof {
            assert(genesis.len() == genesis@.len());
            self.lemma_fits();
            lemma_config_bytes_flat(self@);
            if valid_config(self@) {
                law_config_round_trip(self@);
            }
        }
        out
    }

    /// The lists of a configuration in memory are short enough to be written
    /// down.
    proof fn lemma_fits(&self)
        requires
            genesis_bytes(self@.genesis).len() <= u64::MAX,
        ensures
            fits_config(self@),
    {
        let c = self@;
        assert(self.gossip_static_inbound.len() == self.gossip_static_inbound@.len());
        assert(self.gossip_static_outbound.len() == self.gossip_static_outbound@.len());
        assert forall|i: int| 0 <= i < c.gossip_static_inbound.len() implies (
        #[trigger] c.gossip_static_inbound[i]).len() <= u64::MAX by {
            let key = self.gossip_static_inbound@[i];
            assert(key.len() == key@.len());
        }
        assert forall|i: int| 0 <= i < c.gossip_static_outbound.len() implies (
        #[trigger] c.gossip_static_outbound[i]).key.len() <= u64::MAX by {
            let key = self.gossip_static_outbound@[i].key;
            assert(key.len() == key@.len());
        }
    }

    /// Reads a configuration back from its binary form. Bytes that are not
    /// the binary form of a configuration in order give none.
    pub fn decode(bytes: &[u8]) -> (config: Option<AppConfig>)
        ensures
            config is Some <==> parse_config(bytes@) is Some,
            config is Some ==> config->0@ == parse_config(bytes@)->0,
    {
        let ghost s = bytes@;
        assert(s.skip(0) =~= s);
        let (server_addr, at1) = match take_addr(bytes, 0) {
            Some(read) => read,
            None => {
                return None;
            },
        };
        let (public_addr, at2) = match take_addr(bytes, at1) {
            Some(read) => read,
            None => {
                return None;
            },
        };
        assert(s.skip(18).skip(18) =~= s.skip(at2 as int));
        let (metrics_server_addr, at3) = match take_opt_addr(bytes, at2) {
            Some(read) => read,
            None => {
                return None;
            },
        };
        let ghost n3 = at3 - at2;
        assert(s.skip(18).skip(18).skip(n3) =~= s.skip(at3 as int));
        let (genesis, at4) = match take_blob(bytes, at3) {
            Some(read) => read,
            None => {
                return None;
            },
        };
        let ghost n4 = at4 - at3;
        assert(s.skip(18).skip(18).skip(n3).skip(n4) =~= s.skip(at4 as int));
        let genesis = match GenesisRecord::decode(genesis.as_slice()) {
            Some(genesis) => genesis,
            None => {
                return None;
            },
        };
        let (limit, at5) = match take_be64(bytes, at4) {
            Some(read) => read,
            None => {
                return None;
            },
        };
        assert(s.skip(18).skip(18).skip(n3).skip(n4).skip(8) =~= s.skip(at5 as int));
        let (inbound, outbound, max_payload_size, at6) = match take_lists(bytes, at5) {
            Some(read) => read,
            None => {
                return None;
            },
        };
        let config = AppConfig {
            server_addr,
            public_addr,
            metrics_server_addr,
            genesis,
            gossip_dynamic_inbound_limit: limit,
            gossip_static_inbound: inbound,
            gossip_static_outbound: outbound,
            max_payload_size,
        };
        if at6 != bytes.len() || !config.is_valid() {
            return None;
        }
        Some(config)
    }
}

/// `keys` with `key` added as to a set: a key that is there already is not
/// added again.
pub open spec fn with_key(keys: Seq<Seq<u8>>, key: Seq<u8>) -> Seq<Seq<u8>> {
    if keys.contains(key) {
        keys
    } else {
        keys.push(key)
    }
}

/// The set of the keys in `keys`: each key once, in the order in which the
/// keys first occur.
pub open spec fn key_set(keys: Seq<Seq<u8>>) -> Seq<Seq<u8>>
    decreases keys.len(),
{
    if keys.len() == 0 {
        Seq::empty()
    } else {
        with_key(key_set(keys.drop_last()), keys.last())
    }
}

/// The place of the first of `peers` that has the key `key`, or the number
/// of the peers where none has it.
pub open spec fn key_place(peers: Seq<PeerView>, key: Seq<u8>) -> int
    decreases peers.len(),
{
    if peers.len() == 0 {
        0
    } else if peers[0].key == key {
        0
    } else {
        1 + key_place(peers.skip(1), key)
    }
}

/// `peers` with `peer` added as to a map: where a peer has the same key, the
/// new peer takes its place.
pub open spec fn with_peer(peers: Seq<PeerView>, peer: PeerView) -> Seq<PeerView> {
    if key_place(peers, peer.key) < peers.len() {
        peers.update(key_place(peers, peer.key), peer)
    } else {
        peers.push(peer)
    }
}

/// The map of the peers in `peers`: one peer for each key, in the order in
/// which the keys first occur, each with the address that was given last.
pub open spec fn peer_map(peers: Seq<PeerView>) -> Seq<PeerView>
    decreases peers.len(),
{
    if peers.len() == 0 {
        Seq::empty()
    } else {
        with_peer(peer_map(peers.drop_last()), peers.last())
    }
}

/// The place of a key is the place of the first peer that has it.
pub proof fn lemma_key_place(peers: Seq<PeerView>, key: Seq<u8>)
    ensures
        0 <= key_place(peers, key) <= peers.len(),
        key_place(peers, key) < peers.len() ==> peers[key_place(peers, key)].key == key,
        forall|j: int| 0 <= j < key_place(peers, key) ==> (#[trigger] peers[j]).key != key,
    decreases peers.len(),
{
    if peers.len() > 0 && peers[0].key != key {
        let tail = peers.skip(1);
        lemma_key_place(tail, key);
        assert forall|j: int| 0 <= j < key_place(peers, key) implies (#[trigger] peers[j]).key
            != key by {
            if j > 0 {
                assert(tail[j - 1] == peers[j]);
            }
        }
        if key_place(peers, key) < peers.len() {
            assert(tail[key_place(tail, key)] == peers[key_place(peers, key)]);
        }
    }
}

/// Adding a key as to a set keeps the keys distinct, and adds one key at
/// most.
pub proof fn lemma_with_key(keys: Seq<Seq<u8>>, key: Seq<u8>)
    requires
        distinct_keys(keys),
    ensures
        distinct_keys(with_key(keys, key)),
        keys.len() <= with_key(keys, key).len() <= keys.len() + 1,
{
    if !keys.contains(key) {
        let longer = keys.push(key);
        assert forall|i: int, j: int| 0 <= i < j < longer.len() implies #[trigger] longer[i]
            != #[trigger] longer[j] by {
            if j == keys.len() {
                assert(keys[i] == longer[i]);
                assert(keys.contains(keys[i]));
            } else {
                assert(keys[i] != keys[j]);
            }
        }
    }
}

/// Adding a peer as to a map keeps the keys distinct, and adds one peer at
/// most.
pub proof fn lemma_with_peer(peers: Seq<PeerView>, peer: PeerView)
    requires
        distinct_keys(peer_keys(peers)),
    ensures
        distinct_keys(peer_keys(with_peer(peers, peer))),
        peers.len() <= with_peer(peers, peer).len() <= peers.len() + 1,
{
    lemma_key_place(peers, peer.key);
    let keys = peer_keys(peers);
    let after = peer_keys(with_peer(peers, peer));
    let p = key_place(peers, peer.key);
    if p < peers.len() {
        assert(after =~= keys);
    } else {
        assert forall|i: int, j: int| 0 <= i < j < after.len() implies #[trigger] after[i]
            != #[trigger] after[j] by {
            if j == peers.len() {
                assert(after[i] == peers[i].key);
            } else {
                assert(keys[i] != keys[j]);
            }
        }
    }
}

/// Every key of the set of some keys is one of those keys.
pub proof fn lemma_key_set_members(keys: Seq<Seq<u8>>)
    ensures
        forall|i: int|
            0 <= i < key_set(keys).len() ==> keys.contains(#[trigger] key_set(keys)[i]),
    decreases keys.len(),
{
    if keys.len() > 0 {
        let front = keys.drop_last();
        lemma_key_set_members(front);
        assert forall|i: int| 0 <= i < key_set(keys).len() implies keys.contains(
            #[trigger] key_set(keys)[i],
        ) by {
            let key = key_set(keys)[i];
            if i < key_set(front).len() {
                assert(key == key_set(front)[i]);
                let j = choose|j: int| 0 <= j < front.len() && front[j] == key;
                assert(keys[j] == key);
            } else {
                assert(keys[keys.len() - 1] == key);
            }
        }
    }
}

/// Every peer of the map of some peers has the key of one of those peers.
pub proof fn lemma_peer_map_members(peers: Seq<PeerView>)
    ensures
        forall|i: int|
            0 <= i < peer_map(peers).len() ==> peer_keys(peers).contains(
                (#[trigger] peer_map(peers)[i]).key,
            ),
    decreases peers.len(),
{
    if peers.len() > 0 {
        let front = peers.drop_last();
        let last = peers.last();
        lemma_peer_map_members(front);
        lemma_key_place(peer_map(front), last.key);
        assert forall|i: int| 0 <= i < peer_map(peers).len() implies peer_keys(peers).contains(
            (#[trigger] peer_map(peers)[i]).key,
        ) by {
            let key = peer_map(peers)[i].key;
            if i < peer_map(front).len() && peer_map(front)[i].key == key {
                let j = choose|j: int|
                    0 <= j < peer_keys(front).len() && peer_keys(front)[j] == key;
                assert(peer_keys(peers)[j] == key);
            } else {
                assert(peer_keys(peers)[peers.len() - 1] == key);
            }
        }
    }
}

/// The set of some keys has no key twice, and no more keys than there were.
pub proof fn lemma_key_set(keys: Seq<Seq<u8>>)
    ensures
        distinct_keys(key_set(keys)),
        key_set(keys).len() <= keys.len(),
    decreases keys.len(),
{
    if keys.len() > 0 {
        lemma_key_set(keys.drop_last());
        lemma_with_key(key_set(keys.drop_last()), keys.last());
    }
}

/// The map of some peers has no key twice, and no more peers than there
/// were.
pub proof fn lemma_peer_map(peers: Seq<PeerView>)
    ensures
        distinct_keys(peer_keys(peer_map(peers))),
        peer_map(peers).len() <= peers.len(),
    decreases peers.len(),
{
    if peers.len() > 0 {
        lemma_peer_map(peers.drop_last());
        lemma_with_peer(peer_map(peers.drop_last()), peers.last());
    }
}

/// The set of at least one key has a key.
pub proof fn lemma_key_set_nonempty(keys: Seq<Seq<u8>>)
    requires
        keys.len() >= 1,
    ensures
        key_set(keys).len() >= 1,
{
    let front = key_set(keys.drop_last());
    if front.contains(keys.last()) {
        let i = choose|i: int| 0 <= i < front.len() && front[i] == keys.last();
    }
}

/// The map of at least one peer has a peer.
pub proof fn lemma_peer_map_nonempty(peers: Seq<PeerView>)
    requires
        peers.len() >= 1,
    ensures
        peer_map(peers).len() >= 1,
{
    lemma_key_place(peer_map(peers.drop_last()), peers.last().key);
}

/// Keys of which none occurs twice are their own set.
pub proof fn lemma_key_set_of_distinct(keys: Seq<Seq<u8>>)
    requires
        distinct_keys(keys),
    ensures
        key_set(keys) == keys,
    decreases keys.len(),
{
    if keys.len() == 0 {
        assert(key_set(keys) =~= keys);
    } else {
        let front = keys.drop_last();
        assert forall|i: int, j: int| 0 <= i < j < front.len() implies #[trigger] front[i]
            != #[trigger] front[j] by {
            assert(front[i] == keys[i] && front[j] == keys[j]);
        }
        lemma_key_set_of_distinct(front);
        if front.contains(keys.last()) {
            let i = choose|i: int| 0 <= i < front.len() && front[i] == keys.last();
            assert(keys[i] != keys[keys.len() - 1]);
        }
        assert(front.push(keys.last()) =~= keys);
    }
}

/// Peers of which no key occurs twice are their own map.
pub proof fn lemma_peer_map_of_distinct(peers: Seq<PeerView>)
    requires
        distinct_keys(peer_keys(peers)),
    ensures
        peer_map(peers) == peers,
    decreases peers.len(),
{
    if peers.len() == 0 {
        assert(peer_map(peers) =~= peers);
    } else {
        let front = peers.drop_last();
        let keys = peer_keys(peers);
        assert forall|i: int, j: int| 0 <= i < j < front.len() implies #[trigger] peer_keys(
            front,
        )[i] != #[trigger] peer_keys(front)[j] by {
            assert(peer_keys(front)[i] == keys[i] && peer_keys(front)[j] == keys[j]);
        }
        lemma_peer_map_of_distinct(front);
        lemma_key_place(front, peers.last().key);
        let p = key_place(front, peers.last().key);
        if p < front.len() {
            assert(keys[p] == front[p].key);
            assert(keys[p] != keys[peers.len() - 1]);
        }
        assert(front.push(peers.last()) =~= peers);
    }
}

/// The number of draws that one configuration is made of.
pub const CONFIG_DRAWS: usize = 25;

/// The draw at place `i` of a run of draws, empty where the run has none
/// there.
pub open spec fn draw_at(draws: Seq<Seq<u8>>, i: int) -> Seq<u8> {
    if 0 <= i < draws.len() {
        draws[i]
    } else {
        Seq::empty()
    }
}

/// The draws are those of one configuration: twenty-five, of thirty-two
/// bytes each.
pub open spec fn whole_draws(draws: Seq<Seq<u8>>) -> bool {
    &&& draws.len() == CONFIG_DRAWS
    &&& forall|i: int| 0 <= i < draws.len() ==> (#[trigger] draws[i]).len() == 32
}

/// The keys drawn for the static inbound peers: the five draws from the
/// eighth on.
pub open spec fn drawn_keys(draws: Seq<Seq<u8>>) -> Seq<Seq<u8>> {
    Seq::new(5, |k: int| draw_at(draws, 7 + k))
}

/// The static outbound peers drawn: six pairs of draws from the thirteenth
/// on, the first of a pair the key, the second the address.
pub open spec fn drawn_peers(draws: Seq<Seq<u8>>) -> Seq<PeerView> {
    Seq::new(
        6,
        |k: int|
            PeerView { key: draw_at(draws, 12 + 2 * k), addr: addr_in(draw_at(draws, 13 + 2 * k)) },
    )
}

/// The configuration that a run of draws stands for.
pub open spec fn config_of_draws(draws: Seq<Seq<u8>>) -> ConfigView {
    ConfigView {
        server_addr: addr_in(draw_at(draws, 0)),
        public_addr: addr_in(draw_at(draws, 1)),
        metrics_server_addr: Some(addr_in(draw_at(draws, 2))),
        genesis: GenesisView {
            fork: number_in(draw_at(draws, 3)),
            first_block: number_in(draw_at(draws, 4)),
            root: draw_at(draws, 5),
        },
        gossip_dynamic_inbound_limit: number_in(draw_at(draws, 6)),
        gossip_static_inbound: key_set(drawn_keys(draws)),
        gossip_static_outbound: peer_map(drawn_peers(draws)),
        max_payload_size: number_in(draw_at(draws, 24)),
    }
}

/// What holds of every configuration that whole draws stand for: it is in
/// order, its metrics address is there, it has between one and five static
/// inbound peers and between one and six static outbound peers, exactly five
/// and six where no key was drawn twice, and its root and its keys have
/// thirty-two bytes.
pub proof fn lemma_config_of_whole_draws(draws: Seq<Seq<u8>>)
    requires
        whole_draws(draws),
    ensures
        ({
            let c = config_of_draws(draws);
            &&& valid_config(c)
            &&& c.metrics_server_addr is Some
            &&& 1 <= c.gossip_static_inbound.len() <= 5
            &&& 1 <= c.gossip_static_outbound.len() <= 6
            &&& distinct_keys(drawn_keys(draws)) ==> c.gossip_static_inbound == drawn_keys(draws)
            &&& distinct_keys(peer_keys(drawn_peers(draws))) ==> c.gossip_static_outbound
                == drawn_peers(draws)
            &&& c.genesis.root.len() == 32
            &&& forall|i: int|
                0 <= i < c.gossip_static_inbound.len() ==> (#[trigger] c.gossip_static_inbound[i]).len()
                    == 32
            &&& forall|i: int|
                0 <= i < c.gossip_static_outbound.len() ==> (
                #[trigger] c.gossip_static_outbound[i]).key.len() == 32
        }),
{
    let keys = drawn_keys(draws);
    let peers = drawn_peers(draws);
    lemma_key_set(keys);
    lemma_peer_map(peers);
    lemma_key_set_nonempty(keys);
    lemma_peer_map_nonempty(peers);
    lemma_key_set_members(keys);
    lemma_peer_map_members(peers);
    if distinct_keys(keys) {
        lemma_key_set_of_distinct(keys);
    }
    if distinct_keys(peer_keys(peers)) {
        lemma_peer_map_of_distinct(peers);
    }
    assert forall|i: int| 0 <= i < key_set(keys).len() implies (#[trigger] key_set(keys)[i]).len()
        == 32 by {
        let key = key_set(keys)[i];
        let j = choose|j: int| 0 <= j < keys.len() && keys[j] == key;
        assert(keys[j] == draws[7 + j]);
    }
    assert forall|i: int| 0 <= i < peer_map(peers).len() implies (#[trigger] peer_map(
        peers,
    )[i]).key.len() == 32 by {
        let key = peer_map(peers)[i].key;
        let j = choose|j: int| 0 <= j < peer_keys(peers).len() && peer_keys(peers)[j] == key;
        assert(peer_keys(peers)[j] == draws[12 + 2 * j]);
    }
}

/// A copy of the draw at place `i`, empty where there is none.
pub fn draw_of(draws: &Vec<Vec<u8>>, i: usize) -> (draw: Vec<u8>)
    ensures
        draw@ == draw_at(key_views(draws@), i as int),
{
    if i < draws.len() {
        copy_bytes(draws[i].as_slice())
    } else {
        Vec::new()
    }
}

/// Adds `key` to `keys` as to a set.
pub fn insert_key(keys: &mut Vec<Vec<u8>>, key: Vec<u8>)
    ensures
        key_views(final(keys)@) == with_key(key_views(old(keys)@), key@),
{
    let ghost views = key_views(keys@);
    let mut i: usize = 0;
    while i < keys.len()
        invariant
            i <= keys@.len(),
            keys@ == old(keys)@,
            views == key_views(keys@),
            forall|j: int| 0 <= j < i ==> #[trigger] views[j] != key@,
        decreases keys.len() - i,
    {
        if same_bytes(keys[i].as_slice(), key.as_slice()) {
            assert(views[i as int] == key@);
            return ;
        }
        i += 1;
    }
    assert(key_views(keys@.push(key)) =~= views.push(key@));
    keys.push(key);
}

/// Adds `peer` to `peers` as to a map.
pub fn insert_peer(peers: &mut Vec<Peer>, peer: Peer)
    ensures
        peer_views(final(peers)@) == with_peer(peer_views(old(peers)@), peer@),
{
    let ghost views = peer_views(peers@);
    let mut i: usize = 0;
    assert(views.skip(0) =~= views);
    while i < peers.len()
        invariant
            i <= peers@.len(),
            peers@ == old(peers)@,
            views == peer_views(peers@),
            key_place(views, peer@.key) == i + key_place(views.skip(i as int), peer@.key),
        decreases peers.len() - i,
    {
        assert(views.skip(i as int)[0] == views[i as int]);
        if same_bytes(peers[i].key.as_slice(), peer.key.as_slice()) {
            assert(peer_views(peers@.update(i as int, peer)) =~= views.update(i as int, peer@));
            peers.set(i, peer);
            return ;
        }
        assert(views.skip(i as int).skip(1) =~= views.skip(i + 1));
        i += 1;
    }
    assert(peer_views(peers@.push(peer)) =~= views.push(peer@));
    peers.push(peer);
}

impl AppConfig {
    /// The configuration made of the given values. The static inbound peers
    /// are taken as a set and the static outbound peers as a map: a key that
    /// is given more than once stands once, an outbound peer with the address
    /// that was given last.
    pub fn assemble(
        server_addr: NetAddr,
        public_addr: NetAddr,
        metrics_server_addr: Option<NetAddr>,
        genesis: GenesisRecord,
        gossip_dynamic_inbound_limit: u64,
        inbound: Vec<Vec<u8>>,
        outbound: Vec<Peer>,
        max_payload_size: u64,
    ) -> (config: AppConfig)
        ensures
            valid_config(config@),
            config@ == (ConfigView {
                server_addr,
                public_addr,
                metrics_server_addr,
                genesis: genesis@,
                gossip_dynamic_inbound_limit,
                gossip_static_inbound: key_set(key_views(inbound@)),
                gossip_static_outbound: peer_map(peer_views(outbound@)),
                max_payload_size,
            }),
    {
        let ghost given_keys = key_views(inbound@);
        let ghost given_peers = peer_views(outbound@);
        let mut keys: Vec<Vec<u8>> = Vec::new();
        let mut i: usize = 0;
        assert(given_keys.take(0) =~= Seq::<Seq<u8>>::empty());
        assert(key_views(keys@) =~= key_set(given_keys.take(0)));
        while i < inbound.len()
            invariant
                i <= inbound@.len(),
                given_keys == key_views(inbound@),
                key_views(keys@) == key_set(given_keys.take(i as int)),
            decreases inbound.len() - i,
        {
            proof {
                let next = given_keys.take(i + 1);
                assert(next.drop_last() =~= given_keys.take(i as int));
                assert(next.last() == inbound@[i as int]@);
            }
            insert_key(&mut keys, copy_bytes(inbound[i].as_slice()));
            i += 1;
        }
        assert(given_keys.take(inbound@.len() as int) =~= given_keys);
        let mut peers: Vec<Peer> = Vec::new();
        let mut j: usize = 0;
        assert(given_peers.take(0) =~= Seq::<PeerView>::empty());
        assert(peer_views(peers@) =~= peer_map(given_peers.take(0)));
        while j < outbound.len()
            invariant
                j <= outbound@.len(),
                given_peers == peer_views(outbound@),
                peer_views(peers@) == peer_map(given_peers.take(j as int)),
            decreases outbound.len() - j,
        {
            proof {
                let next = given_peers.take(j + 1);
                assert(next.drop_last() =~= given_peers.take(j as int));
                assert(next.last() == outbound@[j as int]@);
            }
            insert_peer(&mut peers, outbound[j].clone());
            j += 1;
        }
        assert(given_peers.take(outbound@.len() as int) =~= given_peers);
        proof {
            lemma_key_set(given_keys);
            lemma_peer_map(given_peers);
        }
        AppConfig {
            server_addr,
            public_addr,
            metrics_server_addr,
            genesis,
            gossip_dynamic_inbound_limit,
            gossip_static_inbound: keys,
            gossip_static_outbound: peers,
            max_payload_size,
        }
    }

    /// The configuration that a run of draws stands for. The draws are
    /// taken in the order of the fields: three for the addresses of the
    /// server, for the public and for the metrics, which is always there;
    /// three for the fork, the first block number and the root of the genesis;
    /// one for the limit of dynamic inbound connections; five for the keys of
    /// the static inbound peers; six pairs for the static outbound peers, each
    /// a key and an address; and one for the greatest payload size. A draw that
    /// is not there counts as empty.
    pub fn from_draws(draws: &Vec<Vec<u8>>) -> (config: AppConfig)
        ensures
            config@ == config_of_draws(key_views(draws@)),
            valid_config(config@),
    {
        let ghost given = key_views(draws@);
        let server_addr = addr_of_draw(draw_of(draws, 0).as_slice());
        let public_addr = addr_of_draw(draw_of(draws, 1).as_slice());
        let metrics_server_addr = Some(addr_of_draw(draw_of(draws, 2).as_slice()));
        let fork = number_of_draw(draw_of(draws, 3).as_slice());
        let first_block = number_of_draw(draw_of(draws, 4).as_slice());
        let genesis = GenesisRecord::new(fork, first_block, draw_of(draws, 5));
        let gossip_dynamic_inbound_limit = number_of_draw(draw_of(draws, 6).as_slice());
        let mut inbound: Vec<Vec<u8>> = Vec::new();
        let mut k: usize = 0;
        while k < 5
            invariant
                k <= 5,
                given == key_views(draws@),
                inbound@.len() == k,
                forall|j: int| 0 <= j < k ==> (#[trigger] inbound@[j])@ == draw_at(given, 7 + j),
            decreases 5 - k,
        {
            inbound.push(draw_of(draws, 7 + k));
            k += 1;
        }
        let mut outbound: Vec<Peer> = Vec::new();
        let mut k: usize = 0;
        while k < 6
            invariant
                k <= 6,
                given == key_views(draws@),
                outbound@.len() == k,
                forall|j: int|
                    0 <= j < k ==> (#[trigger] outbound@[j])@ == (PeerView {
                        key: draw_at(given, 12 + 2 * j),
                        addr: addr_in(draw_at(given, 13 + 2 * j)),
                    }),
            decreases 6 - k,
        {
            let key = draw_of(draws, 12 + 2 * k);
            let addr = addr_of_draw(draw_of(draws, 13 + 2 * k).as_slice());
            outbound.push(Peer { key, addr });
            k += 1;
        }
        let max_payload_size = number_of_draw(draw_of(draws, 24).as_slice());
        assert(key_views(inbound@) =~= drawn_keys(given));
        assert(peer_views(outbound@) =~= drawn_peers(given));
        AppConfig::assemble(
            server_addr,
            public_addr,
            metrics_server_addr,
            genesis,
            gossip_dynamic_inbound_limit,
            inbound,
            outbound,
            max_payload_size,
        )
    }

    /// A random configuration: the one that twenty-five draws from `rng`
    /// stand for. Its metrics address is there, and it has five static inbound
    /// peers and six static outbound peers, fewer only where a key was drawn
    /// twice.
    pub fn sample(rng: &mut StdRng) -> (config: AppConfig)
        ensures
            exists|draws: Seq<Seq<u8>>|
                whole_draws(draws) && config@ == #[trigger] config_of_draws(draws),
            valid_config(config@),
            config@.metrics_server_addr is Some,
            1 <= config@.gossip_static_inbound.len() <= 5,
            1 <= config@.gossip_static_outbound.len() <= 6,
            config@.genesis.root.len() == 32,
            forall|i: int|
                0 <= i < config@.gossip_static_inbound.len() ==> (
                #[trigger] config@.gossip_static_inbound[i]).len() == 32,
            forall|i: int|
                0 <= i < config@.gossip_static_outbound.len() ==> (
                #[trigger] config@.gossip_static_outbound[i]).key.len() == 32,
    {
        let mut draws: Vec<Vec<u8>> = Vec::new();
        while draws.len() < CONFIG_DRAWS
            invariant
                draws@.len() <= CONFIG_DRAWS,
                forall|k: int| 0 <= k < draws@.len() ==> (#[trigger] draws@[k])@.len() == 32,
            decreases CONFIG_DRAWS - draws@.len(),
        {
            draws.push(draw_key(rng));
        }
        proof {
            lemma_config_of_whole_draws(key_views(draws@));
        }
        AppConfig::from_draws(&draws)
    }
}

/// Two runs of keys hold the same keys, in whatever order.
pub open spec fn same_keys(a: Seq<Seq<u8>>, b: Seq<Seq<u8>>) -> bool {
    forall|key: Seq<u8>| a.contains(key) <==> b.contains(key)
}

/// Two runs of peers hold the same peers, in whatever order.
pub open spec fn same_peers(a: Seq<PeerView>, b: Seq<PeerView>) -> bool {
    forall|peer: PeerView| a.contains(peer) <==> b.contains(peer)
}

/// Two configurations are the same: their fields are equal, the static
/// inbound peers as sets and the static outbound peers as maps, so that the
/// order in which the peers stand does not count.
pub open spec fn same_config(a: ConfigView, b: ConfigView) -> bool {
    &&& a.server_addr == b.server_addr
    &&& a.public_addr == b.public_addr
    &&& a.metrics_server_addr == b.metrics_server_addr
    &&& a.genesis == b.genesis
    &&& a.gossip_dynamic_inbound_limit == b.gossip_dynamic_inbound_limit
    &&& same_keys(a.gossip_static_inbound, b.gossip_static_inbound)
    &&& same_peers(a.gossip_static_outbound, b.gossip_static_outbound)
    &&& a.max_payload_size == b.max_payload_size
}

/// Whether `key` is among `keys`.
pub fn has_key(keys: &Vec<Vec<u8>>, key: &[u8]) -> (found: bool)
    ensures
        found == key_views(keys@).contains(key@),
{
    let ghost views = key_views(keys@);
    let mut i: usize = 0;
    while i < keys.len()
        invariant
            i <= keys@.len(),
            views == key_views(keys@),
            forall|j: int| 0 <= j < i ==> #[trigger] views[j] != key@,
        decreases keys.len() - i,
    {
        if same_bytes(keys[i].as_slice(), key) {
            assert(views[i as int] == key@);
            return true;
        }
        i += 1;
    }
    false
}

/// Whether `peer` is among `peers`, with its key and its address.
pub fn has_peer(peers: &Vec<Peer>, peer: &Peer) -> (found: bool)
    ensures
        found == peer_views(peers@).contains(peer@),
{
    let ghost views = peer_views(peers@);
    let mut i: usize = 0;
    while i < peers.len()
        invariant
            i <= peers@.len(),
            views == peer_views(peers@),
            forall|j: int| 0 <= j < i ==> #[trigger] views[j] != peer@,
        decreases peers.len() - i,
    {
        if same_bytes(peers[i].key.as_slice(), peer.key.as_slice()) && peers[i].addr.ip
            == peer.addr.ip && peers[i].addr.port == peer.addr.port {
            assert(views[i as int] == peer@);
            return true;
        }
        i += 1;
    }
    false
}

/// Whether every key of `a` is among `b`.
pub fn keys_within(a: &Vec<Vec<u8>>, b: &Vec<Vec<u8>>) -> (within: bool)
    ensures
        within == (forall|key: Seq<u8>|
            key_views(a@).contains(key) ==> key_views(b@).contains(key)),
{
    let ghost views = key_views(a@);
    let mut i: usize = 0;
    while i < a.len()
        invariant
            i <= a@.len(),
            views == key_views(a@),
            forall|j: int| 0 <= j < i ==> key_views(b@).contains(#[trigger] views[j]),
        decreases a.len() - i,
    {
        if !has_key(b, a[i].as_slice()) {
            assert(views.contains(views[i as int]));
            return false;
        }
        i += 1;
    }
    true
}

/// Whether every peer of `a` is among `b`.
pub fn peers_within(a: &Vec<Peer>, b: &Vec<Peer>) -> (within: bool)
    ensures
        within == (forall|peer: PeerView|
            peer_views(a@).contains(peer) ==> peer_views(b@).contains(peer)),
{
    let ghost views = peer_views(a@);
    let mut i: usize = 0;
    while i < a.len()
        invariant
            i <= a@.len(),
            views == peer_views(a@),
            forall|j: int| 0 <= j < i ==> peer_views(b@).contains(#[trigger] views[j]),
        decreases a.len() - i,
    {
        if !has_peer(b, &a[i]) {
            assert(views.contains(views[i as int]));
            return false;
        }
        i += 1;
    }
    true
}

impl AppConfig {
    /// Whether two configurations are the same, whatever the order in which
    /// their static peers stand.
    pub fn same(&self, other: &AppConfig) -> (same: bool)
        ensures
            same == same_config(self@, other@),
    {
        let metrics = match (self.metrics_server_addr, other.metrics_server_addr) {
            (None, None) => true,
            (Some(a), Some(b)) => a.ip == b.ip && a.port == b.port,
            _ => false,
        };
        self.server_addr.ip == other.server_addr.ip && self.server_addr.port
            == other.server_addr.port && self.public_addr.ip == other.public_addr.ip
            && self.public_addr.port == other.public_addr.port && metrics && self.genesis.same(
            &other.genesis,
        ) && self.gossip_dynamic_inbound_limit == other.gossip_dynamic_inbound_limit
            && self.max_payload_size == other.max_payload_size && keys_within(
            &self.gossip_static_inbound,
            &other.gossip_static_inbound,
        ) && keys_within(&other.gossip_static_inbound, &self.gossip_static_inbound)
            && peers_within(&self.gossip_static_outbound, &other.gossip_static_outbound)
            && peers_within(&other.gossip_static_outbound, &self.gossip_static_outbound)
    }
}

} // verus!
