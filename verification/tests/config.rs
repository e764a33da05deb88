use block_store::config::{
    draw_of, has_key, has_peer, insert_key, insert_peer, keys_distinct, keys_within,
    peers_distinct, peers_within, push_addr, push_opt_addr, take_addr, take_opt_addr, AppConfig,
    NetAddr, Peer, CONFIG_DRAWS,
};
use block_store::genesis::GenesisRecord;
use block_store::random::{addr_of_draw, draw_key, draw_u64, make_addr, number_of_draw};
use block_store::wire::{
    push_be128, push_be16, push_blob, take_be128, take_be16, take_be64, take_blob,
};
use rand::rngs::StdRng;
use rand::{Rng, SeedableRng};

fn addr(ip: u128, port: u16) -> NetAddr {
    NetAddr { ip, port }
}

fn peer(key: &[u8], ip: u128, port: u16) -> Peer {
    Peer { key: key.to_vec(), addr: addr(ip, port) }
}

fn small_config() -> AppConfig {
    AppConfig::assemble(
        addr(1, 2),
        addr(3, 4),
        Some(addr(5, 6)),
        GenesisRecord::new(7, 8, vec![9]),
        10,
        vec![vec![11], vec![12, 13]],
        vec![peer(&[14], 15, 16)],
        17,
    )
}

#[test]
fn test_schema_encoding() {
    let rng = &mut StdRng::seed_from_u64(51);
    for _ in 0..100 {
        let config = AppConfig::sample(rng);
        let bytes = config.encode();
        assert_eq!(AppConfig::decode(&bytes), Some(config.clone()));
        assert_eq!(AppConfig::decode(&bytes).unwrap().encode(), bytes);
    }
}

#[test]
fn sample_draws_every_field() {
    let rng = &mut StdRng::seed_from_u64(52);
    let config = AppConfig::sample(rng);
    assert!(config.is_valid());
    assert!(config.metrics_server_addr.is_some());
    assert_eq!(config.gossip_static_inbound.len(), 5);
    assert_eq!(config.gossip_static_outbound.len(), 6);
    assert!(config.gossip_static_inbound.iter().all(|key| key.len() == 32));
    assert!(config.gossip_static_outbound.iter().all(|peer| peer.key.len() == 32));
    assert_eq!(config.genesis.root.len(), 32);
    let other = AppConfig::sample(rng);
    assert_ne!(config, other);
    assert_ne!(config.server_addr, config.public_addr);
    assert_ne!(config.gossip_static_inbound[0], config.gossip_static_inbound[1]);
}

#[test]
fn sample_follows_the_generator() {
    let one = AppConfig::sample(&mut StdRng::seed_from_u64(53));
    let same = AppConfig::sample(&mut StdRng::seed_from_u64(53));
    let other = AppConfig::sample(&mut StdRng::seed_from_u64(54));
    assert_eq!(one, same);
    assert_ne!(one, other);
}

#[test]
fn draws_differ() {
    let rng = &mut StdRng::seed_from_u64(55);
    let keys: Vec<Vec<u8>> = (0..20).map(|_| draw_key(rng)).collect();
    assert!(keys.iter().all(|key| key.len() == 32));
    assert!(keys_distinct(&keys));
    let numbers: Vec<u64> = (0..20).map(|_| draw_u64(rng)).collect();
    assert!(numbers.iter().any(|n| *n > u32::MAX as u64));
    assert!(numbers.windows(2).all(|w| w[0] != w[1]));
    let addrs: Vec<NetAddr> = (0..20).map(|_| make_addr(rng)).collect();
    assert!(addrs.iter().any(|a| a.ip > u64::MAX as u128));
    assert!(addrs.iter().any(|a| a.port > 255));
    assert!(addrs.windows(2).all(|w| w[0] != w[1]));
}

#[test]
fn config_has_a_fixed_form() {
    let config = small_config();
    let mut want = Vec::new();
    want.extend([0u8; 15]);
    want.extend([1, 0, 2]);
    want.extend([0u8; 15]);
    want.extend([3, 0, 4]);
    want.push(1);
    want.extend([0u8; 15]);
    want.extend([5, 0, 6]);
    want.extend([0, 0, 0, 0, 0, 0, 0, 17]);
    want.extend([0, 0, 0, 0, 0, 0, 0, 7, 0, 0, 0, 0, 0, 0, 0, 8, 9]);
    want.extend([0, 0, 0, 0, 0, 0, 0, 10]);
    want.extend([0, 0, 0, 0, 0, 0, 0, 2]);
    want.extend([0, 0, 0, 0, 0, 0, 0, 1, 11]);
    want.extend([0, 0, 0, 0, 0, 0, 0, 2, 12, 13]);
    want.extend([0, 0, 0, 0, 0, 0, 0, 1]);
    want.extend([0, 0, 0, 0, 0, 0, 0, 1, 14]);
    want.extend([0u8; 15]);
    want.extend([15, 0, 16]);
    want.extend([0, 0, 0, 0, 0, 0, 0, 17]);
    assert_eq!(config.encode(), want);
    assert_eq!(AppConfig::decode(&want), Some(config));
}

#[test]
fn config_without_metrics_and_peers() {
    let config = AppConfig::assemble(
        addr(u128::MAX, u16::MAX),
        addr(0, 0),
        None,
        GenesisRecord::new(0, 0, vec![]),
        u64::MAX,
        vec![],
        vec![],
        0,
    );
    let bytes = config.encode();
    assert_eq!(bytes.len(), 18 + 18 + 1 + 8 + 16 + 8 + 8 + 8 + 8);
    assert_eq!(bytes[36], 0);
    assert_eq!(AppConfig::decode(&bytes), Some(config));
}

#[test]
fn decode_refuses_what_is_no_config() {
    let bytes = small_config().encode();
    assert!(AppConfig::decode(&bytes).is_some());
    for len in 0..bytes.len() {
        assert_eq!(AppConfig::decode(&bytes[..len]), None);
    }
    let mut longer = bytes.clone();
    longer.push(0);
    assert_eq!(AppConfig::decode(&longer), None);
    let mut bad_tag = bytes.clone();
    bad_tag[36] = 2;
    assert_eq!(AppConfig::decode(&bad_tag), None);
    let mut absent = bytes.clone();
    absent[36] = 0;
    assert_eq!(AppConfig::decode(&absent), None);
    assert_eq!(AppConfig::decode(&[]), None);
}

#[test]
fn decode_refuses_a_key_twice() {
    let mut config = small_config();
    config.gossip_static_inbound.push(vec![11]);
    assert!(!config.is_valid());
    assert_eq!(AppConfig::decode(&config.encode()), None);
    let mut config = small_config();
    config.gossip_static_outbound.push(peer(&[14], 0, 0));
    assert!(!config.is_valid());
    assert_eq!(AppConfig::decode(&config.encode()), None);
    let mut config = small_config();
    config.gossip_static_inbound.push(vec![14]);
    config.gossip_static_outbound.push(peer(&[11], 0, 0));
    assert!(config.is_valid());
    assert_eq!(AppConfig::decode(&config.encode()), Some(config));
}

#[test]
fn assemble_takes_inbound_as_a_set_and_outbound_as_a_map() {
    let config = AppConfig::assemble(
        addr(1, 1),
        addr(2, 2),
        None,
        GenesisRecord::new(1, 1, vec![]),
        0,
        vec![vec![1], vec![2], vec![1], vec![], vec![2], vec![3]],
        vec![peer(&[1], 10, 1), peer(&[2], 20, 2), peer(&[1], 30, 3), peer(&[2], 40, 4)],
        0,
    );
    assert!(config.is_valid());
    assert_eq!(config.gossip_static_inbound, vec![vec![1], vec![2], vec![], vec![3]]);
    assert_eq!(config.gossip_static_outbound, vec![peer(&[1], 30, 3), peer(&[2], 40, 4)]);
    assert_eq!(config.server_addr, addr(1, 1));
    assert_eq!(config.public_addr, addr(2, 2));
}

#[test]
fn keys_and_peers_insert_once() {
    let mut keys = vec![vec![1], vec![2]];
    insert_key(&mut keys, vec![2]);
    assert_eq!(keys, vec![vec![1], vec![2]]);
    insert_key(&mut keys, vec![2, 0]);
    assert_eq!(keys, vec![vec![1], vec![2], vec![2, 0]]);
    assert!(keys_distinct(&keys));
    assert!(!keys_distinct(&vec![vec![1], vec![2], vec![1]]));
    assert!(keys_distinct(&vec![]));
    let mut peers = vec![peer(&[1], 1, 1)];
    insert_peer(&mut peers, peer(&[2], 2, 2));
    insert_peer(&mut peers, peer(&[1], 3, 3));
    assert_eq!(peers, vec![peer(&[1], 3, 3), peer(&[2], 2, 2)]);
    assert!(peers_distinct(&peers));
    assert!(!peers_distinct(&vec![peer(&[1], 1, 1), peer(&[1], 2, 2)]));
    assert_eq!(peers[0].clone(), peers[0]);
}

#[test]
fn numbers_are_most_significant_first() {
    let mut out = Vec::new();
    push_be16(&mut out, 0x0102);
    push_be128(&mut out, 0x0102_0304_0506_0708_090a_0b0c_0d0e_0f10);
    assert_eq!(out, vec![1, 2, 1, 2, 3, 4, 5, 6, 7, 8, 9, 10, 11, 12, 13, 14, 15, 16]);
    assert_eq!(take_be16(&out, 0), Some((0x0102, 2)));
    assert_eq!(take_be128(&out, 2), Some((0x0102_0304_0506_0708_090a_0b0c_0d0e_0f10, 18)));
    assert_eq!(take_be64(&out, 10), Some((0x090a_0b0c_0d0e_0f10, 18)));
    assert_eq!(take_be16(&out, 17), None);
    assert_eq!(take_be128(&out, 3), None);
    assert_eq!(take_be64(&out, 11), None);
    assert_eq!(take_be64(&out, 18), None);
}

#[test]
fn numbers_round_trip() {
    let mut rng = StdRng::seed_from_u64(56);
    for _ in 0..200 {
        let a: u16 = rng.gen();
        let b: u128 = rng.gen();
        let mut out = Vec::new();
        push_be16(&mut out, a);
        push_be128(&mut out, b);
        assert_eq!(&out[..2], &a.to_be_bytes());
        assert_eq!(&out[2..], &b.to_be_bytes());
        assert_eq!(take_be16(&out, 0), Some((a, 2)));
        assert_eq!(take_be128(&out, 2), Some((b, 18)));
    }
}

#[test]
fn blob_stands_behind_its_length() {
    let mut out = vec![7];
    push_blob(&mut out, &[1, 2, 3]);
    assert_eq!(out, vec![7, 0, 0, 0, 0, 0, 0, 0, 3, 1, 2, 3]);
    assert_eq!(take_blob(&out, 1), Some((vec![1, 2, 3], 12)));
    assert_eq!(take_blob(&out[..11], 1), None);
    assert_eq!(take_blob(&out, 5), None);
    assert_eq!(take_blob(&[0; 8], 0), Some((vec![], 8)));
    assert_eq!(take_blob(&[255; 8], 0), None);
}

#[test]
fn addresses_round_trip() {
    let mut out = Vec::new();
    push_addr(&mut out, addr(258, 772));
    assert_eq!(out, vec![0, 0, 0, 0, 0, 0, 0, 0, 0, 0, 0, 0, 0, 0, 1, 2, 3, 4]);
    assert_eq!(take_addr(&out, 0), Some((addr(258, 772), 18)));
    assert_eq!(take_addr(&out, 1), None);
    let mut some = Vec::new();
    push_opt_addr(&mut some, Some(addr(258, 772)));
    assert_eq!(some.len(), 19);
    assert_eq!(some[0], 1);
    assert_eq!(take_opt_addr(&some, 0), Some((Some(addr(258, 772)), 19)));
    let mut none = Vec::new();
    push_opt_addr(&mut none, None);
    assert_eq!(none, vec![0]);
    assert_eq!(take_opt_addr(&none, 0), Some((None, 1)));
    assert_eq!(take_opt_addr(&none, 1), None);
    assert_eq!(take_opt_addr(&[2], 0), None);
    assert_eq!(take_opt_addr(&[1, 0], 0), None);
}

#[test]
fn a_draw_stands_for_a_number_and_an_address() {
    let draw: Vec<u8> = (1..=32).collect();
    assert_eq!(number_of_draw(&draw), 0x0102_0304_0506_0708);
    assert_eq!(
        addr_of_draw(&draw),
        addr(0x0102_0304_0506_0708_090a_0b0c_0d0e_0f10, 0x1112)
    );
    assert_eq!(number_of_draw(&draw[..8]), 0x0102_0304_0506_0708);
    assert_eq!(number_of_draw(&draw[..7]), 0);
    assert_eq!(number_of_draw(&[]), 0);
    assert_eq!(addr_of_draw(&draw[..18]), addr(0x0102_0304_0506_0708_090a_0b0c_0d0e_0f10, 0x1112));
    assert_eq!(addr_of_draw(&draw[..17]), addr(0, 0));
    assert_eq!(addr_of_draw(&[255; 32]), addr(u128::MAX, u16::MAX));
    assert_eq!(number_of_draw(&[255; 32]), u64::MAX);
}

fn numbered_draws() -> Vec<Vec<u8>> {
    (0..25u8).map(|i| (0..32u8).map(|j| i.wrapping_mul(9).wrapping_add(j)).collect()).collect()
}

fn ip_of(draw: &[u8]) -> u128 {
    let mut ip = [0u8; 16];
    ip.copy_from_slice(&draw[..16]);
    u128::from_be_bytes(ip)
}

fn port_of(draw: &[u8]) -> u16 {
    u16::from_be_bytes([draw[16], draw[17]])
}

fn number_of(draw: &[u8]) -> u64 {
    let mut n = [0u8; 8];
    n.copy_from_slice(&draw[..8]);
    u64::from_be_bytes(n)
}

fn addr_of(draw: &[u8]) -> NetAddr {
    addr(ip_of(draw), port_of(draw))
}

#[test]
fn sample_with_seed_zero() {
    let mut rng = StdRng::seed_from_u64(0);
    let config = AppConfig::sample(&mut rng);
    assert!(config.metrics_server_addr.is_some());
    assert_eq!(config.gossip_static_inbound.len(), 5);
    assert_eq!(config.gossip_static_outbound.len(), 6);
    assert!(config.is_valid());
}

#[test]
fn draws_stand_for_the_fields_in_order() {
    assert_eq!(CONFIG_DRAWS, 25);
    let draws = numbered_draws();
    let config = AppConfig::from_draws(&draws);
    assert_eq!(config.server_addr, addr_of(&draws[0]));
    assert_eq!(config.public_addr, addr_of(&draws[1]));
    assert_eq!(config.metrics_server_addr, Some(addr_of(&draws[2])));
    assert_eq!(
        config.genesis,
        GenesisRecord::new(number_of(&draws[3]), number_of(&draws[4]), draws[5].clone())
    );
    assert_eq!(config.gossip_dynamic_inbound_limit, number_of(&draws[6]));
    assert_eq!(config.gossip_static_inbound, draws[7..12].to_vec());
    let peers: Vec<Peer> = (0..6)
        .map(|k| Peer { key: draws[12 + 2 * k].clone(), addr: addr_of(&draws[13 + 2 * k]) })
        .collect();
    assert_eq!(config.gossip_static_outbound, peers);
    assert_eq!(config.max_payload_size, number_of(&draws[24]));
    assert_eq!(config.server_addr, addr(0x0001_0203_0405_0607_0809_0a0b_0c0d_0e0f, 0x1011));
    assert_eq!(config.gossip_dynamic_inbound_limit, 0x3637_3839_3a3b_3c3d);
}

#[test]
fn a_key_drawn_twice_stands_once() {
    let mut draws = numbered_draws();
    draws[9] = draws[7].clone();
    draws[16] = draws[12].clone();
    draws[22] = draws[12].clone();
    let config = AppConfig::from_draws(&draws);
    assert!(config.is_valid());
    assert_eq!(
        config.gossip_static_inbound,
        vec![draws[7].clone(), draws[8].clone(), draws[10].clone(), draws[11].clone()]
    );
    assert_eq!(config.gossip_static_outbound.len(), 4);
    assert_eq!(
        config.gossip_static_outbound[0],
        Peer { key: draws[12].clone(), addr: addr_of(&draws[23]) }
    );
    assert_eq!(
        config.gossip_static_outbound[1],
        Peer { key: draws[14].clone(), addr: addr_of(&draws[15]) }
    );
}

#[test]
fn missing_draws_count_as_empty() {
    let config = AppConfig::from_draws(&vec![]);
    assert_eq!(config.server_addr, addr(0, 0));
    assert_eq!(config.metrics_server_addr, Some(addr(0, 0)));
    assert_eq!(config.genesis, GenesisRecord::new(0, 0, vec![]));
    assert_eq!(config.gossip_static_inbound, vec![Vec::<u8>::new()]);
    assert_eq!(config.gossip_static_outbound, vec![peer(&[], 0, 0)]);
    assert_eq!(config.max_payload_size, 0);
    let draws = numbered_draws();
    assert_eq!(draw_of(&draws, 3), draws[3]);
    assert_eq!(draw_of(&draws, 25), Vec::<u8>::new());
    let short = AppConfig::from_draws(&draws[..8].to_vec());
    assert_eq!(short.gossip_static_inbound, vec![draws[7].clone(), vec![]]);
    assert_eq!(short.gossip_dynamic_inbound_limit, number_of(&draws[6]));
}

#[test]
fn sample_is_what_its_draws_stand_for() {
    let sampled = AppConfig::sample(&mut StdRng::seed_from_u64(57));
    let mut rng = StdRng::seed_from_u64(57);
    let draws: Vec<Vec<u8>> = (0..25).map(|_| draw_key(&mut rng)).collect();
    assert_eq!(sampled, AppConfig::from_draws(&draws));
    let mut own = StdRng::seed_from_u64(57);
    let direct: Vec<Vec<u8>> = (0..25).map(|_| own.gen::<[u8; 32]>().to_vec()).collect();
    assert_eq!(draws, direct);
}

#[test]
fn address_and_number_are_what_one_draw_stands_for() {
    let made = make_addr(&mut StdRng::seed_from_u64(58));
    let draw = draw_key(&mut StdRng::seed_from_u64(58));
    assert_eq!(made, addr_of_draw(&draw));
    assert_eq!(made, addr_of(&draw));
    assert_eq!(draw_u64(&mut StdRng::seed_from_u64(58)), number_of_draw(&draw));
    assert_eq!(draw_u64(&mut StdRng::seed_from_u64(58)), number_of(&draw));
}

#[test]
fn configurations_are_the_same_in_any_order_of_peers() {
    let config = AppConfig::from_draws(&numbered_draws());
    let mut turned = config.clone();
    turned.gossip_static_inbound.reverse();
    turned.gossip_static_outbound.reverse();
    assert_ne!(config, turned);
    assert!(config.same(&turned));
    assert!(turned.same(&config));
    assert!(config.same(&config.clone()));
    let mut fewer = config.clone();
    fewer.gossip_static_inbound.pop();
    assert!(!config.same(&fewer));
    assert!(!fewer.same(&config));
    let mut moved = config.clone();
    moved.gossip_static_outbound[0].addr.port ^= 1;
    assert!(!config.same(&moved));
    let mut other = config.clone();
    other.max_payload_size ^= 1;
    assert!(!config.same(&other));
    let mut silent = config.clone();
    silent.metrics_server_addr = None;
    assert!(!config.same(&silent));
    let mut forked = config.clone();
    forked.genesis.fork ^= 1;
    assert!(!config.same(&forked));
}

#[test]
fn keys_and_peers_are_found() {
    let keys = vec![vec![1], vec![2, 3]];
    assert!(has_key(&keys, &[2, 3]));
    assert!(!has_key(&keys, &[2]));
    assert!(!has_key(&vec![], &[]));
    assert!(keys_within(&vec![vec![2, 3]], &keys));
    assert!(keys_within(&vec![], &keys));
    assert!(!keys_within(&keys, &vec![vec![1]]));
    let peers = vec![peer(&[1], 1, 1), peer(&[2], 2, 2)];
    assert!(has_peer(&peers, &peer(&[2], 2, 2)));
    assert!(!has_peer(&peers, &peer(&[2], 2, 3)));
    assert!(!has_peer(&peers, &peer(&[2], 3, 2)));
    assert!(!has_peer(&peers, &peer(&[3], 2, 2)));
    assert!(peers_within(&vec![peer(&[1], 1, 1)], &peers));
    assert!(!peers_within(&peers, &vec![peer(&[1], 1, 1)]));
}
