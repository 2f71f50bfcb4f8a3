//! Discovery overlay: keys, routing table, lookups and the behavior.

use stegos_core::addresses::{Multiaddr, PeerId};
use stegos_core::behaviour::{
    ConnectedPoint, KadPeer, KadConnectionType, Kademlia, KademliaHandlerEvent,
    KademliaHandlerIn, KademliaOut, NetworkAction, QueryId,
};
use stegos_core::crypto::PublicKey;
use stegos_core::kad_key::{bucket_index, gen_random_hash, node_key, KadKey, KAD_KEY_LEN};
use stegos_core::kbucket::{KBucketsTable, Update};

fn pk(id: u64) -> PublicKey {
    PublicKey { id }
}

fn peer(tag: u8) -> PeerId {
    PeerId { bytes: vec![tag, 0x2a] }
}

fn addr(tag: u8) -> Multiaddr {
    Multiaddr { bytes: vec![b'/', tag] }
}

#[test]
fn node_keys_are_full_width_and_distinct() {
    let a = node_key(&pk(1));
    let b = node_key(&pk(2));
    assert_eq!(a.bytes.len(), KAD_KEY_LEN);
    assert_eq!(b.bytes.len(), KAD_KEY_LEN);
    assert_ne!(a.bytes, b.bytes);
    assert_eq!(a.bytes[0], 0x14);
    assert_eq!(a.bytes[1], 0x40);
}

#[test]
fn bucket_index_is_the_highest_differing_bit() {
    let my = node_key(&pk(0));
    // ids 256..512 differ from 0 in bit 8 of the trailing 64-bit word
    assert_eq!(bucket_index(&node_key(&pk(1)), &my), Some(0));
    assert_eq!(bucket_index(&node_key(&pk(2)), &my), Some(1));
    assert_eq!(bucket_index(&node_key(&pk(256)), &my), Some(8));
    assert_eq!(bucket_index(&node_key(&pk(300)), &my), Some(8));
    assert_eq!(bucket_index(&my, &my), None);
}

#[test]
fn random_bucket_keys_keep_the_high_bits_of_this_node() {
    let my = node_key(&pk(0x1234_5678));
    let h = gen_random_hash(&my, 3).expect("bucket 3 is in range");
    assert_eq!(h.bytes.len(), KAD_KEY_LEN);
    // bits above bucket 3 agree: everything but the low nibble of the last byte
    assert_eq!(&h.bytes[..KAD_KEY_LEN - 1], &my.bytes[..KAD_KEY_LEN - 1]);
    assert_eq!(h.bytes[KAD_KEY_LEN - 1] >> 4, my.bytes[KAD_KEY_LEN - 1] >> 4);
    assert!(gen_random_hash(&my, 512).is_err());
}

#[test]
fn find_closest_yields_ascending_xor_distance_without_duplicates() {
    let mut table = KBucketsTable::new(pk(1000));
    for id in 1..=20u64 {
        assert_eq!(table.set_connected(&pk(id), 0), Update::Added);
    }
    assert_eq!(table.size(), 20);
    let target = node_key(&pk(5));
    let closest = table.find_closest(&target);
    assert_eq!(closest.len(), 20);
    // keys embed the id, so the order follows the xor of the ids
    let expected: Vec<u64> = vec![5, 4, 7, 6, 1, 3, 2, 13, 12, 15, 14, 9, 8, 11, 10];
    let got: Vec<u64> = closest.iter().map(|n| n.id).collect();
    assert_eq!(&got[..expected.len()], &expected[..]);
    for w in got.windows(2) {
        assert!((w[0] ^ 5) < (w[1] ^ 5));
    }
}

#[test]
fn a_full_bucket_parks_the_newcomer_and_names_the_oldest() {
    let mut table = KBucketsTable::new(pk(0));
    // ids 256..=276 all fall into bucket 8
    for id in 256..276u64 {
        assert_eq!(table.set_connected(&pk(id), 0), Update::Added);
    }
    assert_eq!(table.size(), 20);
    // the bucket is full of connected nodes: the oldest is to be probed
    assert_eq!(table.set_connected(&pk(276), 1), Update::Pending(pk(256)));
    assert_eq!(table.size(), 20);
    // once the oldest is known to be down, the newcomer replaces it
    table.set_disconnected(&pk(256));
    assert_eq!(table.set_connected(&pk(276), 2), Update::Added);
    assert_eq!(table.size(), 20);
    assert!(table.get(&pk(256)).is_none());
    assert!(table.get(&pk(276)).is_some());
}

#[test]
fn a_reappearing_node_moves_to_the_fresh_end() {
    let mut table = KBucketsTable::new(pk(0));
    for id in 256..276u64 {
        table.set_connected(&pk(id), 0);
    }
    // the oldest member answers again, so another member becomes oldest
    assert_eq!(table.set_connected(&pk(256), 1), Update::Added);
    assert_eq!(table.set_connected(&pk(276), 2), Update::Pending(pk(257)));
}

/// Connects `node` under `p` so the behavior can both route to it and
/// resolve its transport identity.
fn wire_up(k: &mut Kademlia, node: PublicKey, p: &PeerId, now: u64) {
    k.set_peer_id(&node, p.duplicate());
    k.inject_connected(p.duplicate(), ConnectedPoint::Listener, now);
    k.set_peer_id(&node, p.duplicate());
}

/// Polls until the behavior goes quiet, answering every lookup request
/// with an empty result, and returns the generated events.
fn drive(k: &mut Kademlia, now: u64, local: &PeerId) -> Vec<KademliaOut> {
    let external: Vec<Multiaddr> = Vec::new();
    let mut out = Vec::new();
    let mut steps = 0usize;
    loop {
        steps += 1;
        assert!(steps < 10_000, "the behavior must go quiet");
        match k.poll(now, local, &external) {
            None => break,
            Some(NetworkAction::GenerateEvent(ev)) => out.push(ev),
            Some(NetworkAction::SendEvent { peer_id, event }) => match event {
                KademliaHandlerIn::FindNodeReq { user_data, .. } => {
                    k.inject_node_event(
                        peer_id,
                        KademliaHandlerEvent::FindNodeRes {
                            closer_peers: vec![],
                            user_data,
                        },
                    );
                }
                KademliaHandlerIn::GetProvidersReq { user_data, .. } => {
                    k.inject_node_event(
                        peer_id,
                        KademliaHandlerEvent::GetProvidersRes {
                            closer_peers: vec![],
                            provider_peers: vec![],
                            user_data,
                        },
                    );
                }
                _ => {}
            },
            Some(NetworkAction::DialPeer { .. }) => {}
        }
    }
    out
}

#[test]
fn find_node_single_hop_returns_the_closest_nodes() {
    let local = peer(99);
    let mut k = Kademlia::without_init(pk(1000));
    for id in 1..=20u64 {
        wire_up(&mut k, pk(id), &peer(id as u8), 0);
    }
    assert_eq!(k.ktable_size(), 20);
    k.find_node(pk(5));

    // at most three requests are in flight at once
    let external: Vec<Multiaddr> = Vec::new();
    let mut pending: Vec<(PeerId, QueryId)> = Vec::new();
    loop {
        match k.poll(0, &local, &external) {
            Some(NetworkAction::SendEvent {
                peer_id,
                event: KademliaHandlerIn::FindNodeReq { user_data, .. },
            }) => pending.push((peer_id, user_data)),
            Some(_) => {}
            None => break,
        }
    }
    assert_eq!(pending.len(), 3);
    for (p, qid) in pending {
        k.inject_node_event(
            p,
            KademliaHandlerEvent::FindNodeRes { closer_peers: vec![], user_data: qid },
        );
    }

    let events = drive(&mut k, 0, &local);
    let mut found = false;
    for ev in events {
        if let KademliaOut::FindNodeResult { key, closer_peers } = ev {
            assert_eq!(key.bytes, node_key(&pk(5)).bytes);
            assert_eq!(closer_peers.len(), 20);
            assert_eq!(closer_peers[0], pk(5));
            assert_eq!(closer_peers[1], pk(4));
            found = true;
        }
    }
    assert!(found, "the lookup must report its result");
}

#[test]
fn add_providing_announces_to_the_closest_nodes() {
    let local = peer(99);
    let mut k = Kademlia::without_init(pk(1000));
    for id in 1..=4u64 {
        wire_up(&mut k, pk(id), &peer(id as u8), 0);
    }
    k.add_providing(pk(5));

    let external: Vec<Multiaddr> = Vec::new();
    let mut announced: Vec<(PeerId, KadPeer)> = Vec::new();
    let mut steps = 0usize;
    loop {
        steps += 1;
        assert!(steps < 10_000);
        match k.poll(0, &local, &external) {
            None => break,
            Some(NetworkAction::SendEvent { peer_id, event }) => match event {
                KademliaHandlerIn::FindNodeReq { user_data, .. } => {
                    k.inject_node_event(
                        peer_id,
                        KademliaHandlerEvent::FindNodeRes {
                            closer_peers: vec![],
                            user_data,
                        },
                    );
                }
                KademliaHandlerIn::AddProvider { key, provider_peer } => {
                    assert_eq!(key.bytes, node_key(&pk(5)).bytes);
                    announced.push((peer_id, provider_peer));
                }
                _ => {}
            },
            Some(_) => {}
        }
    }
    // every wired-up node with a known transport identity was told
    assert_eq!(announced.len(), 4);
    for (_, provider) in announced {
        assert_eq!(provider.node_id, pk(1000));
        assert_eq!(provider.connection_ty, KadConnectionType::Connected);
    }
}

#[test]
fn an_unconnected_candidate_is_dialed_and_the_request_flushed_on_connect() {
    let local = peer(99);
    let mut k = Kademlia::without_init(pk(1000));
    let n = pk(7);
    let p = peer(7);
    // the node is known with its transport identity, but disconnected
    wire_up(&mut k, n, &p, 0);
    k.inject_disconnected(&p, ConnectedPoint::Listener);
    k.find_node(pk(7));

    let external: Vec<Multiaddr> = Vec::new();
    let mut dialed = false;
    loop {
        match k.poll(0, &local, &external) {
            Some(NetworkAction::DialPeer { peer_id }) => {
                assert_eq!(peer_id.bytes, p.bytes);
                dialed = true;
            }
            Some(_) => {}
            None => break,
        }
    }
    assert!(dialed, "the behavior must dial the known but unconnected peer");

    // once the peer connects, the parked request goes out
    k.inject_connected(p.duplicate(), ConnectedPoint::Listener, 1);
    let mut sent = false;
    loop {
        match k.poll(1, &local, &external) {
            Some(NetworkAction::SendEvent {
                peer_id,
                event: KademliaHandlerIn::FindNodeReq { .. },
            }) => {
                assert_eq!(peer_id.bytes, p.bytes);
                sent = true;
                break;
            }
            Some(_) => {}
            None => break,
        }
    }
    assert!(sent, "the parked request must be flushed after the connect");
}

#[test]
fn remote_find_node_requests_are_answered_with_the_closest_nodes() {
    let local = peer(99);
    let mut k = Kademlia::without_init(pk(1000));
    for id in 1..=3u64 {
        wire_up(&mut k, pk(id), &peer(id as u8), 0);
    }
    let asker = peer(50);
    k.inject_node_event(
        asker.duplicate(),
        KademliaHandlerEvent::FindNodeReq { key: node_key(&pk(2)), request_id: 77 },
    );
    let external: Vec<Multiaddr> = Vec::new();
    match k.poll(0, &local, &external) {
        Some(NetworkAction::SendEvent {
            peer_id,
            event: KademliaHandlerIn::FindNodeRes { closer_peers, request_id },
        }) => {
            assert_eq!(peer_id.bytes, asker.bytes);
            assert_eq!(request_id, 77);
            // the three known nodes and this node itself
            assert_eq!(closer_peers.len(), 4);
            assert_eq!(closer_peers[0].node_id, pk(2));
        }
        other => panic!("expected the reply first, got {:?}", other.is_some()),
    }
}

#[test]
fn reported_providers_reach_the_provider_table() {
    let local = peer(99);
    let mut k = Kademlia::without_init(pk(1000));
    wire_up(&mut k, pk(1), &peer(1), 0);
    let key = node_key(&pk(42));
    k.inject_node_event(
        peer(1),
        KademliaHandlerEvent::AddProvider {
            key: key.duplicate(),
            provider_peer: KadPeer {
                node_id: pk(8),
                peer_id: Some(peer(8)),
                multiaddrs: vec![addr(8)],
                connection_ty: KadConnectionType::NotConnected,
            },
        },
    );
    // folded in on the next poll; a peer asking for providers then sees it
    drive(&mut k, 0, &local);
    let asker = peer(60);
    k.inject_node_event(
        asker.duplicate(),
        KademliaHandlerEvent::GetProvidersReq { key: key.duplicate(), request_id: 5 },
    );
    let external: Vec<Multiaddr> = Vec::new();
    match k.poll(0, &local, &external) {
        Some(NetworkAction::SendEvent {
            peer_id,
            event: KademliaHandlerIn::GetProvidersRes { provider_peers, request_id, .. },
        }) => {
            assert_eq!(peer_id.bytes, asker.bytes);
            assert_eq!(request_id, 5);
            assert_eq!(provider_peers.len(), 1);
            assert_eq!(provider_peers[0].node_id, pk(8));
        }
        other => panic!("expected the providers reply first, got {:?}", other.is_some()),
    }
}

#[test]
fn the_peer_map_resolves_addresses_for_a_known_node() {
    let mut k = Kademlia::without_init(pk(1000));
    let n = pk(3);
    let p = peer(3);
    wire_up(&mut k, n, &p, 0);
    k.add_connected_address(&n, addr(3));
    let addrs = k.addresses_of_peer(&p);
    assert_eq!(addrs.len(), 1);
    assert_eq!(addrs[0].bytes, addr(3).bytes);
    // an unknown peer resolves to nothing
    assert!(k.addresses_of_peer(&peer(200)).is_empty());
}

#[test]
fn the_routing_table_is_authoritative_for_a_remapped_peer() {
    let mut k = Kademlia::without_init(pk(1000));
    let n = pk(4);
    wire_up(&mut k, n, &peer(4), 0);
    // the node reappears under a fresh transport identity
    let newer = peer(44);
    k.set_peer_id(&n, newer.duplicate());
    let info = k.get_node(&n).expect("the node is known");
    let recorded = info.peer_id().expect("a transport identity is recorded");
    assert_eq!(recorded.bytes, newer.bytes);
    // the fresh mapping resolves; the node's record backs it
    assert!(!k.addresses_of_peer(&newer).is_empty() || k.get_node(&n).is_some());
}

#[test]
fn an_unanswered_lookup_times_out_and_finishes_empty() {
    let local = peer(99);
    let mut k = Kademlia::without_init(pk(1000));
    wire_up(&mut k, pk(7), &peer(7), 0);
    k.find_node(pk(7));
    let external: Vec<Multiaddr> = Vec::new();
    // the request goes out and is never answered
    match k.poll(0, &local, &external) {
        Some(NetworkAction::SendEvent { event: KademliaHandlerIn::FindNodeReq { .. }, .. }) => {}
        other => panic!("expected the request, got {:?}", other.is_some()),
    }
    assert!(k.poll(0, &local, &external).is_none());
    // well past the reply deadline the lookup settles without the node
    let mut result: Option<Vec<PublicKey>> = None;
    let mut steps = 0usize;
    loop {
        steps += 1;
        assert!(steps < 100);
        match k.poll(9_000, &local, &external) {
            Some(NetworkAction::GenerateEvent(KademliaOut::FindNodeResult {
                closer_peers,
                ..
            })) => {
                result = Some(closer_peers);
                break;
            }
            Some(_) => {}
            None => break,
        }
    }
    assert_eq!(result.expect("the lookup must settle"), vec![]);
}

#[test]
fn node_records_expose_their_identity_and_addresses() {
    let mut k = Kademlia::without_init(pk(1000));
    let n = pk(6);
    wire_up(&mut k, n, &peer(6), 0);
    k.add_not_connected_address(&n, addr(6));
    let info = k.get_node(&n).expect("the node is known");
    assert!(info.has_peer_id());
    assert!(info.has_addresses());
    assert_eq!(info.peer_id().unwrap().bytes, peer(6).bytes);
    assert!(k.get_node(&pk(777)).is_none());
}

#[test]
fn find_closest_with_self_ranks_this_node_too() {
    let mut k = Kademlia::without_init(pk(1000));
    for id in 1..=4u64 {
        wire_up(&mut k, pk(id), &peer(id as u8), 0);
    }
    let all = k.find_closest_with_self(&pk(2));
    assert_eq!(all.len(), 5);
    assert_eq!(all[0], pk(2));
    assert!(all.contains(&pk(1000)));
    let others = k.find_closest(&pk(2));
    assert_eq!(others.len(), 4);
    assert!(!others.contains(&pk(1000)));
}

#[test]
fn a_bucket_goes_stale_after_the_expiration_period() {
    let mut table = KBucketsTable::new(pk(0));
    table.set_connected(&pk(300), 1_000);
    let b = bucket_index(&node_key(&pk(300)), &node_key(&pk(0))).unwrap();
    assert!(!table.is_bucket_stale(b, 1_000));
    assert!(!table.is_bucket_stale(b, 301_000));
    assert!(table.is_bucket_stale(b, 301_001));
}

#[test]
fn rotating_the_identity_empties_the_table_and_keeps_provided_keys_consistent() {
    let mut k = Kademlia::without_init(pk(1));
    wire_up(&mut k, pk(2), &peer(2), 0);
    k.add_providing(pk(9));
    k.change_id(pk(77));
    assert_eq!(k.my_id(), pk(77));
    assert_eq!(k.ktable_size(), 0);
}

#[test]
fn a_connect_into_a_full_bucket_dials_the_oldest_member() {
    let local = peer(99);
    let mut k = Kademlia::without_init(pk(0));
    // ids 256..=275 all fall into bucket 8 and fill it, oldest first
    for id in 256..276u64 {
        let tag = (id - 255) as u8;
        wire_up(&mut k, pk(id), &peer(tag), 0);
    }
    // a fresh node of the same bucket announces itself while the bucket
    // is full of connected members: the oldest one is probed with a dial
    let newcomer = peer(100);
    k.set_peer_id(&pk(276), newcomer.duplicate());
    k.inject_connected(newcomer, ConnectedPoint::Listener, 1);
    let external: Vec<Multiaddr> = Vec::new();
    let mut probed = false;
    loop {
        match k.poll(1, &local, &external) {
            Some(NetworkAction::DialPeer { peer_id }) => {
                assert_eq!(peer_id.bytes, peer(1).bytes, "the oldest member is probed");
                probed = true;
            }
            Some(_) => {}
            None => break,
        }
    }
    assert!(probed, "a full bucket of connected members must trigger a probe dial");
}

#[test]
fn a_replaced_connection_resends_requests_and_swaps_addresses() {
    let local = peer(99);
    let mut k = Kademlia::without_init(pk(1000));
    let n = pk(7);
    let p = peer(7);
    wire_up(&mut k, n, &p, 0);
    k.find_node(pk(7));
    let external: Vec<Multiaddr> = Vec::new();
    // the lookup dispatches its request to the only candidate
    let mut waiting = false;
    loop {
        match k.poll(0, &local, &external) {
            Some(NetworkAction::SendEvent { event: KademliaHandlerIn::FindNodeReq { .. }, .. }) => {
                waiting = true;
                break;
            }
            Some(_) => {}
            None => break,
        }
    }
    assert!(waiting, "the request must go out before the connection is replaced");
    // the connection is replaced: the in-flight request is re-sent on the
    // new connection and the dialed addresses are swapped
    k.inject_replaced(
        p.duplicate(),
        ConnectedPoint::Dialer { address: addr(1) },
        ConnectedPoint::Dialer { address: addr(2) },
    );
    let mut resent = false;
    loop {
        match k.poll(0, &local, &external) {
            Some(NetworkAction::SendEvent {
                peer_id,
                event: KademliaHandlerIn::FindNodeReq { .. },
            }) => {
                assert_eq!(peer_id.bytes, p.bytes);
                resent = true;
                break;
            }
            Some(_) => {}
            None => break,
        }
    }
    assert!(resent, "the in-flight request must be re-sent on the new connection");
    let addrs = k.addresses_of_peer(&p);
    assert!(
        addrs.iter().any(|a| a.bytes == addr(2).bytes),
        "the newly dialed address must be recorded"
    );
}

#[test]
fn a_dial_failure_fails_the_waiting_candidate() {
    let local = peer(99);
    let mut k = Kademlia::without_init(pk(1000));
    let n = pk(7);
    let p = peer(7);
    wire_up(&mut k, n, &p, 0);
    k.find_node(pk(7));
    let external: Vec<Multiaddr> = Vec::new();
    loop {
        match k.poll(0, &local, &external) {
            Some(NetworkAction::SendEvent { event: KademliaHandlerIn::FindNodeReq { .. }, .. }) => break,
            Some(_) => {}
            None => break,
        }
    }
    // the dial fails: the candidate is recorded failed, so the lookup
    // finishes without it instead of waiting for the timeout
    k.inject_dial_failure(&p);
    let events = drive(&mut k, 0, &local);
    let mut finished = false;
    for ev in events {
        if let KademliaOut::FindNodeResult { closer_peers, .. } = ev {
            assert!(closer_peers.is_empty(), "the failed candidate must not be reported");
            finished = true;
        }
    }
    assert!(finished, "the lookup must settle once its only candidate failed");
}
