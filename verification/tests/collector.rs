//! View-change collection: vote handling, rejection, aggregation and reset.

use stegos_core::chain::{check_supermajority, ChainInfo, ChainView};
use stegos_core::collector::{ConsensusError, ViewChangeCollector, ViewChangeMessage};
use stegos_core::crypto::{Digest, PublicKey, SecretKey};

fn pk(id: u64) -> PublicKey {
    PublicKey { id }
}

fn sk(id: u64) -> SecretKey {
    SecretKey { id }
}

fn four_validator_chain() -> ChainView {
    ChainView {
        height: 5,
        last_block: Digest { w0: 7, w1: 9 },
        view_change: 2,
        validators: vec![(pk(10), 1), (pk(11), 1), (pk(12), 1), (pk(13), 1)],
        total_slots: 4,
    }
}

fn vote(chain: &ChainView, validator_id: u32, key_id: u64) -> ViewChangeMessage {
    ViewChangeMessage::new(ChainInfo::from_chain(chain), validator_id, &sk(key_id))
}

#[test]
fn supermajority_is_strictly_more_than_two_thirds() {
    assert!(!check_supermajority(2, 4));
    assert!(check_supermajority(3, 4));
    assert!(!check_supermajority(2, 3));
    assert!(check_supermajority(3, 3));
    assert!(!check_supermajority(0, 0));
}

#[test]
fn collector_happy_path_emits_proof_on_third_vote() {
    let chain = four_validator_chain();
    let mut collector = ViewChangeCollector::new(&chain, pk(10), sk(10));
    assert!(collector.is_validator());

    let r1 = collector.handle_message(&chain, vote(&chain, 1, 11)).unwrap();
    assert!(r1.is_none());
    let r2 = collector.handle_message(&chain, vote(&chain, 2, 12)).unwrap();
    assert!(r2.is_none());
    let proof = collector
        .handle_message(&chain, vote(&chain, 3, 13))
        .unwrap()
        .expect("third vote crosses the supermajority");

    assert_eq!(proof.multimap, vec![false, true, true, true]);
    assert_eq!(proof.multisig.signers, vec![11, 12, 13]);
    let info = ChainInfo::from_chain(&chain);
    assert!(proof.validate(&info, &chain));
}

#[test]
fn collector_rejects_wrong_view_change_counter() {
    let chain = four_validator_chain();
    let mut collector = ViewChangeCollector::new(&chain, pk(10), sk(10));
    let stale = ChainInfo { height: 5, last_block: Digest { w0: 7, w1: 9 }, view_change: 3 };
    let msg = ViewChangeMessage::new(stale, 1, &sk(11));
    let r = collector.handle_message(&chain, msg);
    assert_eq!(r.unwrap_err(), ConsensusError::InvalidViewChangeCounter(3, 2));
    // the rejected vote left no trace: the happy path still needs three votes
    assert!(collector.handle_message(&chain, vote(&chain, 1, 11)).unwrap().is_none());
    assert!(collector.handle_message(&chain, vote(&chain, 2, 12)).unwrap().is_none());
    assert!(collector.handle_message(&chain, vote(&chain, 3, 13)).unwrap().is_some());
}

#[test]
fn collector_rejects_wrong_height_and_last_block() {
    let chain = four_validator_chain();
    let mut collector = ViewChangeCollector::new(&chain, pk(10), sk(10));

    let wrong_height = ChainInfo { height: 6, last_block: Digest { w0: 7, w1: 9 }, view_change: 2 };
    assert_eq!(
        collector
            .handle_message(&chain, ViewChangeMessage::new(wrong_height, 1, &sk(11)))
            .unwrap_err(),
        ConsensusError::InvalidViewChangeHeight(6, 5)
    );

    let wrong_block = ChainInfo { height: 5, last_block: Digest { w0: 8, w1: 9 }, view_change: 2 };
    assert_eq!(
        collector
            .handle_message(&chain, ViewChangeMessage::new(wrong_block, 1, &sk(11)))
            .unwrap_err(),
        ConsensusError::InvalidLastBlockHash(Digest { w0: 8, w1: 9 }, Digest { w0: 7, w1: 9 })
    );
}

#[test]
fn collector_rejects_unknown_validator_and_bad_signature() {
    let chain = four_validator_chain();
    let mut collector = ViewChangeCollector::new(&chain, pk(10), sk(10));

    assert_eq!(
        collector.handle_message(&chain, vote(&chain, 9, 11)).unwrap_err(),
        ConsensusError::InvalidValidatorId(9)
    );
    // validator 1 signed with validator 2's key
    assert_eq!(
        collector.handle_message(&chain, vote(&chain, 1, 12)).unwrap_err(),
        ConsensusError::InvalidViewChangeSignature
    );
}

#[test]
fn collector_ignores_repeated_votes() {
    let chain = four_validator_chain();
    let mut collector = ViewChangeCollector::new(&chain, pk(10), sk(10));
    assert!(collector.handle_message(&chain, vote(&chain, 1, 11)).unwrap().is_none());
    assert!(collector.handle_message(&chain, vote(&chain, 1, 11)).unwrap().is_none());
    assert!(collector.handle_message(&chain, vote(&chain, 2, 12)).unwrap().is_none());
    // two distinct voters so far: a third distinct one is still needed
    assert!(collector.handle_message(&chain, vote(&chain, 1, 11)).unwrap().is_none());
    assert!(collector.handle_message(&chain, vote(&chain, 3, 13)).unwrap().is_some());
}

#[test]
fn collector_resets_on_new_payment_block() {
    let chain = four_validator_chain();
    let mut collector = ViewChangeCollector::new(&chain, pk(10), sk(10));
    assert!(collector.handle_message(&chain, vote(&chain, 1, 11)).unwrap().is_none());
    assert!(collector.handle_message(&chain, vote(&chain, 2, 12)).unwrap().is_none());
    collector.on_new_payment_block(&chain);
    // the earlier two votes are gone; one vote alone proves nothing
    assert!(collector.handle_message(&chain, vote(&chain, 3, 13)).unwrap().is_none());
}

#[test]
fn collector_is_passive_for_a_non_validator() {
    let chain = four_validator_chain();
    let mut collector = ViewChangeCollector::new(&chain, pk(99), sk(99));
    assert!(!collector.is_validator());
    assert!(collector.handle_timeout(&chain).is_none());
    assert!(collector.handle_message(&chain, vote(&chain, 1, 11)).unwrap().is_none());
}

#[test]
fn handle_timeout_signs_a_vote_over_the_tip() {
    let chain = four_validator_chain();
    let collector = ViewChangeCollector::new(&chain, pk(12), sk(12));
    let msg = collector.handle_timeout(&chain).expect("an active validator votes");
    assert_eq!(msg.validator_id, 2);
    assert_eq!(msg.chain, ChainInfo::from_chain(&chain));
    assert!(msg.validate(&chain).is_ok());
}

#[test]
fn on_new_consensus_recomputes_the_validator_index() {
    let chain = four_validator_chain();
    let mut collector = ViewChangeCollector::new(&chain, pk(13), sk(13));
    assert!(collector.is_validator());
    let reshuffled = ChainView {
        height: 6,
        last_block: Digest { w0: 1, w1: 2 },
        view_change: 0,
        validators: vec![(pk(20), 2), (pk(21), 2)],
        total_slots: 4,
    };
    collector.on_new_consensus(&reshuffled);
    assert!(!collector.is_validator());
}

#[test]
fn proof_validation_rejects_a_tampered_bitmap() {
    let chain = four_validator_chain();
    let mut collector = ViewChangeCollector::new(&chain, pk(10), sk(10));
    collector.handle_message(&chain, vote(&chain, 1, 11)).unwrap();
    collector.handle_message(&chain, vote(&chain, 2, 12)).unwrap();
    let mut proof = collector.handle_message(&chain, vote(&chain, 3, 13)).unwrap().unwrap();
    let info = ChainInfo::from_chain(&chain);
    assert!(proof.validate(&info, &chain));
    // claiming one more contributor than actually signed must fail
    proof.multimap[0] = true;
    assert!(!proof.validate(&info, &chain));
}
