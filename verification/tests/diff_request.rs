use history_sync::diff_request::{
    DiffRequestComponent, DiffResponse, DiffStep, PeerListIndex,
};
use history_sync::validator::{BlockType, ValidatorState};

#[test]
fn requests_begin_with_one_peer_after_the_other() {
    let mut component = DiffRequestComponent::new();
    let first = component.request_diff();
    let second = component.request_diff();
    assert_eq!(first.starting_peer_index, PeerListIndex { index: 0 });
    assert_eq!(second.starting_peer_index, PeerListIndex { index: 1 });
    assert_eq!(DiffRequestComponent::NUM_PENDING_DIFFS, 5);
}

#[test]
fn the_peer_that_sent_the_block_is_asked_first() {
    let mut component = DiffRequestComponent::new();
    let mut request = component.request_diff();
    let mut attempt = request.begin(Some(PeerListIndex { index: 2 }));
    assert_eq!(attempt.next_peer(4), Some(2));
    assert_eq!(attempt.next_peer(4), Some(3));
    assert_eq!(attempt.next_peer(4), Some(0));
    // Without a known sender the peers take turns, block by block.
    let mut attempt = request.begin(None);
    assert_eq!(attempt.next_peer(4), Some(1));
    let mut attempt = request.begin(None);
    assert_eq!(attempt.next_peer(4), Some(2));
    assert_eq!(attempt.next_peer(0), None);
    assert_eq!(attempt.next_peer(2), Some(1));
}

#[test]
fn an_index_goes_round_the_list() {
    let mut index = PeerListIndex { index: usize::MAX };
    assert_eq!(index.position(7), Some(usize::MAX % 7));
    index.increment();
    assert_eq!(index, PeerListIndex { index: 0 });
    assert_eq!(index.position(0), None);
}

#[test]
fn attempts_end_with_a_valid_difference_or_after_a_round() {
    let mut component = DiffRequestComponent::new();
    let mut attempt = component.request_diff().begin(None);
    assert_eq!(attempt.on_response(DiffResponse::IncompleteState, 3), DiffStep::Retry);
    assert_eq!(attempt.on_response(DiffResponse::InvalidDiff, 3), DiffStep::Retry);
    assert_eq!(attempt.on_response(DiffResponse::UnknownBlockHash, 3), DiffStep::GiveUp);
    assert_eq!(attempt.num_tries, 3);
    let mut attempt = component.request_diff().begin(None);
    assert_eq!(attempt.on_response(DiffResponse::RequestError, 3), DiffStep::Retry);
    assert_eq!(attempt.on_response(DiffResponse::ValidDiff, 3), DiffStep::Done);
    let mut attempt = component.request_diff().begin(None);
    assert_eq!(attempt.on_response(DiffResponse::ValidDiff, 0), DiffStep::Done);
    let mut attempt = component.request_diff().begin(None);
    assert_eq!(attempt.on_response(DiffResponse::RequestError, 1), DiffStep::GiveUp);
}

#[test]
fn only_an_active_validator_produces_blocks() {
    let mut state = ValidatorState::new();
    assert!(!state.follows_validator_network());
    assert_eq!(state.block_to_produce(true, BlockType::Micro), None);
    state.on_blockchain_finalized(Some((1, 2)), false);
    assert!(state.follows_validator_network());
    assert_eq!(state.block_to_produce(true, BlockType::Micro), Some(BlockType::Micro));
    assert_eq!(state.block_to_produce(true, BlockType::Macro), Some(BlockType::Macro));
    assert_eq!(state.block_to_produce(false, BlockType::Macro), None);
}
