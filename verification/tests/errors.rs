use merkle::error::{
    InnerMerkleError, MerkleError, ProviderError, ERROR_CLIENT_INIT, ERROR_EMPTY_INPUT,
    ERROR_NOT_POWER_OF_TWO,
};
use merkle::merkle::MerkleTree;

#[test]
fn empty_record_list_is_refused() {
    let err = MerkleTree::new(Vec::new()).expect_err("empty input must fail");
    assert_eq!(err.code(), ERROR_EMPTY_INPUT);
}

#[test]
fn non_power_of_two_count_is_refused() {
    let records = vec![b"a".to_vec(), b"b".to_vec(), b"c".to_vec()];
    let err = MerkleTree::new(records).expect_err("three records must fail");
    assert_eq!(err.code(), ERROR_NOT_POWER_OF_TWO);
}

#[test]
fn six_records_are_refused() {
    let records = vec![vec![1u8]; 6];
    let err = MerkleTree::new(records).expect_err("six records must fail");
    assert_eq!(err.code(), ERROR_NOT_POWER_OF_TWO);
}

#[test]
fn new_keeps_code_and_message() {
    let e = MerkleError::new(7, "something odd".to_string(), None);
    assert_eq!(e.code(), 7);
    assert_eq!(e.message(), "something odd");
}

#[test]
fn provider_error_wraps_as_client_init() {
    let e = MerkleError::from(ProviderError {});
    assert_eq!(e.code(), ERROR_CLIENT_INIT);
    assert_eq!(e.message(), "Failed to initialise client");
}

#[test]
fn inner_error_can_be_carried() {
    let e = MerkleError::new(
        9,
        "wrapped".to_string(),
        Some(InnerMerkleError::ClientError(ProviderError {})),
    );
    assert_eq!(e.code(), 9);
}
