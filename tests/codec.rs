use alloy_primitives::{keccak256, Address, Bytes, U256};
use alloy_sol_types::SolValue;
use multicall::call::{CallDescriptor, CallKind};
use multicall::codec::{
    decode_calls, decode_input, decode_results, encode_calls, encode_input, encode_results,
    DecodeError,
};
use multicall::selector::{
    decode_multicall, encode_multicall, multicall_selector, selector, MULTICALL_SIGNATURE,
};

fn word_of(n: u64) -> Vec<u8> {
    let mut w = vec![0u8; 24];
    w.extend_from_slice(&n.to_be_bytes());
    w
}

fn sample_calls() -> Vec<CallDescriptor> {
    let mut gas = vec![0u8; 32];
    gas[30] = 0x27;
    gas[31] = 0x10;
    let mut value = vec![0u8; 32];
    value[0] = 0x80;
    vec![
        CallDescriptor {
            kind: CallKind::Direct,
            target: vec![0xaa; 20],
            payload: vec![],
            value: vec![0u8; 32],
            gas_limit: vec![0u8; 32],
        },
        CallDescriptor {
            kind: CallKind::Delegated,
            target: (0u8..20).collect(),
            payload: vec![1, 2, 3],
            value: value.clone(),
            gas_limit: gas.clone(),
        },
        CallDescriptor {
            kind: CallKind::ReadOnly,
            target: vec![0x01; 20],
            payload: (0u8..32).collect(),
            value: vec![0u8; 32],
            gas_limit: gas,
        },
        CallDescriptor {
            kind: CallKind::Direct,
            target: vec![0xff; 20],
            payload: (0u8..33).collect(),
            value,
            gas_limit: vec![0xff; 32],
        },
    ]
}

fn alloy_params(calls: &[CallDescriptor]) -> Vec<u8> {
    let tuples: Vec<(u16, Address, Bytes, U256, U256)> = calls
        .iter()
        .map(|c| {
            let kind = match c.kind {
                CallKind::Direct => 0u16,
                CallKind::Delegated => 1,
                CallKind::ReadOnly => 2,
            };
            (
                kind,
                Address::from_slice(&c.target),
                Bytes::from(c.payload.clone()),
                U256::from_be_slice(&c.value),
                U256::from_be_slice(&c.gas_limit),
            )
        })
        .collect();
    (tuples,).abi_encode_params()
}

#[test]
fn selector_is_digest_prefix() {
    let s = multicall_selector();
    assert_eq!(s, keccak256(MULTICALL_SIGNATURE.as_bytes())[..4].to_vec());
    assert_ne!(s, MULTICALL_SIGNATURE.as_bytes()[..4].to_vec());
    assert_eq!(selector("transfer(address,uint256)"), vec![0xa9, 0x05, 0x9c, 0xbb]);
}

#[test]
fn calls_encode_as_the_abi_does() {
    let calls = sample_calls();
    assert_eq!(encode_calls(&calls).unwrap(), alloy_params(&calls));
    let mut input = multicall_selector();
    input.extend_from_slice(&alloy_params(&calls));
    assert_eq!(encode_multicall(&calls).unwrap(), input);
}

#[test]
fn abi_encoded_calls_decode() {
    let calls = sample_calls();
    assert_eq!(decode_calls(&alloy_params(&calls)), Some(calls.clone()));
    let mut input = multicall_selector();
    input.extend_from_slice(&alloy_params(&calls));
    assert_eq!(decode_multicall(&input), Ok(calls));
}

#[test]
fn results_encode_as_the_abi_does() {
    let results: Vec<Vec<u8>> = vec![vec![], vec![7], (0u8..32).collect(), (0u8..70).collect()];
    let alloy: Vec<Bytes> = results.iter().map(|r| Bytes::from(r.clone())).collect();
    let encoded = encode_results(&results).unwrap();
    assert_eq!(encoded, alloy.abi_encode());
    let back = <Vec<Bytes>>::abi_decode(&encoded, true).unwrap();
    assert_eq!(back, alloy);
}

#[test]
fn empty_results_encoding() {
    let encoded = encode_results(&vec![]).unwrap();
    let mut expected = word_of(32);
    expected.extend_from_slice(&word_of(0));
    assert_eq!(encoded, expected);
    assert_eq!(decode_results(&encoded), Some(vec![]));
}

#[test]
fn one_result_encoding_layout() {
    let encoded = encode_results(&vec![vec![0xde, 0xad]]).unwrap();
    let mut expected = word_of(32);
    expected.extend_from_slice(&word_of(1));
    expected.extend_from_slice(&word_of(32));
    expected.extend_from_slice(&word_of(2));
    let mut data = vec![0xde, 0xad];
    data.resize(32, 0);
    expected.extend_from_slice(&data);
    assert_eq!(encoded, expected);
}

#[test]
fn batch_round_trip() {
    let calls = sample_calls();
    let input = encode_multicall(&calls).unwrap();
    assert_eq!(decode_multicall(&input), Ok(calls));
}

#[test]
fn empty_batch_round_trip() {
    let input = encode_multicall(&vec![]).unwrap();
    assert_eq!(input.len(), 4 + 64);
    assert_eq!(decode_multicall(&input), Ok(vec![]));
}

#[test]
fn results_round_trip() {
    let results: Vec<Vec<u8>> = vec![(0u8..5).collect(), vec![], vec![9; 64]];
    assert_eq!(decode_results(&encode_results(&results).unwrap()), Some(results));
}

#[test]
fn nested_results_decode_twice() {
    let inner: Vec<Vec<u8>> = vec![vec![1; 32]];
    let outer = vec![vec![], encode_results(&inner).unwrap()];
    let decoded = decode_results(&encode_results(&outer).unwrap()).unwrap();
    assert_eq!(decode_results(&decoded[1]), Some(inner));
}

#[test]
fn encode_input_uses_given_selector() {
    let calls = sample_calls();
    let input = encode_input(&[1, 2, 3, 4], &calls).unwrap();
    assert_eq!(input[..4].to_vec(), vec![1, 2, 3, 4]);
    assert_eq!(decode_input(&input, &[1, 2, 3, 4]), Ok(calls));
}

#[test]
fn short_input_is_wrong_selector() {
    assert_eq!(decode_multicall(&[]), Err(DecodeError::WrongSelector));
    assert_eq!(decode_multicall(&[1, 2, 3]), Err(DecodeError::WrongSelector));
}

#[test]
fn other_selector_is_refused() {
    let calls = sample_calls();
    let input = encode_input(&[0, 0, 0, 0], &calls).unwrap();
    assert_eq!(decode_multicall(&input), Err(DecodeError::WrongSelector));
}

#[test]
fn truncated_input_is_malformed() {
    let input = encode_multicall(&sample_calls()).unwrap();
    for cut in [4usize, 40, 100, input.len() - 32] {
        assert_eq!(decode_multicall(&input[..cut]), Err(DecodeError::Malformed));
    }
}

#[test]
fn out_of_range_kind_is_malformed() {
    let calls = vec![sample_calls().remove(0)];
    let mut params = encode_calls(&calls).unwrap();
    // array offset, length, one element offset, then the tuple's kind word
    assert_eq!(params[127], 0);
    params[127] = 3;
    assert_eq!(decode_calls(&params), None);
    params[127] = 2;
    assert_eq!(decode_calls(&params).unwrap()[0].kind, CallKind::ReadOnly);
}

#[test]
fn address_with_high_bytes_is_malformed() {
    let calls = vec![sample_calls().remove(0)];
    let mut params = encode_calls(&calls).unwrap();
    params[128] = 1;
    assert_eq!(decode_calls(&params), None);
}

#[test]
fn overrunning_payload_length_is_malformed() {
    let calls = vec![sample_calls().remove(0)];
    let mut params = encode_calls(&calls).unwrap();
    // the payload's length word follows the five head words of the tuple
    let len_word = 96 + 160;
    assert_eq!(params[len_word + 31], 0);
    params[len_word + 31] = 1;
    assert_eq!(decode_calls(&params), None);
}

#[test]
fn huge_array_length_is_malformed() {
    let mut params = word_of(32);
    params.extend_from_slice(&[0xff; 32]);
    assert_eq!(decode_calls(&params), None);
    assert_eq!(decode_results(&params), None);
}
