use std::collections::HashMap;

use alloy_primitives::keccak256;
use multicall::call::{CallDescriptor, CallKind, CallOutcome};
use multicall::codec::decode_results;
use multicall::dispatch::{CallMode, HostCall};
use multicall::executor::{reply, Executor};
use multicall::selector::{decode_multicall, encode_multicall, selector};

#[derive(Clone, Copy, PartialEq)]
enum Program {
    Storage,
    Multicall,
}

/// A small host: per-address code and per-context storage, with delegated
/// calls running in the caller's storage and read-only calls refusing writes.
struct Chain {
    code: HashMap<Vec<u8>, Program>,
    storage: HashMap<(Vec<u8>, Vec<u8>), Vec<u8>>,
    balances: HashMap<Vec<u8>, u128>,
    dispatched: usize,
}

fn addr(b: u8) -> Vec<u8> {
    vec![b; 20]
}

fn word(s: &str) -> Vec<u8> {
    keccak256(s.as_bytes()).to_vec()
}

fn set_storage_data(slot: &[u8], value: &[u8]) -> Vec<u8> {
    let mut d = selector("setStorage(bytes32,bytes32)");
    d.extend_from_slice(slot);
    d.extend_from_slice(value);
    d
}

fn get_storage_data(slot: &[u8]) -> Vec<u8> {
    let mut d = selector("getStorage(bytes32)");
    d.extend_from_slice(slot);
    d
}

fn call(kind: CallKind, target: Vec<u8>, payload: Vec<u8>) -> CallDescriptor {
    CallDescriptor { kind, target, payload, value: vec![0u8; 32], gas_limit: vec![0u8; 32] }
}

fn batch(calls: Vec<CallDescriptor>) -> Vec<u8> {
    encode_multicall(&calls).unwrap()
}

impl Chain {
    fn new() -> Chain {
        let mut c = Chain {
            code: HashMap::new(),
            storage: HashMap::new(),
            balances: HashMap::new(),
            dispatched: 0,
        };
        c.code.insert(multicall_addr(), Program::Multicall);
        c.code.insert(storage_addr(), Program::Storage);
        c.code.insert(multicall_evm_addr(), Program::Multicall);
        c.storage.insert((storage_addr(), word("some-storage-slot")), word("some-storage-data"));
        c
    }

    fn slot(&self, context: &[u8], slot: &[u8]) -> Option<Vec<u8>> {
        self.storage.get(&(context.to_vec(), slot.to_vec())).cloned()
    }

    fn execute(&mut self, to: &[u8], data: &[u8]) -> Result<Vec<u8>, Vec<u8>> {
        self.run(to, to, data, false)
    }

    fn run(&mut self, context: &[u8], code_at: &[u8], data: &[u8], read_only: bool) -> Result<Vec<u8>, Vec<u8>> {
        match self.code.get(code_at).copied() {
            Some(Program::Storage) => self.storage_program(context, data, read_only),
            Some(Program::Multicall) => self.multicall_program(context, data, read_only),
            None => Ok(Vec::new()),
        }
    }

    fn storage_program(&mut self, context: &[u8], data: &[u8], read_only: bool) -> Result<Vec<u8>, Vec<u8>> {
        if data.len() == 68 && data[..4] == selector("setStorage(bytes32,bytes32)")[..] {
            if read_only {
                return Err(b"WriteProtection".to_vec());
            }
            self.storage.insert((context.to_vec(), data[4..36].to_vec()), data[36..68].to_vec());
            Ok(Vec::new())
        } else if data.len() == 36 && data[..4] == selector("getStorage(bytes32)")[..] {
            Ok(self.slot(context, &data[4..36]).unwrap_or(vec![0u8; 32]))
        } else {
            Err(b"unknown function".to_vec())
        }
    }

    fn multicall_program(&mut self, context: &[u8], data: &[u8], read_only: bool) -> Result<Vec<u8>, Vec<u8>> {
        let calls = decode_multicall(data).map_err(|_| b"Failed to decode calldata".to_vec())?;
        let mut ex = Executor::new(calls);
        while let Some(h) = ex.next_call() {
            let outcome = self.host_call(context, &h, read_only);
            ex.record(outcome);
        }
        reply(ex.into_result().unwrap()).unwrap()
    }

    fn host_call(&mut self, caller: &[u8], h: &HostCall, read_only: bool) -> CallOutcome {
        self.dispatched += 1;
        let read_only = read_only || h.mode == CallMode::ReadOnly;
        let context = if h.mode == CallMode::Delegated { caller.to_vec() } else { h.target.clone() };
        if let Some(v) = &h.value {
            let amount = v[16..].iter().fold(0u128, |a, b| a * 256 + *b as u128);
            let have = *self.balances.get(caller).unwrap_or(&0);
            if read_only || have < amount {
                return CallOutcome::Failure(Vec::new());
            }
            self.balances.insert(caller.to_vec(), have - amount);
            *self.balances.entry(h.target.clone()).or_insert(0) += amount;
        }
        match self.run(&context, &h.target, &h.data, read_only) {
            Ok(b) => CallOutcome::Success(b),
            Err(b) => CallOutcome::Failure(b),
        }
    }
}

fn multicall_addr() -> Vec<u8> {
    addr(0x11)
}

fn storage_addr() -> Vec<u8> {
    addr(0x22)
}

fn multicall_evm_addr() -> Vec<u8> {
    addr(0x33)
}

#[test]
fn test_multicall_storage_read() {
    let mut chain = Chain::new();
    let input = batch(vec![call(
        CallKind::Direct,
        storage_addr(),
        get_storage_data(&word("some-storage-slot")),
    )]);
    let out = chain.execute(&multicall_addr(), &input);
    assert!(out.is_ok());
    let results = decode_results(&out.unwrap()).unwrap();
    assert_eq!(results[0], word("some-storage-data"));
}

#[test]
fn test_multicall_storage_write() {
    let mut chain = Chain::new();
    let input = batch(vec![call(
        CallKind::Direct,
        storage_addr(),
        set_storage_data(&word("some-storage-slot"), &word("new-storage-value")),
    )]);
    chain.execute(&multicall_addr(), &input).unwrap();
    assert_eq!(
        chain.slot(&storage_addr(), &word("some-storage-slot")).unwrap(),
        word("new-storage-value")
    );
}

#[test]
fn test_static_call_write_protection() {
    let mut chain = Chain::new();
    let input = batch(vec![call(
        CallKind::ReadOnly,
        storage_addr(),
        set_storage_data(&word("some-storage-slot"), &word("new-storage-value")),
    )]);
    let out = chain.execute(&multicall_addr(), &input);
    let output = String::from_utf8_lossy(&out.unwrap_err()).to_string();
    assert!(output.contains("WriteProtection"));
}

#[test]
fn static_call_leaves_storage_unchanged() {
    let mut chain = Chain::new();
    let input = batch(vec![call(
        CallKind::ReadOnly,
        storage_addr(),
        set_storage_data(&word("some-storage-slot"), &word("new-storage-value")),
    )]);
    assert!(chain.execute(&multicall_addr(), &input).is_err());
    assert_eq!(
        chain.slot(&storage_addr(), &word("some-storage-slot")).unwrap(),
        word("some-storage-data")
    );
}

#[test]
fn test_delegatecall_storage_context() {
    let mut chain = Chain::new();
    chain.storage.insert(
        (multicall_addr(), word("some-storage-slot")),
        word("multicall-storage-value"),
    );
    let input = batch(vec![call(
        CallKind::Delegated,
        storage_addr(),
        get_storage_data(&word("some-storage-slot")),
    )]);
    let out = chain.execute(&multicall_addr(), &input);
    assert!(out.is_ok());
    let results = decode_results(&out.unwrap()).unwrap();
    assert_eq!(results[0], word("multicall-storage-value"));
}

#[test]
fn delegated_write_lands_in_caller_storage() {
    let mut chain = Chain::new();
    let slot = word("other-slot");
    let input = batch(vec![call(
        CallKind::Delegated,
        storage_addr(),
        set_storage_data(&slot, &word("new-storage-value")),
    )]);
    chain.execute(&multicall_addr(), &input).unwrap();
    assert_eq!(chain.slot(&multicall_addr(), &slot).unwrap(), word("new-storage-value"));
    assert_eq!(chain.slot(&storage_addr(), &slot), None);
}

#[test]
fn test_multicall_to_evm() {
    let mut chain = Chain::new();
    let slot = word("some-storage-slot");
    let data = word("new-storage-value");
    let input = batch(vec![call(CallKind::Direct, storage_addr(), set_storage_data(&slot, &data))]);
    let out = chain.execute(&multicall_evm_addr(), &input);
    assert!(out.is_ok());
    assert_eq!(chain.slot(&storage_addr(), &slot).unwrap(), data);
}

#[test]
fn test_multicall_nested_evm() {
    let mut chain = Chain::new();
    let slot = word("some-storage-slot");
    let data = word("new-storage-value");
    let inner = batch(vec![call(CallKind::Direct, storage_addr(), get_storage_data(&slot))]);
    let input = batch(vec![
        call(CallKind::Direct, storage_addr(), set_storage_data(&slot, &data)),
        call(CallKind::Direct, multicall_evm_addr(), inner),
    ]);
    let out = chain.execute(&multicall_addr(), &input);
    assert!(out.is_ok());
    let results = decode_results(&out.unwrap()).unwrap();
    let inner_results = decode_results(&results[1]).unwrap();
    assert_eq!(inner_results[0], data);
}

#[test]
fn test_multicall_to_stylus() {
    let mut chain = Chain::new();
    let slot = word("some-storage-slot");
    let data = word("new-storage-value");
    let inner = batch(vec![call(CallKind::Direct, storage_addr(), set_storage_data(&slot, &data))]);
    let input = batch(vec![call(CallKind::Direct, multicall_addr(), inner)]);
    let out = chain.execute(&multicall_evm_addr(), &input);
    assert!(out.is_ok());
    assert_eq!(chain.slot(&storage_addr(), &slot).unwrap(), data);
}

#[test]
fn failure_stops_the_batch_and_keeps_earlier_writes() {
    let mut chain = Chain::new();
    let slot = word("some-storage-slot");
    let later = word("later-slot");
    let input = batch(vec![
        call(CallKind::Direct, storage_addr(), set_storage_data(&slot, &word("first"))),
        call(CallKind::Direct, storage_addr(), b"bad call".to_vec()),
        call(CallKind::Direct, storage_addr(), set_storage_data(&later, &word("third"))),
    ]);
    let out = chain.execute(&multicall_addr(), &input);
    assert_eq!(out, Err(b"unknown function".to_vec()));
    assert_eq!(chain.dispatched, 2);
    assert_eq!(chain.slot(&storage_addr(), &slot).unwrap(), word("first"));
    assert_eq!(chain.slot(&storage_addr(), &later), None);
}

#[test]
fn value_moves_only_when_nonzero_and_direct() {
    let mut chain = Chain::new();
    chain.balances.insert(multicall_addr(), 100);
    let mut paying = call(CallKind::Direct, storage_addr(), get_storage_data(&word("x")));
    paying.value[31] = 40;
    let mut delegated = call(CallKind::Delegated, storage_addr(), get_storage_data(&word("x")));
    delegated.value[31] = 7;
    let free = call(CallKind::Direct, storage_addr(), get_storage_data(&word("x")));
    let input = batch(vec![paying, delegated, free]);
    assert!(chain.execute(&multicall_addr(), &input).is_ok());
    assert_eq!(chain.balances[&multicall_addr()], 60);
    assert_eq!(chain.balances[&storage_addr()], 40);
}

#[test]
fn value_past_balance_fails_the_batch() {
    let mut chain = Chain::new();
    chain.balances.insert(multicall_addr(), 5);
    let mut paying = call(CallKind::Direct, storage_addr(), get_storage_data(&word("x")));
    paying.value[31] = 40;
    let out = chain.execute(&multicall_addr(), &batch(vec![paying]));
    assert_eq!(out, Err(Vec::new()));
}

#[test]
fn malformed_input_runs_no_call() {
    let mut chain = Chain::new();
    let mut input = batch(vec![call(CallKind::Direct, storage_addr(), get_storage_data(&word("x")))]);
    input.truncate(input.len() - 40);
    let out = chain.execute(&multicall_addr(), &input);
    assert_eq!(out, Err(b"Failed to decode calldata".to_vec()));
    assert_eq!(chain.dispatched, 0);
}
