use batch_precompile::abi::{decode_call, encode_call, DecodeError};
use batch_precompile::engine::{dispatch, Engine};
use batch_precompile::types::{
    log_costs, status_log, word_bytes_of_u64, Action, Address, BatchInput, Log, Mode, Outcome,
    Subcall, SubcallReason, SubcallResult, Word, GAS_RESERVE, SELECTOR_BATCH_ALL,
    SELECTOR_BATCH_SOME, SELECTOR_BATCH_SOME_UNTIL_FAILURE, STATUS_LOG_COST,
    TOPIC_SUBCALL_FAILED, TOPIC_SUBCALL_SUCCEEDED,
};

fn addr(b: u8) -> Address {
    Address { bytes: vec![b; 20] }
}

fn alice() -> Address {
    addr(0xAA)
}

fn bob() -> Address {
    addr(0xBB)
}

fn charlie() -> Address {
    addr(0xCC)
}

fn david() -> Address {
    addr(0xDD)
}

fn precompile_addr() -> Address {
    addr(0x01)
}

fn revert_addr() -> Address {
    addr(0xFF)
}

fn word(n: u64) -> Word {
    Word {
        bytes: word_bytes_of_u64(n),
    }
}

fn word_value(w: &Word) -> u128 {
    let mut v: u128 = 0;
    for b in &w.bytes {
        v = v * 256 + *b as u128;
    }
    v
}

fn batch_input(targets: Vec<Address>, values: Vec<u64>, calldatas: Vec<Vec<u8>>, flag: bool) -> BatchInput {
    BatchInput {
        targets,
        values: values.into_iter().map(word).collect(),
        calldatas,
        flag,
    }
}

fn log1(address: Address, topic_byte: u8) -> Log {
    Log {
        address,
        topics: vec![Word {
            bytes: vec![topic_byte; 32],
        }],
        data: vec![],
    }
}

fn succeeded_log(i: u64) -> Log {
    status_log(&precompile_addr(), i, true)
}

fn failed_log(i: u64) -> Log {
    status_log(&precompile_addr(), i, false)
}

/// Encodes the call, dispatches it, and drives the engine with `host`
/// playing the enclosing virtual machine.
fn run<F: FnMut(&Subcall) -> SubcallResult>(
    mode: Mode,
    caller: Address,
    gas: u64,
    input: &BatchInput,
    mut host: F,
) -> (Outcome, Engine) {
    let data = encode_call(mode, input);
    let (mut engine, mut action) = match dispatch(&data, caller, precompile_addr(), gas) {
        Ok(p) => p,
        Err(e) => panic!("dispatch rejected valid calldata: {:?}", e),
    };
    loop {
        match action {
            Action::Call(sc) => {
                let r = host(&sc);
                action = engine.feed(r);
            }
            Action::Done(o) => return (o, engine),
        }
    }
}

#[test]
fn selectors() {
    assert_eq!(Mode::BatchSome.selector(), 0x3d662152);
    assert_eq!(Mode::BatchSomeUntilFailure.selector(), 0x310a0280);
    assert_eq!(Mode::BatchAll.selector(), 0x9cb89af4);
    assert_eq!(SELECTOR_BATCH_SOME, 0x3d662152);
    assert_eq!(SELECTOR_BATCH_SOME_UNTIL_FAILURE, 0x310a0280);
    assert_eq!(SELECTOR_BATCH_ALL, 0x9cb89af4);
}

fn batch_empty(mode: Mode) {
    let input = batch_input(vec![], vec![], vec![], false);
    let (outcome, engine) = run(mode, alice(), 100_000, &input, |_sc| {
        panic!("there should be no subcall")
    });
    assert_eq!(outcome, Outcome::Success);
    assert!(engine.logs.is_empty());
    assert_eq!(engine.total_cost, 0);
}

#[test]
fn batch_some_empty() {
    batch_empty(Mode::BatchSome);
}

#[test]
fn batch_some_until_failure_empty() {
    batch_empty(Mode::BatchSomeUntilFailure);
}

#[test]
fn batch_all_empty() {
    batch_empty(Mode::BatchAll);
}

fn batch_returns(mode: Mode) -> (Outcome, Engine) {
    let mut counter = 0u32;

    let return_log_cost = log_costs(1, 32).unwrap();
    let gas_reserve = return_log_cost + 1;

    let input = batch_input(
        vec![bob(), charlie()],
        vec![1, 2],
        vec![b"one".to_vec(), b"two".to_vec()],
        true,
    );

    run(mode, alice(), 100_000, &input, move |sc| {
        // Called from the precompile caller.
        assert_eq!(sc.context_caller, alice());
        assert!(!sc.is_static);

        if sc.target == bob() {
            assert_eq!(counter, 0, "this is the first call");
            counter += 1;

            assert_eq!(sc.gas_limit, 100_000 - gas_reserve, "batch forward all gas");
            assert!(sc.transfer, "there is a transfer");
            assert_eq!(word_value(&sc.value), 1);

            assert_eq!(sc.context_address, bob());
            assert_eq!(word_value(&sc.apparent_value), 1);

            assert_eq!(&sc.input, b"one");

            SubcallResult {
                reason: SubcallReason::Succeeded,
                output: b"ONE".to_vec(),
                cost: 13,
                logs: vec![log1(bob(), 0x11)],
            }
        } else if sc.target == charlie() {
            assert_eq!(counter, 1, "this is the second call");
            counter += 1;

            assert_eq!(
                sc.gas_limit,
                100_000 - 13 - gas_reserve - return_log_cost,
                "batch forward all gas"
            );
            assert!(sc.transfer, "there is a transfer");
            assert_eq!(word_value(&sc.value), 2);

            assert_eq!(sc.context_address, charlie());
            assert_eq!(word_value(&sc.apparent_value), 2);

            assert_eq!(&sc.input, b"two");

            SubcallResult {
                reason: SubcallReason::Succeeded,
                output: b"TWO".to_vec(),
                cost: 17,
                logs: vec![log1(charlie(), 0x22)],
            }
        } else {
            panic!("unexpected subcall")
        }
    })
}

fn check_returns(outcome: Outcome, engine: Engine) {
    let return_log_cost = log_costs(1, 32).unwrap();
    assert_eq!(outcome, Outcome::Success);
    assert_eq!(
        engine.logs,
        vec![
            log1(bob(), 0x11),
            succeeded_log(0),
            log1(charlie(), 0x22),
            succeeded_log(1),
        ]
    );
    assert_eq!(engine.total_cost, 13 + 17 + return_log_cost * 2);
}

#[test]
fn batch_some_returns() {
    let (outcome, engine) = batch_returns(Mode::BatchSome);
    check_returns(outcome, engine);
}

#[test]
fn batch_some_until_failure_returns() {
    let (outcome, engine) = batch_returns(Mode::BatchSomeUntilFailure);
    check_returns(outcome, engine);
}

#[test]
fn batch_all_returns() {
    let (outcome, engine) = batch_returns(Mode::BatchAll);
    check_returns(outcome, engine);
}

fn batch_out_of_gas(mode: Mode) -> (Outcome, Engine) {
    let return_log_cost = log_costs(1, 32).unwrap();
    let gas_reserve = return_log_cost + 1;

    let input = batch_input(vec![bob()], vec![1], vec![b"one".to_vec()], true);

    run(mode, alice(), 50_000, &input, move |sc| {
        // Called from the precompile caller.
        assert_eq!(sc.context_caller, alice());
        assert!(!sc.is_static);

        if sc.target == bob() {
            assert_eq!(sc.gas_limit, 50_000 - gas_reserve, "batch forward all gas");
            assert!(sc.transfer, "there is a transfer");
            assert_eq!(word_value(&sc.value), 1);

            assert_eq!(sc.context_address, bob());
            assert_eq!(word_value(&sc.apparent_value), 1);

            assert_eq!(&sc.input, b"one");

            SubcallResult {
                reason: SubcallReason::OutOfGas,
                output: Vec::new(),
                cost: 11_000,
                logs: vec![],
            }
        } else {
            panic!("unexpected subcall")
        }
    })
}

#[test]
fn batch_some_out_of_gas() {
    let (outcome, engine) = batch_out_of_gas(Mode::BatchSome);
    assert_eq!(outcome, Outcome::Success);
    assert_eq!(engine.logs, vec![failed_log(0)]);
}

#[test]
fn batch_some_until_failure_out_of_gas() {
    let (outcome, engine) = batch_out_of_gas(Mode::BatchSomeUntilFailure);
    assert_eq!(outcome, Outcome::Success);
    assert_eq!(engine.logs, vec![failed_log(0)]);
}

#[test]
fn batch_all_out_of_gas() {
    let (outcome, _engine) = batch_out_of_gas(Mode::BatchAll);
    assert_eq!(outcome, Outcome::OutOfGas);
}

fn batch_incomplete(mode: Mode) -> (Outcome, Engine) {
    let mut counter = 0u32;

    let return_log_cost = log_costs(1, 32).unwrap();
    let gas_reserve = return_log_cost + 1;

    let input = batch_input(
        vec![bob(), charlie(), alice()],
        vec![1, 2],
        vec![b"one".to_vec()],
        true,
    );

    run(mode, alice(), 100_000, &input, move |sc| {
        // Called from the precompile caller.
        assert_eq!(sc.context_caller, alice());
        assert!(!sc.is_static);

        if sc.target == bob() {
            assert_eq!(counter, 0, "this is the first call");
            counter += 1;

            assert_eq!(sc.gas_limit, 100_000 - gas_reserve, "batch forward all gas");
            assert!(sc.transfer, "there is a transfer");
            assert_eq!(word_value(&sc.value), 1);

            assert_eq!(sc.context_address, bob());
            assert_eq!(word_value(&sc.apparent_value), 1);

            assert_eq!(&sc.input, b"one");

            SubcallResult {
                reason: SubcallReason::Succeeded,
                output: b"ONE".to_vec(),
                cost: 13,
                logs: vec![log1(bob(), 0x11)],
            }
        } else if sc.target == charlie() {
            assert_eq!(counter, 1, "this is the second call");
            counter += 1;

            assert_eq!(
                sc.gas_limit,
                100_000 - 13 - gas_reserve - return_log_cost,
                "batch forward all gas"
            );
            assert!(sc.transfer, "there is a transfer");
            assert_eq!(word_value(&sc.value), 2);

            assert_eq!(sc.context_address, charlie());
            assert_eq!(word_value(&sc.apparent_value), 2);

            assert_eq!(&sc.input, b"");

            SubcallResult {
                reason: SubcallReason::Reverted,
                output: b"Revert message".to_vec(),
                cost: 17,
                logs: vec![],
            }
        } else if sc.target == alice() {
            assert_eq!(counter, 2, "this is the third call");
            counter += 1;

            assert_eq!(
                sc.gas_limit,
                100_000 - 13 - 17 - gas_reserve - return_log_cost * 2,
                "batch forward all gas"
            );
            assert!(!sc.transfer);

            assert_eq!(sc.context_address, alice());
            assert_eq!(word_value(&sc.apparent_value), 0);

            assert_eq!(&sc.input, b"");

            SubcallResult {
                reason: SubcallReason::Succeeded,
                output: b"THREE".to_vec(),
                cost: 19,
                logs: vec![log1(alice(), 0x33)],
            }
        } else {
            panic!("unexpected subcall")
        }
    })
}

#[test]
fn batch_some_incomplete() {
    let (outcome, engine) = batch_incomplete(Mode::BatchSome);
    assert_eq!(outcome, Outcome::Success);
    assert_eq!(
        engine.logs,
        vec![
            log1(bob(), 0x11),
            succeeded_log(0),
            failed_log(1),
            log1(alice(), 0x33),
            succeeded_log(2),
        ]
    );
}

#[test]
fn batch_some_until_failure_incomplete() {
    let (outcome, engine) = batch_incomplete(Mode::BatchSomeUntilFailure);
    assert_eq!(outcome, Outcome::Success);
    assert_eq!(
        engine.logs,
        vec![log1(bob(), 0x11), succeeded_log(0), failed_log(1)]
    );
}

#[test]
fn batch_all_incomplete() {
    let (outcome, _engine) = batch_incomplete(Mode::BatchAll);
    assert_eq!(outcome, Outcome::Revert(b"Revert message".to_vec()));
}

/// A toy ledger playing the host for the transfer scenarios: a sub-call
/// moves the value if the balance suffices, fails with an error otherwise,
/// and the revert contract address always reverts.
struct Ledger {
    accounts: Vec<(Address, u128)>,
}

impl Ledger {
    fn new(init: Vec<(Address, u128)>) -> Ledger {
        Ledger { accounts: init }
    }

    fn balance(&self, a: &Address) -> u128 {
        for (acc, v) in &self.accounts {
            if acc == a {
                return *v;
            }
        }
        0
    }

    fn set(&mut self, a: &Address, v: u128) {
        for entry in &mut self.accounts {
            if entry.0 == *a {
                entry.1 = v;
                return;
            }
        }
        self.accounts.push((a.clone(), v));
    }

    fn subcall(&mut self, sc: &Subcall) -> SubcallResult {
        if sc.target == revert_addr() {
            return SubcallResult {
                reason: SubcallReason::Reverted,
                output: b"reverted".to_vec(),
                cost: 0,
                logs: vec![],
            };
        }
        if sc.transfer {
            let v = word_value(&sc.value);
            let from = self.balance(&sc.context_caller);
            if from < v {
                return SubcallResult {
                    reason: SubcallReason::OtherError,
                    output: vec![],
                    cost: 0,
                    logs: vec![],
                };
            }
            let to = self.balance(&sc.target);
            self.set(&sc.context_caller, from - v);
            self.set(&sc.target, to + v);
        }
        SubcallResult {
            reason: SubcallReason::Succeeded,
            output: vec![],
            cost: 0,
            logs: vec![],
        }
    }
}

/// Runs the batch against the ledger, rolling every balance change back
/// when the outcome is a revert or an error, as the host's call frame
/// would.
fn run_ledger(mode: Mode, input: &BatchInput, ledger: &mut Ledger) -> Outcome {
    let snapshot = ledger.accounts.clone();
    let (outcome, _engine) = run(mode, alice(), u64::MAX, input, |sc| ledger.subcall(sc));
    if !matches!(outcome, Outcome::Success) {
        ledger.accounts = snapshot;
    }
    outcome
}

#[test]
fn evm_batch_some_transfers_enough() {
    let mut ledger = Ledger::new(vec![(alice(), 10_000)]);
    let input = batch_input(vec![bob(), charlie()], vec![1_000, 2_000], vec![], true);
    let outcome = run_ledger(Mode::BatchSome, &input, &mut ledger);
    assert_eq!(outcome, Outcome::Success);
}

#[test]
fn evm_batch_some_until_failure_transfers_enough() {
    let mut ledger = Ledger::new(vec![(alice(), 10_000)]);
    let input = batch_input(vec![bob(), charlie()], vec![1_000, 2_000], vec![], true);
    let outcome = run_ledger(Mode::BatchSomeUntilFailure, &input, &mut ledger);
    assert_eq!(outcome, Outcome::Success);
}

#[test]
fn evm_batch_all_transfers_enough() {
    let mut ledger = Ledger::new(vec![(alice(), 10_000)]);
    let input = batch_input(vec![bob(), charlie()], vec![1_000, 2_000], vec![], true);
    let outcome = run_ledger(Mode::BatchAll, &input, &mut ledger);
    assert_eq!(outcome, Outcome::Success);
    assert_eq!(ledger.balance(&bob()), 1_000);
    assert_eq!(ledger.balance(&charlie()), 2_000);
}

#[test]
fn evm_batch_some_transfers_too_much() {
    let mut ledger = Ledger::new(vec![(alice(), 10_000)]);
    let input = batch_input(
        vec![bob(), charlie(), david()],
        vec![9_000, 2_000, 500],
        vec![],
        true,
    );
    let outcome = run_ledger(Mode::BatchSome, &input, &mut ledger);
    assert_eq!(outcome, Outcome::Success);
    // Since the transfer to Charlie fails because there are not enough
    // funds, it is an error and no transfer is attempted to David, even
    // though there would be enough funds for it.
    assert_eq!(ledger.balance(&alice()), 1_000);
    assert_eq!(ledger.balance(&bob()), 9_000);
    assert_eq!(ledger.balance(&charlie()), 0);
    assert_eq!(ledger.balance(&david()), 0);
}

#[test]
fn evm_batch_some_until_failure_transfers_too_much() {
    let mut ledger = Ledger::new(vec![(alice(), 10_000)]);
    let input = batch_input(
        vec![bob(), charlie(), david()],
        vec![9_000, 2_000, 500],
        vec![],
        true,
    );
    let outcome = run_ledger(Mode::BatchSomeUntilFailure, &input, &mut ledger);
    assert_eq!(outcome, Outcome::Success);
    assert_eq!(ledger.balance(&alice()), 1_000);
    assert_eq!(ledger.balance(&bob()), 9_000);
    assert_eq!(ledger.balance(&charlie()), 0);
    assert_eq!(ledger.balance(&david()), 0);
}

#[test]
fn evm_batch_all_transfers_too_much() {
    let mut ledger = Ledger::new(vec![(alice(), 10_000)]);
    let input = batch_input(
        vec![bob(), charlie(), david()],
        vec![9_000, 2_000, 500],
        vec![],
        true,
    );
    let outcome = run_ledger(Mode::BatchAll, &input, &mut ledger);
    assert!(matches!(outcome, Outcome::Revert(_)));
    assert_eq!(ledger.balance(&alice()), 10_000);
    assert_eq!(ledger.balance(&bob()), 0);
    assert_eq!(ledger.balance(&charlie()), 0);
    assert_eq!(ledger.balance(&david()), 0);
}

#[test]
fn evm_batch_some_contract_revert() {
    let mut ledger = Ledger::new(vec![(alice(), 10_000)]);
    let input = batch_input(
        vec![bob(), revert_addr(), david()],
        vec![1_000, 2_000, 3_000],
        vec![],
        true,
    );
    let outcome = run_ledger(Mode::BatchSome, &input, &mut ledger);
    assert_eq!(outcome, Outcome::Success);
    assert_eq!(ledger.balance(&alice()), 6_000);
    assert_eq!(ledger.balance(&bob()), 1_000);
    assert_eq!(ledger.balance(&revert_addr()), 0);
    assert_eq!(ledger.balance(&david()), 3_000);
}

#[test]
fn evm_batch_some_until_failure_contract_revert() {
    let mut ledger = Ledger::new(vec![(alice(), 10_000)]);
    let input = batch_input(
        vec![bob(), revert_addr(), david()],
        vec![1_000, 2_000, 3_000],
        vec![],
        true,
    );
    let outcome = run_ledger(Mode::BatchSomeUntilFailure, &input, &mut ledger);
    assert_eq!(outcome, Outcome::Success);
    assert_eq!(ledger.balance(&alice()), 9_000);
    assert_eq!(ledger.balance(&bob()), 1_000);
    assert_eq!(ledger.balance(&revert_addr()), 0);
    assert_eq!(ledger.balance(&david()), 0);
}

#[test]
fn evm_batch_all_contract_revert() {
    let mut ledger = Ledger::new(vec![(alice(), 10_000)]);
    let input = batch_input(
        vec![bob(), revert_addr(), david()],
        vec![1_000, 2_000, 3_000],
        vec![],
        true,
    );
    let outcome = run_ledger(Mode::BatchAll, &input, &mut ledger);
    assert_eq!(outcome, Outcome::Revert(b"reverted".to_vec()));
    assert_eq!(ledger.balance(&alice()), 10_000);
    assert_eq!(ledger.balance(&bob()), 0);
    assert_eq!(ledger.balance(&revert_addr()), 0);
    assert_eq!(ledger.balance(&david()), 0);
}

#[test]
fn codec_round_trip_concrete() {
    let input = batch_input(
        vec![bob(), charlie()],
        vec![7, 0x1_0000_0001],
        vec![b"hello world, this is longer than one slot yes it is".to_vec(), vec![]],
        true,
    );
    let data = encode_call(Mode::BatchSomeUntilFailure, &input);
    let (mode, decoded) = decode_call(&data).unwrap();
    assert_eq!(mode, Mode::BatchSomeUntilFailure);
    assert_eq!(decoded, input);
}

#[test]
fn codec_empty_batch_layout() {
    let input = batch_input(vec![], vec![], vec![], false);
    let data = encode_call(Mode::BatchSome, &input);
    // selector, four head words, three empty-array length words
    assert_eq!(data.len(), 4 + 4 * 32 + 3 * 32);
    assert_eq!(&data[0..4], &[0x3d, 0x66, 0x21, 0x52]);
    // offset of targets: 0x80
    assert_eq!(data[4 + 31], 0x80);
    // offset of values: 0xa0 (just past the one length word)
    assert_eq!(data[4 + 63], 0xa0);
    // offset of calldatas: 0xc0
    assert_eq!(data[4 + 95], 0xc0);
    let (mode, decoded) = decode_call(&data).unwrap();
    assert_eq!(mode, Mode::BatchSome);
    assert_eq!(decoded, input);
}

#[test]
fn decode_rejects_unknown_selector() {
    assert_eq!(decode_call(&vec![]), Err(DecodeError::UnknownSelector));
    assert_eq!(
        decode_call(&vec![0x01, 0x02, 0x03, 0x04]),
        Err(DecodeError::UnknownSelector)
    );
}

#[test]
fn decode_rejects_truncated_arguments() {
    // a valid selector followed by too few argument bytes
    let mut data = vec![0x9c, 0xb8, 0x9a, 0xf4];
    data.extend(vec![0u8; 64]);
    assert_eq!(decode_call(&data), Err(DecodeError::AbiDecode));
}

#[test]
fn decode_rejects_out_of_bounds_offset() {
    let input = batch_input(vec![bob()], vec![1], vec![], false);
    let mut data = encode_call(Mode::BatchSome, &input);
    // point the targets offset far past the end
    data[4 + 30] = 0xff;
    assert_eq!(decode_call(&data), Err(DecodeError::AbiDecode));
}

#[test]
fn status_log_shape() {
    let l = succeeded_log(3);
    assert_eq!(l.address, precompile_addr());
    assert_eq!(l.topics.len(), 1);
    assert_eq!(l.topics[0].bytes, TOPIC_SUBCALL_SUCCEEDED.to_vec());
    let mut expected_data = vec![0u8; 32];
    expected_data[31] = 3;
    assert_eq!(l.data, expected_data);
    let f = failed_log(7);
    assert_eq!(f.topics[0].bytes, TOPIC_SUBCALL_FAILED.to_vec());
}

#[test]
fn log_costs_formula() {
    // one topic and a 32-byte payload: 375 + 375 + 8 * 32
    assert_eq!(log_costs(1, 32), Some(1_006));
    assert_eq!(STATUS_LOG_COST, 1_006);
    assert_eq!(GAS_RESERVE, 1_007);
    assert_eq!(log_costs(0, 0), Some(375));
    assert_eq!(log_costs(u64::MAX, 1), None);
}

#[test]
fn gas_reserve_too_small_stops_tolerant_modes() {
    let input = batch_input(vec![bob()], vec![1], vec![], true);
    let (outcome, engine) = run(Mode::BatchSome, alice(), GAS_RESERVE - 1, &input, |_sc| {
        panic!("there should be no subcall")
    });
    assert_eq!(outcome, Outcome::Success);
    assert!(engine.logs.is_empty());
}

#[test]
fn gas_reserve_too_small_fails_batch_all() {
    let input = batch_input(vec![bob()], vec![1], vec![], true);
    let (outcome, _engine) = run(Mode::BatchAll, alice(), GAS_RESERVE - 1, &input, |_sc| {
        panic!("there should be no subcall")
    });
    assert_eq!(outcome, Outcome::OutOfGas);
}

#[test]
fn batch_all_other_error_reverts_empty() {
    let input = batch_input(vec![bob()], vec![1], vec![], true);
    let (outcome, engine) = run(Mode::BatchAll, alice(), 100_000, &input, |_sc| SubcallResult {
        reason: SubcallReason::OtherError,
        output: b"ignored".to_vec(),
        cost: 5,
        logs: vec![],
    });
    assert_eq!(outcome, Outcome::Revert(vec![]));
    assert!(engine.logs.is_empty());
    assert_eq!(engine.total_cost, 5);
}

#[test]
fn cost_accounting_includes_status_logs() {
    let input = batch_input(vec![bob(), charlie()], vec![0, 0], vec![], true);
    let (outcome, engine) = run(Mode::BatchSome, alice(), 100_000, &input, |_sc| SubcallResult {
        reason: SubcallReason::Succeeded,
        output: vec![],
        cost: 21,
        logs: vec![],
    });
    assert_eq!(outcome, Outcome::Success);
    assert_eq!(engine.total_cost, 21 * 2 + STATUS_LOG_COST * 2);
    assert_eq!(engine.remaining_gas, 100_000 - engine.total_cost);
}

#[test]
fn excess_values_and_calldatas_are_ignored() {
    // more values and calldatas than targets: iteration is bounded by the
    // targets, the excess entries have no effect
    let input = batch_input(
        vec![bob()],
        vec![5, 1_000_000],
        vec![b"x".to_vec(), b"ignored".to_vec(), b"also ignored".to_vec()],
        false,
    );
    let mut calls = 0u32;
    let (outcome, engine) = run(Mode::BatchAll, alice(), 100_000, &input, |sc| {
        calls += 1;
        assert_eq!(sc.target, bob());
        assert_eq!(word_value(&sc.value), 5);
        assert_eq!(sc.input, b"x".to_vec());
        SubcallResult {
            reason: SubcallReason::Succeeded,
            output: vec![],
            cost: 1,
            logs: vec![],
        }
    });
    assert_eq!(calls, 1);
    assert_eq!(outcome, Outcome::Success);
    assert_eq!(engine.logs, vec![succeeded_log(0)]);
}

#[test]
fn decode_ignores_address_padding_bytes() {
    // the twelve high bytes of an address slot carry no information; a
    // non-zero byte there does not change the decoded address
    let input = batch_input(vec![bob()], vec![], vec![], false);
    let mut data = encode_call(Mode::BatchSome, &input);
    // the targets tail starts at argument offset 0x80: length word, then
    // the padded address slot
    let slot_start = 4 + 0x80 + 32;
    data[slot_start] = 0x77;
    let (_, decoded) = decode_call(&data).unwrap();
    assert_eq!(decoded.targets, vec![bob()]);
}
