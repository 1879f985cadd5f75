//! The data the batch engine works on: addresses, 256-bit words, the three
//! batch modes, sub-call requests and results, logs, and gas costs.

use vstd::prelude::*;

verus! {

/// A 20-byte account address.
#[derive(Clone, PartialEq, Eq, Debug)]
pub struct Address {
    pub bytes: Vec<u8>,
}

impl Address {
    pub open spec fn wf(self) -> bool {
        self.bytes@.len() == 20
    }

    pub fn dup(&self) -> (r: Address)
        ensures
            r.bytes@ == self.bytes@,
    {
        Address { bytes: copy_bytes(&self.bytes) }
    }
}

/// A 256-bit EVM word stored as big-endian bytes; used for transfer values
/// and log topics.
#[derive(Clone, PartialEq, Eq, Debug)]
pub struct Word {
    pub bytes: Vec<u8>,
}

impl Word {
    pub open spec fn wf(self) -> bool {
        self.bytes@.len() == 32
    }

    pub open spec fn spec_is_zero(self) -> bool {
        forall|i: int| 0 <= i < self.bytes@.len() ==> self.bytes@[i] == 0
    }

    /// The all-zero word.
    pub fn zero() -> (r: Word)
        ensures
            r.wf(),
            r.spec_is_zero(),
    {
        let mut bytes: Vec<u8> = Vec::new();
        let mut i: usize = 0;
        while i < 32
            invariant
                i <= 32,
                bytes@.len() == i,
                forall|j: int| 0 <= j < i ==> bytes@[j] == 0,
            decreases 32 - i,
        {
            bytes.push(0);
            i += 1;
        }
        Word { bytes }
    }

    pub fn is_zero(&self) -> (r: bool)
        ensures
            r == self.spec_is_zero(),
    {
        let mut i: usize = 0;
        while i < self.bytes.len()
            invariant
                i <= self.bytes@.len(),
                forall|j: int| 0 <= j < i ==> self.bytes@[j] == 0,
            decreases self.bytes@.len() - i,
        {
            if self.bytes[i] != 0 {
                return false;
            }
            i += 1;
        }
        true
    }

    pub fn dup(&self) -> (r: Word)
        ensures
            r.bytes@ == self.bytes@,
    {
        Word { bytes: copy_bytes(&self.bytes) }
    }
}

/// Copies a byte vector.
pub fn copy_bytes(src: &Vec<u8>) -> (r: Vec<u8>)
    ensures
        r@ == src@,
{
    let mut r: Vec<u8> = Vec::new();
    let mut i: usize = 0;
    while i < src.len()
        invariant
            i <= src@.len(),
            r@ == src@.subrange(0, i as int),
        decreases src@.len() - i,
    {
        r.push(src[i]);
        proof {
            assert(r@ =~= src@.subrange(0, i + 1));
        }
        i += 1;
    }
    proof {
        assert(r@ =~= src@);
    }
    r
}

/// The three failure-aggregation modes of the batch contract.
#[derive(Clone, Copy, PartialEq, Eq, Structural, Debug)]
pub enum Mode {
    /// Log each failure and keep iterating.
    BatchSome,
    /// Log the first failure, then stop and return success.
    BatchSomeUntilFailure,
    /// Revert the whole batch on the first failure.
    BatchAll,
}

/// Four-byte function selector of `BatchSome`.
pub const SELECTOR_BATCH_SOME: u32 = 0x3d662152;

/// Four-byte function selector of `BatchSomeUntilFailure`.
pub const SELECTOR_BATCH_SOME_UNTIL_FAILURE: u32 = 0x310a0280;

/// Four-byte function selector of `BatchAll`.
pub const SELECTOR_BATCH_ALL: u32 = 0x9cb89af4;

impl Mode {
    /// The four-byte selector that invokes this mode.
    pub fn selector(self) -> (r: u32)
        ensures
            r == self.spec_selector(),
    {
        match self {
            Mode::BatchSome => SELECTOR_BATCH_SOME,
            Mode::BatchSomeUntilFailure => SELECTOR_BATCH_SOME_UNTIL_FAILURE,
            Mode::BatchAll => SELECTOR_BATCH_ALL,
        }
    }

    pub open spec fn spec_selector(self) -> u32 {
        match self {
            Mode::BatchSome => SELECTOR_BATCH_SOME,
            Mode::BatchSomeUntilFailure => SELECTOR_BATCH_SOME_UNTIL_FAILURE,
            Mode::BatchAll => SELECTOR_BATCH_ALL,
        }
    }
}

/// How a sub-call ended, as reported by the host.
#[derive(Clone, Copy, PartialEq, Eq, Structural, Debug)]
pub enum SubcallReason {
    /// The sub-call ran to completion.
    Succeeded,
    /// The sub-call reverted; its output is the revert payload.
    Reverted,
    /// The sub-call ran out of gas.
    OutOfGas,
    /// Any other host error (for instance an insufficient balance).
    OtherError,
}

/// The decoded argument record of a batch call.
///
/// The three vectors may have different lengths: the engine iterates over
/// `targets`, reading a zero value where `values` is shorter and empty
/// calldata where `calldatas` is shorter.  Entries of `values` or
/// `calldatas` beyond `targets` are ignored.
#[derive(Clone, PartialEq, Eq, Debug)]
pub struct BatchInput {
    pub targets: Vec<Address>,
    pub values: Vec<Word>,
    pub calldatas: Vec<Vec<u8>>,
    /// Trailing flag decoded for compatibility; it does not alter semantics.
    pub flag: bool,
}

impl BatchInput {
    pub open spec fn wf(self) -> bool {
        &&& forall|i: int| 0 <= i < self.targets@.len() ==> (#[trigger] self.targets@[i]).wf()
        &&& forall|i: int| 0 <= i < self.values@.len() ==> (#[trigger] self.values@[i]).wf()
    }
}

/// One log record.
#[derive(Clone, PartialEq, Eq, Debug)]
pub struct Log {
    pub address: Address,
    pub topics: Vec<Word>,
    pub data: Vec<u8>,
}

/// A sub-call the engine asks the host to perform.
#[derive(Clone, PartialEq, Eq, Debug)]
pub struct Subcall {
    pub target: Address,
    /// Whether a balance transfer of `value` from `context_caller` to
    /// `target` accompanies the call.
    pub transfer: bool,
    pub value: Word,
    pub input: Vec<u8>,
    pub gas_limit: u64,
    pub is_static: bool,
    /// The `msg.sender` the callee observes: the original caller of the
    /// batch contract, never the batch contract itself.
    pub context_caller: Address,
    pub context_address: Address,
    pub apparent_value: Word,
}

/// What the host reports back for one sub-call.
#[derive(Clone, PartialEq, Eq, Debug)]
pub struct SubcallResult {
    pub reason: SubcallReason,
    /// Return data, or the revert payload when `reason` is `Reverted`.
    pub output: Vec<u8>,
    /// Gas the sub-call consumed; at most the gas that was forwarded to it.
    pub cost: u64,
    /// Logs the sub-call emitted.
    pub logs: Vec<Log>,
}

/// The final outcome of a batch call.
#[derive(Clone, PartialEq, Eq, Debug)]
pub enum Outcome {
    /// Top-level success with empty return data.
    Success,
    /// Top-level revert carrying the given payload.
    Revert(Vec<u8>),
    /// Top-level out-of-gas error.
    OutOfGas,
}

/// What the engine wants next: either a sub-call the host must perform, or
/// the final outcome of the batch.
#[derive(Clone, PartialEq, Eq, Debug)]
pub enum Action {
    Call(Subcall),
    Done(Outcome),
}

/// Static base cost of a log record.
pub const LOG_COST_BASE: u64 = 375;

/// Static cost of each log topic.
pub const LOG_COST_PER_TOPIC: u64 = 375;

/// Static cost of each log data byte.
pub const LOG_COST_PER_BYTE: u64 = 8;

/// Static cost of one status log: one topic and a 32-byte index.
pub const STATUS_LOG_COST: u64 = LOG_COST_BASE + LOG_COST_PER_TOPIC + 32 * LOG_COST_PER_BYTE;

/// Gas withheld from each sub-call so that the engine can still emit its
/// status log afterwards; one extra unit as a safety margin.
pub const GAS_RESERVE: u64 = STATUS_LOG_COST + 1;

/// Static cost of a log with the given number of topics and data bytes, or
/// `None` when the sum overflows.
pub fn log_costs(topics: u64, data_len: u64) -> (r: Option<u64>)
    ensures
        match r {
            Some(c) => c == LOG_COST_BASE + topics * LOG_COST_PER_TOPIC + data_len
                * LOG_COST_PER_BYTE,
            None => LOG_COST_BASE + topics * LOG_COST_PER_TOPIC + data_len * LOG_COST_PER_BYTE
                > u64::MAX,
        },
{
    match topics.checked_mul(LOG_COST_PER_TOPIC) {
        Some(topic_cost) => match data_len.checked_mul(LOG_COST_PER_BYTE) {
            Some(data_cost) => match topic_cost.checked_add(data_cost) {
                Some(dynamic_cost) => dynamic_cost.checked_add(LOG_COST_BASE),
                None => None,
            },
            None => None,
        },
        None => None,
    }
}

/// Event topic of `SubcallSucceeded(uint256)`: the Keccak-256 digest of the
/// canonical signature.
pub const TOPIC_SUBCALL_SUCCEEDED: [u8; 32] = [0xbf, 0x85, 0x54, 0x84, 0x63, 0x39, 0x29, 0xc3,
    0xd6, 0x68, 0x8e, 0xb3, 0xca, 0xf8, 0xef, 0xf9, 0x10, 0xfb, 0x4b, 0xef, 0x03, 0x0a, 0x8d,
    0x7d, 0xbc, 0x93, 0x90, 0xd2, 0x67, 0x59, 0x71, 0x4d];

/// Event topic of `SubcallFailed(uint256)`: the Keccak-256 digest of the
/// canonical signature.
pub const TOPIC_SUBCALL_FAILED: [u8; 32] = [0xdb, 0xc5, 0xd0, 0x6f, 0x4f, 0x87, 0x7f, 0x95, 0x9b,
    0x1f, 0xf1, 0x2d, 0x21, 0x61, 0xcd, 0xd6, 0x93, 0xfa, 0x8e, 0x44, 0x2e, 0xe5, 0x3f, 0x17,
    0x90, 0xb2, 0x80, 0x4b, 0x24, 0x88, 0x1f, 0x05];

/// The 32-byte big-endian form of `n`.
pub open spec fn spec_word_of_u64(n: u64) -> Seq<u8> {
    Seq::new(32, |i: int| if i < 24 {
        0u8
    } else {
        (((n >> (((31 - i) * 8) as u64)) & 0xff) as u8)
    })
}

/// Builds the 32-byte big-endian form of `n`.
pub fn word_bytes_of_u64(n: u64) -> (r: Vec<u8>)
    ensures
        r@ == spec_word_of_u64(n),
        r@.len() == 32,
{
    let mut r: Vec<u8> = Vec::new();
    let mut i: usize = 0;
    while i < 24
        invariant
            i <= 24,
            r@.len() == i,
            forall|j: int| 0 <= j < i ==> r@[j] == spec_word_of_u64(n)[j],
        decreases 24 - i,
    {
        r.push(0);
        i += 1;
    }
    while i < 32
        invariant
            24 <= i <= 32,
            r@.len() == i,
            forall|j: int| 0 <= j < i ==> r@[j] == spec_word_of_u64(n)[j],
        decreases 32 - i,
    {
        let shift: u64 = ((31 - i) * 8) as u64;
        r.push(((n >> shift) & 0xff) as u8);
        i += 1;
    }
    proof {
        assert(r@ =~= spec_word_of_u64(n));
    }
    r
}

/// Whether `l` is the status log the batch contract at `precompile` emits
/// for sub-call `index`: a single event topic naming success or failure, and
/// the sub-call index as a 32-byte word of data.
pub open spec fn is_status_log(l: Log, precompile: Address, index: u64, success: bool) -> bool {
    &&& l.address.bytes@ == precompile.bytes@
    &&& l.topics@.len() == 1
    &&& l.topics@[0].bytes@ == (if success {
        TOPIC_SUBCALL_SUCCEEDED@
    } else {
        TOPIC_SUBCALL_FAILED@
    })
    &&& l.data@ == spec_word_of_u64(index)
}

/// Builds the status log for sub-call `index`.
pub fn status_log(precompile: &Address, index: u64, success: bool) -> (l: Log)
    ensures
        is_status_log(l, *precompile, index, success),
{
    let mut topic_bytes: Vec<u8> = Vec::new();
    let mut i: usize = 0;
    if success {
        while i < 32
            invariant
                i <= 32,
                topic_bytes@.len() == i,
                forall|j: int| 0 <= j < i ==> topic_bytes@[j] == TOPIC_SUBCALL_SUCCEEDED@[j],
            decreases 32 - i,
        {
            topic_bytes.push(TOPIC_SUBCALL_SUCCEEDED[i]);
            i += 1;
        }
        proof {
            assert(topic_bytes@ =~= TOPIC_SUBCALL_SUCCEEDED@);
        }
    } else {
        while i < 32
            invariant
                i <= 32,
                topic_bytes@.len() == i,
                forall|j: int| 0 <= j < i ==> topic_bytes@[j] == TOPIC_SUBCALL_FAILED@[j],
            decreases 32 - i,
        {
            topic_bytes.push(TOPIC_SUBCALL_FAILED[i]);
            i += 1;
        }
        proof {
            assert(topic_bytes@ =~= TOPIC_SUBCALL_FAILED@);
        }
    }
    let mut topics: Vec<Word> = Vec::new();
    topics.push(Word { bytes: topic_bytes });
    Log { address: precompile.dup(), topics, data: word_bytes_of_u64(index) }
}

} // verus!
