//! The iteration engine.
//!
//! The engine is a state machine: `start` decodes nothing and performs no
//! call itself; it hands back an [`Action`], either a sub-call the host must
//! perform or the final outcome.  The driver performs each requested
//! sub-call and `feed`s the result back, receiving the next action, until
//! the engine reports [`Action::Done`].
//!
//! Nothing but the sub-call index and the gas residual is shared between
//! iterations; balances, storage and the persisted log stream belong to the
//! host.

use vstd::prelude::*;
use crate::abi::{decode_call, model_of, spec_decode, DecodeError};
use crate::types::{
    Action, Address, BatchInput, Log, Mode, Outcome, Subcall, SubcallReason, SubcallResult, Word,
    copy_bytes, is_status_log, status_log, GAS_RESERVE, STATUS_LOG_COST,
};

verus! {

/// Sum of the recorded sub-call costs.
pub open spec fn sum_costs(s: Seq<u64>) -> int
    decreases s.len(),
{
    if s.len() == 0 {
        0
    } else {
        sum_costs(s.drop_last()) + s.last()
    }
}

pub proof fn lemma_sum_push(s: Seq<u64>, x: u64)
    ensures
        sum_costs(s.push(x)) == sum_costs(s) + x,
{
    assert(s.push(x).drop_last() =~= s);
}

/// Whether the engine emits a status log after a sub-call that ended with
/// `reason`: always, except that `BatchAll` aborts on failure without one.
pub open spec fn emits_status(mode: Mode, reason: SubcallReason) -> bool {
    !(mode == Mode::BatchAll && reason != SubcallReason::Succeeded)
}

/// Whether iteration proceeds to the next index after `reason`: on success
/// in every mode, and on a revert under `BatchSome`.
pub open spec fn continues(mode: Mode, reason: SubcallReason) -> bool {
    ||| reason == SubcallReason::Succeeded
    ||| (mode == Mode::BatchSome && reason == SubcallReason::Reverted)
}

/// The outcome `BatchAll` aborts with: the sub-call's revert payload
/// verbatim, a top-level out-of-gas, or an empty revert for other errors.
pub open spec fn abort_outcome_ok(o: Outcome, reason: SubcallReason, output: Seq<u8>) -> bool {
    match reason {
        SubcallReason::Succeeded => false,
        SubcallReason::Reverted => o matches Outcome::Revert(b) && b@ == output,
        SubcallReason::OutOfGas => o == Outcome::OutOfGas,
        SubcallReason::OtherError => o matches Outcome::Revert(b) && b@ == Seq::<u8>::empty(),
    }
}

/// The dispatch engine of one batch invocation.
pub struct Engine {
    pub mode: Mode,
    /// The original caller of the batch contract.
    pub caller: Address,
    /// The batch contract's own address; status logs are emitted from it.
    pub precompile: Address,
    pub input: BatchInput,
    /// The next sub-call index.
    pub index: usize,
    pub initial_gas: u64,
    pub remaining_gas: u64,
    /// Gas charged so far: sub-call costs plus one status-log cost per
    /// status log.
    pub total_cost: u64,
    /// The aggregate log stream: each sub-call's logs, followed by its
    /// status log.
    pub logs: Vec<Log>,
    /// A sub-call was issued and its result is awaited.
    pub pending: bool,
    pub finished: bool,
    /// The status logs emitted so far, as (sub-call index, success) pairs.
    pub statuses: Ghost<Seq<(int, bool)>>,
    /// The reported cost of each completed sub-call.
    pub subcall_costs: Ghost<Seq<u64>>,
}

impl Engine {
    pub open spec fn n_calls(self) -> int {
        self.input.targets@.len() as int
    }

    /// The engine's invariant.  Beside bookkeeping it carries the
    /// externally visible guarantees: status logs are emitted in strict
    /// index order, at most one per attempted sub-call; the reported cost
    /// is the sum of sub-call costs plus one status-log cost per status
    /// log; under `BatchAll` every status log records a success; under
    /// `BatchSomeUntilFailure` only the last status log may record a
    /// failure.
    pub open spec fn wf(self) -> bool {
        &&& self.input.wf()
        &&& self.index <= self.n_calls()
        &&& self.subcall_costs@.len() == self.index
        &&& self.statuses@.len() <= self.index
        &&& (forall|j: int|
            0 <= j < self.statuses@.len() ==> (#[trigger] self.statuses@[j]).0 == j)
        &&& self.total_cost == sum_costs(self.subcall_costs@) + self.statuses@.len() * (
        STATUS_LOG_COST as int)
        &&& self.total_cost <= self.initial_gas
        &&& self.remaining_gas == self.initial_gas - self.total_cost
        &&& !(self.pending && self.finished)
        &&& (self.pending ==> self.index < self.n_calls() && self.remaining_gas >= GAS_RESERVE)
        &&& (!self.finished ==> self.statuses@.len() == self.index)
        &&& (self.mode == Mode::BatchAll ==> forall|j: int|
            0 <= j < self.statuses@.len() ==> (#[trigger] self.statuses@[j]).1)
        &&& (self.mode == Mode::BatchSomeUntilFailure ==> forall|j: int|
            0 <= j < self.statuses@.len() - 1 ==> (#[trigger] self.statuses@[j]).1)
        &&& (self.mode == Mode::BatchSomeUntilFailure && !self.finished ==> forall|j: int|
            0 <= j < self.statuses@.len() ==> (#[trigger] self.statuses@[j]).1)
    }

    /// What a sub-call request issued in state `e` must hold: the target
    /// and calldata of the current index (an absent value reads as zero, an
    /// absent calldata as empty), the original caller as `msg.sender`, and
    /// all remaining gas except the reserve.
    pub open spec fn subcall_ok(e: Engine, sc: Subcall) -> bool {
        &&& sc.target.bytes@ == e.input.targets@[e.index as int].bytes@
        &&& sc.context_address.bytes@ == sc.target.bytes@
        &&& sc.context_caller.bytes@ == e.caller.bytes@
        &&& !sc.is_static
        &&& sc.gas_limit == e.remaining_gas - GAS_RESERVE
        &&& sc.value.wf()
        &&& (if (e.index as int) < e.input.values@.len() {
            sc.value.bytes@ == e.input.values@[e.index as int].bytes@
        } else {
            sc.value.spec_is_zero()
        })
        &&& sc.apparent_value.bytes@ == sc.value.bytes@
        &&& sc.transfer == !sc.value.spec_is_zero()
        &&& sc.input@ == (if (e.index as int) < e.input.calldatas@.len() {
            e.input.calldatas@[e.index as int]@
        } else {
            Seq::<u8>::empty()
        })
    }

    /// The decision taken between iterations, evaluated on the state `e`
    /// left behind: completion returns success; an exhausted gas reserve
    /// stops tolerant modes with success and `BatchAll` with out-of-gas;
    /// otherwise the next sub-call is issued.
    pub open spec fn next_decision(e: Engine, a: Action) -> bool {
        if e.index >= e.n_calls() {
            &&& e.finished
            &&& !e.pending
            &&& e.statuses@.len() == e.index
            &&& a == Action::Done(Outcome::Success)
        } else if e.remaining_gas < GAS_RESERVE {
            &&& e.finished
            &&& !e.pending
            &&& e.statuses@.len() == e.index
            &&& a == Action::Done(
                if e.mode == Mode::BatchAll {
                    Outcome::OutOfGas
                } else {
                    Outcome::Success
                },
            )
        } else {
            &&& !e.finished
            &&& e.pending
            &&& a matches Action::Call(sc) && Self::subcall_ok(e, sc)
        }
    }

    /// Decides what to do at the head of an iteration and, when there is
    /// gas and an index left, issues the sub-call.
    fn advance(&mut self) -> (a: Action)
        requires
            old(self).wf(),
            !old(self).pending,
            !old(self).finished,
        ensures
            final(self).wf(),
            final(self).mode == old(self).mode,
            final(self).caller == old(self).caller,
            final(self).precompile == old(self).precompile,
            final(self).input == old(self).input,
            final(self).index == old(self).index,
            final(self).initial_gas == old(self).initial_gas,
            final(self).remaining_gas == old(self).remaining_gas,
            final(self).total_cost == old(self).total_cost,
            final(self).logs == old(self).logs,
            final(self).statuses == old(self).statuses,
            final(self).subcall_costs == old(self).subcall_costs,
            Self::next_decision(*final(self), a),
    {
        if self.index >= self.input.targets.len() {
            self.finished = true;
            return Action::Done(Outcome::Success);
        }
        if self.remaining_gas < GAS_RESERVE {
            self.finished = true;
            if self.mode == Mode::BatchAll {
                return Action::Done(Outcome::OutOfGas);
            } else {
                return Action::Done(Outcome::Success);
            }
        }
        let i = self.index;
        let target = self.input.targets[i].dup();
        let value = if i < self.input.values.len() {
            self.input.values[i].dup()
        } else {
            Word::zero()
        };
        let input = if i < self.input.calldatas.len() {
            copy_bytes(&self.input.calldatas[i])
        } else {
            Vec::new()
        };
        let transfer = !value.is_zero();
        let context_address = target.dup();
        let apparent_value = value.dup();
        let sc = Subcall {
            target,
            transfer,
            value,
            input,
            gas_limit: self.remaining_gas - GAS_RESERVE,
            is_static: false,
            context_caller: self.caller.dup(),
            context_address,
            apparent_value,
        };
        self.pending = true;
        Action::Call(sc)
    }

    /// Sets up the engine for a decoded batch call and decides the first
    /// action.  If the returned action is a sub-call, it observes the
    /// original `caller` as `msg.sender` and is forwarded all of
    /// `gas_limit` except the status-log reserve.
    pub fn start(mode: Mode, caller: Address, precompile: Address, input: BatchInput,
        gas_limit: u64) -> (r: (Engine, Action))
        requires
            input.wf(),
        ensures
            r.0.wf(),
            r.0.mode == mode,
            r.0.caller == caller,
            r.0.precompile == precompile,
            r.0.input == input,
            r.0.index == 0,
            r.0.initial_gas == gas_limit,
            r.0.remaining_gas == gas_limit,
            r.0.total_cost == 0,
            r.0.logs@ == Seq::<Log>::empty(),
            r.0.statuses@ == Seq::<(int, bool)>::empty(),
            r.0.subcall_costs@ == Seq::<u64>::empty(),
            Self::next_decision(r.0, r.1),
    {
        let mut e = Engine {
            mode,
            caller,
            precompile,
            input,
            index: 0,
            initial_gas: gas_limit,
            remaining_gas: gas_limit,
            total_cost: 0,
            logs: Vec::new(),
            pending: false,
            finished: false,
            statuses: Ghost(Seq::empty()),
            subcall_costs: Ghost(Seq::empty()),
        };
        let a = e.advance();
        (e, a)
    }

    /// Observes the result of the pending sub-call and decides the next
    /// action.
    ///
    /// The sub-call's cost is charged, its logs join the aggregate stream
    /// and, unless `BatchAll` is aborting, exactly one status log follows
    /// them, charged at the static status-log cost.  The reserve guarantees
    /// the log can be afforded even when the sub-call consumed every
    /// forwarded unit.  A host honouring the sub-call's `gas_limit` reports
    /// a cost no larger than it, which is what the `cost` bound below asks.
    pub fn feed(&mut self, r: SubcallResult) -> (a: Action)
        requires
            old(self).wf(),
            old(self).pending,
            r.cost <= old(self).remaining_gas - GAS_RESERVE,
        ensures
            final(self).wf(),
            final(self).mode == old(self).mode,
            final(self).caller == old(self).caller,
            final(self).precompile == old(self).precompile,
            final(self).input == old(self).input,
            final(self).initial_gas == old(self).initial_gas,
            final(self).index == old(self).index + 1,
            final(self).subcall_costs@ == old(self).subcall_costs@.push(r.cost),
            // status-log emission
            emits_status(old(self).mode, r.reason) ==> {
                &&& final(self).statuses@ == old(self).statuses@.push(
                    (old(self).index as int, r.reason == SubcallReason::Succeeded),
                )
                &&& final(self).total_cost == old(self).total_cost + r.cost + STATUS_LOG_COST
                &&& final(self).remaining_gas == old(self).remaining_gas - r.cost
                    - STATUS_LOG_COST
                &&& final(self).logs@.len() == old(self).logs@.len() + r.logs@.len() + 1
                &&& final(self).logs@.subrange(0, old(self).logs@.len() as int) == old(
                    self,
                ).logs@
                &&& final(self).logs@.subrange(
                    old(self).logs@.len() as int,
                    (old(self).logs@.len() + r.logs@.len()) as int,
                ) == r.logs@
                &&& is_status_log(
                    final(self).logs@.last(),
                    old(self).precompile,
                    old(self).index as u64,
                    r.reason == SubcallReason::Succeeded,
                )
            },
            !emits_status(old(self).mode, r.reason) ==> {
                &&& final(self).statuses@ == old(self).statuses@
                &&& final(self).total_cost == old(self).total_cost + r.cost
                &&& final(self).remaining_gas == old(self).remaining_gas - r.cost
                &&& final(self).logs@ == old(self).logs@ + r.logs@
            },
            // continuation
            continues(old(self).mode, r.reason) ==> Self::next_decision(*final(self), a),
            !continues(old(self).mode, r.reason) && emits_status(old(self).mode, r.reason)
                ==> {
                &&& final(self).finished
                &&& !final(self).pending
                &&& a == Action::Done(Outcome::Success)
            },
            !emits_status(old(self).mode, r.reason) ==> {
                &&& final(self).finished
                &&& !final(self).pending
                &&& a matches Action::Done(o) && abort_outcome_ok(o, r.reason, r.output@)
            },
    {
        let SubcallResult { reason, output, cost, logs } = r;
        let mut logs = logs;
        let i = self.index;
        let n = self.input.targets.len();
        assert(i < n);
        self.index = i + 1;
        self.remaining_gas = self.remaining_gas - cost;
        self.total_cost = self.total_cost + cost;
        proof {
            lemma_sum_push(self.subcall_costs@, cost);
        }
        self.subcall_costs = Ghost(self.subcall_costs@.push(cost));
        self.pending = false;
        self.logs.append(&mut logs);
        let success = reason == SubcallReason::Succeeded;
        let emits = !(self.mode == Mode::BatchAll && !success);
        if emits {
            self.remaining_gas = self.remaining_gas - STATUS_LOG_COST;
            self.total_cost = self.total_cost + STATUS_LOG_COST;
            let l = status_log(&self.precompile, i as u64, success);
            self.logs.push(l);
            self.statuses = Ghost(self.statuses@.push((i as int, success)));
            proof {
                let k = old(self).statuses@.len() as int;
                assert((k + 1) * (STATUS_LOG_COST as int) == k * (STATUS_LOG_COST as int)
                    + (STATUS_LOG_COST as int)) by (nonlinear_arith);
            }
        }
        let cont = success || (self.mode == Mode::BatchSome && reason
            == SubcallReason::Reverted);
        if cont {
            self.advance()
        } else if emits {
            self.finished = true;
            Action::Done(Outcome::Success)
        } else {
            self.finished = true;
            match reason {
                SubcallReason::Reverted => Action::Done(Outcome::Revert(output)),
                SubcallReason::OutOfGas => Action::Done(Outcome::OutOfGas),
                _ => Action::Done(Outcome::Revert(Vec::new())),
            }
        }
    }
}

/// No more status logs are emitted than sub-calls were attempted, and never
/// more than there are targets.
pub proof fn lemma_status_count(e: Engine)
    requires
        e.wf(),
    ensures
        e.statuses@.len() <= e.subcall_costs@.len(),
        e.subcall_costs@.len() <= e.input.targets@.len(),
{
}

/// The cost the engine reports is the sum of the sub-call costs plus one
/// status-log cost per emitted status log, and together with the remaining
/// gas accounts exactly for the initial gas.
pub proof fn lemma_cost_accounting(e: Engine)
    requires
        e.wf(),
    ensures
        e.total_cost == sum_costs(e.subcall_costs@) + e.statuses@.len() * (STATUS_LOG_COST
            as int),
        e.initial_gas == e.remaining_gas + e.total_cost,
{
}

/// Under `BatchAll` every status log records a success at its own index; a
/// batch that logged one status per target therefore logged
/// `SubcallSucceeded(i)` for every `i` and no failure.
pub proof fn lemma_batch_all_success(e: Engine)
    requires
        e.wf(),
        e.mode == Mode::BatchAll,
    ensures
        forall|j: int|
            0 <= j < e.statuses@.len() ==> (#[trigger] e.statuses@[j]) == (j, true),
{
}

/// Under `BatchSomeUntilFailure` the status logs are a prefix of successes,
/// in strict index order, possibly terminated by a single failure.
pub proof fn lemma_until_failure_prefix(e: Engine)
    requires
        e.wf(),
        e.mode == Mode::BatchSomeUntilFailure,
    ensures
        forall|j: int|
            0 <= j < e.statuses@.len() ==> (#[trigger] e.statuses@[j]).0 == j,
        forall|j: int| 0 <= j < e.statuses@.len() - 1 ==> (#[trigger] e.statuses@[j]).1,
{
}

/// Entry point of one batch invocation: dispatches on the selector,
/// decodes the argument tuple, and starts the engine with the original
/// caller and all of `gas_limit`.  Exactly the calldata that decodes is
/// accepted; the caller answers a decoding failure with a top-level
/// revert.
pub fn dispatch(calldata: &Vec<u8>, caller: Address, precompile: Address, gas_limit: u64) -> (r:
    Result<(Engine, Action), DecodeError>)
    ensures
        match r {
            Ok(p) => {
                &&& spec_decode(calldata@) == Some((p.0.mode, model_of(p.0.input)))
                &&& p.0.wf()
                &&& p.0.caller == caller
                &&& p.0.precompile == precompile
                &&& p.0.index == 0
                &&& p.0.initial_gas == gas_limit
                &&& p.0.remaining_gas == gas_limit
                &&& p.0.total_cost == 0
                &&& p.0.logs@ == Seq::<Log>::empty()
                &&& p.0.statuses@ == Seq::<(int, bool)>::empty()
                &&& Engine::next_decision(p.0, p.1)
            },
            Err(e) => {
                &&& spec_decode(calldata@) is None
                &&& (e == DecodeError::UnknownSelector <==> (calldata@.len() < 4
                    || crate::abi::mode_of_selector(calldata@.subrange(0, 4)) is None))
            },
        },
{
    match decode_call(calldata) {
        Ok((mode, input)) => Ok(Engine::start(mode, caller, precompile, input, gas_limit)),
        Err(e) => Err(e),
    }
}

} // verus!
