use vstd::prelude::*;

verus! {

/// Why an execution request was refused.
#[derive(Clone, Copy, Debug, PartialEq, Eq, Structural)]
pub enum ExecuteError {
    /// None of broadcast, dry run or store was asked for.
    NoAction,
    /// The finalize costs of the transitions overflow 64 bits.
    FinalizeCostOverflow,
    /// The public balance does not cover the base fee.
    InsufficientBalance,
}

/// The fees of an execution, in microcredits.
#[derive(Clone, Copy, Debug, PartialEq, Eq, Structural)]
pub struct ExecutionFees {
    /// The storage cost plus the priority fee, saturating.
    pub base_fee: u64,
    /// The sum of the transitions' finalize costs.
    pub finalize_fee: u64,
    /// The base fee plus the finalize fee, saturating.
    pub total_fee: u64,
}

/// The arguments of the developer command that executes a program function.
#[derive(Debug)]
pub struct Execute {
    pub program_id: String,
    pub function: String,
    pub inputs: Vec<String>,
    pub private_key: String,
    pub query: String,
    pub priority_fee: Option<u64>,
    pub record: Option<String>,
    pub broadcast: Option<String>,
    pub dry_run: bool,
    pub store: Option<String>,
}

/// `a + b`, or `u64::MAX` if that does not fit.
pub open spec fn sat_add(a: u64, b: u64) -> u64 {
    if a as int + b as int > u64::MAX {
        u64::MAX
    } else {
        (a + b) as u64
    }
}

/// The sum of the first `n` costs.
pub open spec fn cost_sum(costs: Seq<u64>, n: nat) -> int
    decreases n,
{
    if n == 0 {
        0
    } else {
        cost_sum(costs, (n - 1) as nat) + costs[n - 1]
    }
}

/// The fees of an execution with the given storage cost, priority fee and finalize
/// costs, or the reason they cannot be computed.
pub open spec fn fees_of(storage_cost: u64, priority_fee: Option<u64>, finalize_costs: Seq<u64>) -> Result<
    ExecutionFees,
    ExecuteError,
> {
    if cost_sum(finalize_costs, finalize_costs.len()) > u64::MAX {
        Err(ExecuteError::FinalizeCostOverflow)
    } else {
        let base = sat_add(storage_cost, match priority_fee { Some(f) => f, None => 0 });
        let finalize = cost_sum(finalize_costs, finalize_costs.len()) as u64;
        Ok(ExecutionFees { base_fee: base, finalize_fee: finalize, total_fee: sat_add(base, finalize) })
    }
}

proof fn lemma_cost_sum_monotone(costs: Seq<u64>, a: nat, b: nat)
    requires
        a <= b <= costs.len(),
    ensures
        cost_sum(costs, a) <= cost_sum(costs, b),
    decreases b - a,
{
    if a < b {
        lemma_cost_sum_monotone(costs, a, (b - 1) as nat);
    }
}

/// Computes the fees: the base fee is the storage cost plus the priority fee
/// (saturating), the finalize fee the checked sum of the finalize costs, and the total
/// their saturating sum.
pub fn execution_fees(storage_cost: u64, priority_fee: Option<u64>, finalize_costs: &Vec<u64>) -> (r: Result<
    ExecutionFees,
    ExecuteError,
>)
    ensures
        r == fees_of(storage_cost, priority_fee, finalize_costs@),
{
    let priority = match priority_fee {
        Some(f) => f,
        None => 0,
    };
    let base_fee = storage_cost.saturating_add(priority);
    let mut finalize_fee: u64 = 0;
    let mut i: usize = 0;
    while i < finalize_costs.len()
        invariant
            i <= finalize_costs@.len(),
            finalize_fee as int == cost_sum(finalize_costs@, i as nat),
        decreases finalize_costs.len() - i,
    {
        match finalize_fee.checked_add(finalize_costs[i]) {
            Some(f) => {
                finalize_fee = f;
            },
            None => {
                proof {
                    lemma_cost_sum_monotone(finalize_costs@, (i + 1) as nat, finalize_costs@.len());
                }
                return Err(ExecuteError::FinalizeCostOverflow);
            },
        }
        i = i + 1;
    }
    Ok(ExecutionFees { base_fee, finalize_fee, total_fee: base_fee.saturating_add(finalize_fee) })
}

impl Execute {
    /// One of broadcast, dry run or store was asked for.
    pub open spec fn has_action(&self) -> bool {
        self.dry_run || self.broadcast is Some || self.store is Some
    }

    /// Checks the request and computes its fees, given the execution's storage cost,
    /// the finalize cost of each transition, and the public balance of the signer
    /// (consulted only when no fee record is given).
    pub fn parse(&self, storage_cost: u64, finalize_costs: &Vec<u64>, public_balance: u64) -> (r: Result<
        ExecutionFees,
        ExecuteError,
    >)
        ensures
            !self.has_action() ==> r == Err::<ExecutionFees, ExecuteError>(ExecuteError::NoAction),
            self.has_action() ==> match fees_of(storage_cost, self.priority_fee, finalize_costs@) {
                Err(e) => r == Err::<ExecutionFees, ExecuteError>(e),
                Ok(f) => if self.record is None && public_balance < f.base_fee {
                    r == Err::<ExecutionFees, ExecuteError>(ExecuteError::InsufficientBalance)
                } else {
                    r == Ok::<ExecutionFees, ExecuteError>(f)
                },
            },
    {
        if !self.dry_run && self.broadcast.is_none() && self.store.is_none() {
            return Err(ExecuteError::NoAction);
        }
        let fees = match execution_fees(storage_cost, self.priority_fee, finalize_costs) {
            Ok(f) => f,
            Err(e) => {
                return Err(e);
            },
        };
        if self.record.is_none() && public_balance < fees.base_fee {
            return Err(ExecuteError::InsufficientBalance);
        }
        Ok(fees)
    }
}

} // verus!
