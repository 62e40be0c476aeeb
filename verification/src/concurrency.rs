//! The sequential core of the thread-pool patterns: parallel map over squares,
//! chunked parallel primality checking, fan-out/fan-in factorials, guarded
//! shared state (a counter and a bank account) and a bounded worker pool.
//!
//! Each parallel pattern's result is a pure function of its inputs, so the
//! verified functions here compute exactly what the concurrent deployment
//! returns: spawning, joining and channel plumbing live at the crate's edge
//! and call back into these kernels for every piece of real work. Where a
//! pattern promises no delivery order (fan-out/fan-in, the worker pool), its
//! contract speaks of multisets, not positions.

use vstd::prelude::*;
use crate::math::{fact, is_prime_spec, factorial, is_prime};

verus! {

/// Squares one parallel-map task's input.
pub fn square_task(n: i32) -> (r: i32)
    requires
        -46340 <= n <= 46340,
    ensures
        r == n * n,
{
    proof {
        assert(n * n <= 0x7fff_ffff) by (nonlinear_arith)
            requires
                -46340 <= n <= 46340,
        ;
        assert(n * n >= 0) by (nonlinear_arith);
    }
    n * n
}

/// Maps every input to its square, position by position: the i-th output is
/// the square of the i-th input, whatever order the per-element tasks of the
/// concurrent deployment finish in.
pub fn calculate_squares(input_numbers: Vec<i32>) -> (r: Vec<i32>)
    requires
        forall|i: int| 0 <= i < input_numbers@.len() ==> -46340 <= #[trigger] input_numbers@[i] <= 46340,
    ensures
        r@.len() == input_numbers@.len(),
        forall|i: int| 0 <= i < r@.len() ==> r@[i] == input_numbers@[i] * input_numbers@[i],
{
    let mut result: Vec<i32> = Vec::new();
    let mut idx: usize = 0;
    while idx < input_numbers.len()
        invariant
            0 <= idx <= input_numbers@.len(),
            result@.len() == idx,
            forall|i: int| 0 <= i < input_numbers@.len()
                ==> -46340 <= #[trigger] input_numbers@[i] <= 46340,
            forall|i: int| 0 <= i < idx ==> result@[i] == input_numbers@[i] * input_numbers@[i],
        decreases input_numbers@.len() - idx,
    {
        let squared = square_task(input_numbers[idx]);
        result.push(squared);
        idx = idx + 1;
    }
    result
}

/// The size of each contiguous chunk when `len` items are split across
/// `number_of_threads` workers: the ceiling of their quotient.
pub fn chunk_size(len: usize, number_of_threads: usize) -> (r: usize)
    requires
        1 <= number_of_threads,
        len + number_of_threads - 1 <= usize::MAX,
    ensures
        r == (len + number_of_threads - 1) as int / number_of_threads as int,
        len > 0 ==> r >= 1 && (r - 1) * number_of_threads < len <= r * number_of_threads,
        len == 0 ==> r == 0,
{
    let r = (len + (number_of_threads - 1)) / number_of_threads;
    proof {
        let l = len as int;
        let w = number_of_threads as int;
        vstd::arithmetic::div_mod::lemma_fundamental_div_mod(l + w - 1, w);
        if l > 0 {
            assert(r >= 1 && (r - 1) * w < l <= r * w) by (nonlinear_arith)
                requires
                    l + w - 1 == w * (r as int) + (l + w - 1) % w,
                    0 <= (l + w - 1) % w < w,
                    w >= 1,
                    l > 0,
            ;
        } else {
            vstd::arithmetic::div_mod::lemma_basic_div(w - 1, w);
        }
    }
    r
}

/// Checks one contiguous chunk of numbers for primality, pairing each number
/// with its flag. This is the whole of one worker's job in the chunked
/// parallel primality check.
pub fn prime_check_chunk(chunk: &Vec<u64>) -> (r: Vec<(u64, bool)>)
    ensures
        r@.len() == chunk@.len(),
        forall|i: int| 0 <= i < r@.len()
            ==> #[trigger] r@[i] == (chunk@[i], is_prime_spec(chunk@[i] as nat)),
{
    let mut result: Vec<(u64, bool)> = Vec::new();
    let mut idx: usize = 0;
    while idx < chunk.len()
        invariant
            0 <= idx <= chunk@.len(),
            result@.len() == idx,
            forall|i: int| 0 <= i < idx
                ==> #[trigger] result@[i] == (chunk@[i], is_prime_spec(chunk@[i] as nat)),
        decreases chunk@.len() - idx,
    {
        let n = chunk[idx];
        let flag = is_prime(n);
        result.push((n, flag));
        idx = idx + 1;
    }
    result
}

/// Pairs every input with its primality flag, in input order. The chunked
/// deployment hands each worker one contiguous chunk and concatenates the
/// chunk results in chunk order, so input order is preserved end to end.
pub fn parallel_prime_check(numbers: Vec<u64>, number_of_threads: usize) -> (r: Vec<(u64, bool)>)
    requires
        1 <= number_of_threads,
        1 <= numbers@.len(),
        numbers@.len() + number_of_threads - 1 <= usize::MAX,
    ensures
        r@.len() == numbers@.len(),
        forall|i: int| 0 <= i < r@.len()
            ==> #[trigger] r@[i] == (numbers@[i], is_prime_spec(numbers@[i] as nat)),
{
    let size = chunk_size(numbers.len(), number_of_threads);
    let mut result: Vec<(u64, bool)> = Vec::new();
    let mut start: usize = 0;
    while start < numbers.len()
        invariant
            0 <= start <= numbers@.len(),
            1 <= size,
            result@.len() == start,
            forall|i: int| 0 <= i < start
                ==> #[trigger] result@[i] == (numbers@[i], is_prime_spec(numbers@[i] as nat)),
        decreases numbers@.len() - start,
    {
        let end = if numbers.len() - start < size {
            numbers.len()
        } else {
            start + size
        };
        let mut chunk: Vec<u64> = Vec::new();
        let mut j = start;
        while j < end
            invariant
                start <= j <= end <= numbers@.len(),
                chunk@.len() == j - start,
                forall|i: int| 0 <= i < chunk@.len() ==> chunk@[i] == numbers@[start + i],
            decreases end - j,
        {
            chunk.push(numbers[j]);
            j = j + 1;
        }
        let mut flags = prime_check_chunk(&chunk);
        result.append(&mut flags);
        start = end;
    }
    result
}

/// Computes the factorial of every input. The fan-out/fan-in deployment sends
/// each result through a shared channel in completion order, so no position
/// is promised: only the multiset of outputs is pinned down.
pub fn parallel_factorials(numbers: Vec<u32>) -> (r: Vec<u32>)
    requires
        forall|i: int| 0 <= i < numbers@.len() ==> fact(#[trigger] numbers@[i] as nat) <= u32::MAX,
    ensures
        r@.len() == numbers@.len(),
        r@.map_values(|x: u32| x as nat).to_multiset()
            == numbers@.map_values(|n: u32| fact(n as nat)).to_multiset(),
{
    let mut result: Vec<u32> = Vec::new();
    let mut idx: usize = 0;
    while idx < numbers.len()
        invariant
            0 <= idx <= numbers@.len(),
            result@.len() == idx,
            forall|i: int| 0 <= i < numbers@.len()
                ==> fact(#[trigger] numbers@[i] as nat) <= u32::MAX,
            forall|i: int| 0 <= i < idx ==> result@[i] == fact(numbers@[i] as nat),
        decreases numbers@.len() - idx,
    {
        let f = factorial(numbers[idx]);
        result.push(f);
        idx = idx + 1;
    }
    proof {
        assert(result@.map_values(|x: u32| x as nat)
            =~= numbers@.map_values(|n: u32| fact(n as nat)));
    }
    result
}

/// A counter whose state is shared by several concurrent callers. Every
/// mutation runs inside one critical section of an exclusive guard, so each
/// caller observes the sequential behaviour verified here; the guard and the
/// shared handle live at the crate's edge.
pub struct SharedCounter {
    value: i32,
}

impl SharedCounter {
    /// The counter's current value.
    pub closed spec fn spec_value(&self) -> int {
        self.value as int
    }

    /// Creates a counter holding the given value.
    pub fn new(initial_value: i32) -> (r: Self)
        ensures
            r.spec_value() == initial_value,
    {
        SharedCounter { value: initial_value }
    }

    /// Adds one to the counter: a single read-modify-write step.
    pub fn increment(&mut self)
        requires
            old(self).spec_value() < i32::MAX,
        ensures
            final(self).spec_value() == old(self).spec_value() + 1,
    {
        self.value = self.value + 1;
    }

    /// Reads the counter.
    pub fn get_value(&self) -> (r: i32)
        ensures
            r == self.spec_value(),
    {
        self.value
    }
}

/// The counter's value after a run of increments, one increment at a time.
pub open spec fn counter_after(initial: int, increments: nat) -> int
    decreases increments,
{
    if increments == 0 {
        initial
    } else {
        counter_after(initial, (increments - 1) as nat) + 1
    }
}

/// No update is lost: when every increment runs as its own critical section,
/// any serialization of n increments leaves the counter at its initial value
/// plus n. Each step adds exactly one, so the order of the steps is
/// immaterial.
pub proof fn lemma_counter_linearizable(initial: int, increments: nat)
    ensures
        counter_after(initial, increments) == initial + increments,
    decreases increments,
{
    if increments > 0 {
        lemma_counter_linearizable(initial, (increments - 1) as nat);
    }
}

/// A bank account whose balance is shared by several concurrent callers.
/// As with [`SharedCounter`], every operation is one critical section of an
/// exclusive guard held at the crate's edge; in particular the check and the
/// debit of a withdrawal form one atomic step.
pub struct BankAccount {
    balance: i32,
}

impl BankAccount {
    /// The account's current balance.
    pub closed spec fn spec_balance(&self) -> int {
        self.balance as int
    }

    /// Opens an account with the given balance.
    pub fn new(initial_balance: i32) -> (r: Self)
        ensures
            r.spec_balance() == initial_balance,
    {
        BankAccount { balance: initial_balance }
    }

    /// Adds the amount to the balance, unconditionally.
    pub fn deposit(&mut self, amount: i32)
        requires
            i32::MIN <= old(self).spec_balance() + amount <= i32::MAX,
        ensures
            final(self).spec_balance() == old(self).spec_balance() + amount,
    {
        self.balance = self.balance + amount;
    }

    /// Withdraws the amount when the funds suffice, atomically: the balance
    /// check and the debit are one step, and a failed withdrawal leaves the
    /// balance untouched. Insufficient funds are a normal outcome, reported
    /// through the returned flag, not an error.
    pub fn withdraw(&mut self, amount: i32) -> (r: bool)
        requires
            old(self).spec_balance() >= amount
                ==> old(self).spec_balance() - amount <= i32::MAX,
        ensures
            r == (old(self).spec_balance() >= amount),
            r ==> final(self).spec_balance() == old(self).spec_balance() - amount,
            !r ==> final(self).spec_balance() == old(self).spec_balance(),
    {
        if self.balance >= amount {
            self.balance = self.balance - amount;
            true
        } else {
            false
        }
    }

    /// Reads the balance.
    pub fn get_balance(&self) -> (r: i32)
        ensures
            r == self.spec_balance(),
    {
        self.balance
    }
}

/// The balance left after attempting the given withdrawals in order, each one
/// an atomic check-then-act step.
pub open spec fn balance_after(balance: int, amounts: Seq<int>) -> int
    decreases amounts.len(),
{
    if amounts.len() == 0 {
        balance
    } else if balance >= amounts[0] {
        balance_after(balance - amounts[0], amounts.drop_first())
    } else {
        balance_after(balance, amounts.drop_first())
    }
}

/// The total of the withdrawals that succeed when the given amounts are
/// attempted in order.
pub open spec fn total_withdrawn(balance: int, amounts: Seq<int>) -> int
    decreases amounts.len(),
{
    if amounts.len() == 0 {
        0
    } else if balance >= amounts[0] {
        amounts[0] + total_withdrawn(balance - amounts[0], amounts.drop_first())
    } else {
        total_withdrawn(balance, amounts.drop_first())
    }
}

/// Atomic withdrawal keeps the balance sound: for any serialization of
/// non-negative withdrawal requests against a non-negative starting balance,
/// the balance never goes negative, and the amounts that succeed total
/// exactly the drop in the balance — never more than was there to begin
/// with, however much was requested.
pub proof fn lemma_withdrawals_never_overdraw(balance: int, amounts: Seq<int>)
    requires
        balance >= 0,
        forall|i: int| 0 <= i < amounts.len() ==> amounts[i] >= 0,
    ensures
        balance_after(balance, amounts) >= 0,
        total_withdrawn(balance, amounts) == balance - balance_after(balance, amounts),
        total_withdrawn(balance, amounts) <= balance,
    decreases amounts.len(),
{
    if amounts.len() > 0 {
        assert(forall|i: int| 0 <= i < amounts.drop_first().len()
            ==> amounts.drop_first()[i] >= 0);
        if balance >= amounts[0] {
            lemma_withdrawals_never_overdraw(balance - amounts[0], amounts.drop_first());
        } else {
            lemma_withdrawals_never_overdraw(balance, amounts.drop_first());
        }
    }
}

/// What a pool worker does with one receive attempt: deliver a result or
/// exit.
#[derive(Debug, PartialEq, Eq, Structural)]
pub enum WorkerAction {
    /// Send `(worker_id, output)` on the result channel and loop again.
    Deliver(usize, i32),
    /// The task channel is closed and drained: leave the loop.
    Exit,
}

/// One turn of a worker's loop, from the event it received to the action it
/// takes. The worker holds the task channel's guard only for the receive
/// itself, never while computing; a received task is squared and delivered
/// under the worker's id, and a closed channel ends the loop. The loop that
/// blocks on the shared channel runs at the crate's edge and obeys this
/// function turn by turn.
pub fn worker_step(worker_id: usize, task: Option<i32>) -> (r: WorkerAction)
    requires
        task matches Some(t) ==> -46340 <= t <= 46340,
    ensures
        match task {
            Some(t) => r == WorkerAction::Deliver(worker_id, (t * t) as i32),
            None => r == WorkerAction::Exit,
        },
{
    match task {
        Some(t) => {
            let result = square_task(t);
            WorkerAction::Deliver(worker_id, result)
        },
        None => WorkerAction::Exit,
    }
}

/// Runs the whole work queue: every task is delivered to exactly one worker,
/// squared, and sent back tagged with that worker's id. Which worker takes
/// which task — and in which order results arrive — is the scheduler's
/// choice, so the contract pins down the multiset of outputs and the range
/// of the ids, not their positions; with no workers, nothing is consumed and
/// nothing comes back.
pub fn run_work_queue(tasks: Vec<i32>, number_of_workers: usize) -> (r: Vec<(usize, i32)>)
    requires
        forall|i: int| 0 <= i < tasks@.len() ==> -46340 <= #[trigger] tasks@[i] <= 46340,
    ensures
        number_of_workers == 0 ==> r@.len() == 0,
        number_of_workers >= 1 ==> r@.len() == tasks@.len(),
        number_of_workers >= 1 ==> r@.map_values(|p: (usize, i32)| p.1 as int).to_multiset()
            == tasks@.map_values(|t: i32| t * t).to_multiset(),
        forall|i: int| 0 <= i < r@.len() ==> #[trigger] r@[i].0 < number_of_workers,
{
    let mut result: Vec<(usize, i32)> = Vec::new();
    if number_of_workers == 0 {
        return result;
    }
    let mut idx: usize = 0;
    while idx < tasks.len()
        invariant
            0 <= idx <= tasks@.len(),
            1 <= number_of_workers,
            result@.len() == idx,
            forall|i: int| 0 <= i < tasks@.len() ==> -46340 <= #[trigger] tasks@[i] <= 46340,
            forall|i: int| 0 <= i < idx
                ==> #[trigger] result@[i] == (((i as usize) % number_of_workers) as usize,
                    (tasks@[i] * tasks@[i]) as i32),
        decreases tasks@.len() - idx,
    {
        let worker_id = idx % number_of_workers;
        let action = worker_step(worker_id, Some(tasks[idx]));
        match action {
            WorkerAction::Deliver(id, output) => {
                result.push((id, output));
            },
            WorkerAction::Exit => {
                proof {
                    assert(false);
                }
            },
        }
        idx = idx + 1;
    }
    proof {
        assert forall|i: int| 0 <= i < tasks@.len()
            implies 0 <= #[trigger] (tasks@[i] * tasks@[i]) < 0x8000_0000 by {
            assert(0 <= tasks@[i] * tasks@[i] < 0x8000_0000) by (nonlinear_arith)
                requires
                    -46340 <= tasks@[i] <= 46340,
            ;
        }
        assert(result@.map_values(|p: (usize, i32)| p.1 as int)
            =~= tasks@.map_values(|t: i32| t * t));
        assert forall|i: int| 0 <= i < result@.len()
            implies #[trigger] result@[i].0 < number_of_workers by {
            vstd::arithmetic::div_mod::lemma_mod_bound(i, number_of_workers as int);
        }
    }
    result
}

/// Re-running the parallel map is idempotent: two results of
/// [`calculate_squares`] on the same input are the same sequence.
pub proof fn lemma_calculate_squares_idempotent(
    inputs: Vec<i32>,
    r1: Vec<i32>,
    r2: Vec<i32>,
)
    requires
        call_ensures(calculate_squares, (inputs,), r1),
        call_ensures(calculate_squares, (inputs,), r2),
    ensures
        r1@ == r2@,
{
    assert(r1@ =~= r2@);
}

/// Re-running the chunked primality check is idempotent, even across
/// different worker counts: the output is pinned to the input order.
pub proof fn lemma_prime_check_idempotent(
    numbers: Vec<u64>,
    w1: usize,
    w2: usize,
    r1: Vec<(u64, bool)>,
    r2: Vec<(u64, bool)>,
)
    requires
        call_ensures(parallel_prime_check, (numbers, w1), r1),
        call_ensures(parallel_prime_check, (numbers, w2), r2),
    ensures
        r1@ == r2@,
{
    assert(r1@ =~= r2@);
}

/// Re-running the fan-out/fan-in factorials yields the same multiset of
/// outputs, whatever delivery order each run happens to see.
pub proof fn lemma_factorials_idempotent(numbers: Vec<u32>, r1: Vec<u32>, r2: Vec<u32>)
    requires
        call_ensures(parallel_factorials, (numbers,), r1),
        call_ensures(parallel_factorials, (numbers,), r2),
    ensures
        r1@.map_values(|x: u32| x as nat).to_multiset()
            == r2@.map_values(|x: u32| x as nat).to_multiset(),
{
}

} // verus!
