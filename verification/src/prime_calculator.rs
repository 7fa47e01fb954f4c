//! The calculator: its state and the sweep over the odd candidates.

use crate::clock::micros_since;
use crate::primality::{
    divides, horizon, integer_sqrt, is_integer_sqrt, is_prime_list, is_prime_number,
    lemma_below_sqrt, lemma_prime_list_extends, lemma_prime_list_seed,
    lemma_prime_list_skips_even, lemma_trial_division_decides, scan_reaches, trial_division,
};
use crate::result_set::{listed_before, strictly_listed, ResultSet};
use crate::types::PrimeResult;
use std::time::Instant;
use vstd::prelude::*;

verus! {

/// What a calculator holds, as mathematics.
pub struct CalculatorState {
    /// The primes found, in ascending order.
    pub primes: Seq<u64>,
    /// The results recorded.
    pub results: Set<PrimeResult>,
    /// How many decisions have been recorded, counted modulo 2^64.
    pub completed: u64,
    /// The number up to which every number has been decided; below 2 while
    /// nothing has been.
    pub limit: u64,
    /// The number of workers asked for, at least 1.
    pub workers: usize,
}

/// `result` is the right verdict on an odd candidate.
pub open spec fn is_right_verdict(result: PrimeResult) -> bool {
    &&& result.number >= 3
    &&& result.number % 2 == 1
    &&& result.is_prime == is_prime_number(result.number as nat)
}

/// The candidate with index `i`: the odd numbers from 3 on, in order.
pub open spec fn candidate(i: int) -> int {
    3 + 2 * i
}

/// How many candidates a sweep up to `max_number` has: the odd numbers from 3
/// to `max_number`.
pub open spec fn candidate_count(max_number: u64) -> nat {
    if max_number < 3 {
        0
    } else {
        ((max_number - 1) / 2) as nat
    }
}

/// The result that a sweep records for the candidate with index `i`, decided
/// in `micros` microseconds.
pub open spec fn sweep_result(i: int, micros: u64) -> PrimeResult {
    PrimeResult {
        number: candidate(i) as u64,
        is_prime: is_prime_number(candidate(i) as nat),
        calculation_time_micros: micros,
    }
}

/// The results that a sweep records when its decisions take the times
/// `times`, one for each candidate in order.
pub open spec fn sweep_results(times: Seq<u64>) -> Set<PrimeResult> {
    Set::new(|r: PrimeResult| exists|i: int| 0 <= i < times.len() && r == sweep_result(i, times[i]))
}

/// Half of `n`, rounded up.
pub open spec fn half_rounded_up(n: nat) -> nat {
    (n + 1) / 2
}

/// A counter that stood at `start`, after `jobs` more increments that wrap
/// around at 2^64.
pub open spec fn wrapped_count(start: u64, jobs: nat) -> u64 {
    ((start + jobs) % 0x1_0000_0000_0000_0000) as u64
}

impl CalculatorState {
    /// The prime list is the list of the primes up to the limit, and every
    /// result is the right verdict on a candidate within the limit.
    pub open spec fn valid(self) -> bool {
        &&& is_prime_list(self.primes, self.limit as nat)
        &&& self.results.finite()
        &&& forall|r: PrimeResult| #[trigger]
            self.results.contains(r) ==> is_right_verdict(r) && r.number <= self.limit
        &&& self.workers >= 1
    }

    /// The number up to which the next candidate to be recorded may lie: two
    /// past the limit, with 2 in place of a smaller limit.
    pub open spec fn reach(self) -> int {
        if self.limit < 2 {
            4
        } else {
            self.limit + 2
        }
    }

    /// The prime list with 2 on it: the list itself once the limit is 2 or
    /// more.
    pub open spec fn seeded_primes(self) -> Seq<u64> {
        if self.limit < 2 {
            seq![2u64]
        } else {
            self.primes
        }
    }

    /// The state after `result` has been recorded: the result joins the set,
    /// a prime beyond the limit joins the list, the limit moves up to the
    /// number, and the counter goes up by one.
    pub open spec fn recorded(self, result: PrimeResult) -> CalculatorState {
        CalculatorState {
            primes: if result.is_prime && result.number > self.limit {
                self.seeded_primes().push(result.number)
            } else {
                self.seeded_primes()
            },
            results: self.results.insert(result),
            completed: wrapped_count(self.completed, 1),
            limit: if result.number > self.limit {
                result.number
            } else {
                self.limit
            },
            workers: self.workers,
        }
    }

    /// The state after the limit has been moved up to `to`.
    pub open spec fn advanced(self, to: u64) -> CalculatorState {
        CalculatorState {
            primes: if to >= 2 {
                self.seeded_primes()
            } else {
                self.primes
            },
            results: self.results,
            completed: self.completed,
            limit: if to > self.limit {
                to
            } else {
                self.limit
            },
            workers: self.workers,
        }
    }

    /// `after` is this state after a sweep up to `max_number`: unchanged
    /// where `max_number` is below 2, and swept from there on.
    pub open spec fn sweep_outcome(self, after: CalculatorState, max_number: u64) -> bool {
        if max_number < 2 {
            after == self
        } else {
            self.swept(after, max_number)
        }
    }

    /// `after` is this state after a sweep up to `max_number`, from 2 on: the
    /// limit has moved up to `max_number`, the prime list has followed it,
    /// every candidate has left one result, whatever time its decision took,
    /// and the counter has counted them.
    pub open spec fn swept(self, after: CalculatorState, max_number: u64) -> bool {
        &&& after.valid()
        &&& after.limit == if max_number > self.limit {
            max_number
        } else {
            self.limit
        }
        &&& after.workers == self.workers
        &&& after.completed == wrapped_count(self.completed, candidate_count(max_number))
        &&& exists|times: Seq<u64>|
            times.len() == candidate_count(max_number) && after.results == self.results.union(
                #[trigger] sweep_results(times),
            )
    }
}

/// A sweep leaves as many results as it has candidates, and no two of them
/// share a number.
pub proof fn lemma_sweep_results_distinct(times: Seq<u64>)
    requires
        candidate(times.len() - 1) <= u64::MAX,
    ensures
        sweep_results(times).finite(),
        sweep_results(times).len() == times.len(),
        forall|a: PrimeResult, b: PrimeResult|
            sweep_results(times).contains(a) && sweep_results(times).contains(b) && a.number
                == b.number ==> a == b,
    decreases times.len(),
{
    let all = sweep_results(times);
    if times.len() == 0 {
        assert(all =~= Set::<PrimeResult>::empty());
    } else {
        let shorter = times.drop_last();
        let top = times.len() - 1;
        let newest = sweep_result(top, times[top]);
        lemma_sweep_results_distinct(shorter);
        assert forall|r: PrimeResult| all.contains(r) <==> sweep_results(shorter).insert(
            newest,
        ).contains(r) by {
            if all.contains(r) {
                let i = choose|i: int| 0 <= i < times.len() && r == sweep_result(i, times[i]);
                if i < top {
                    assert(r == sweep_result(i, shorter[i]));
                }
            }
            if sweep_results(shorter).contains(r) {
                let i = choose|i: int| 0 <= i < shorter.len() && r == sweep_result(i, shorter[i]);
                assert(r == sweep_result(i, times[i]));
            }
        }
        assert(all =~= sweep_results(shorter).insert(newest));
        assert(!sweep_results(shorter).contains(newest)) by {
            if sweep_results(shorter).contains(newest) {
                let i = choose|i: int|
                    0 <= i < shorter.len() && newest == sweep_result(i, shorter[i]);
                assert(candidate(i) < candidate(top));
            }
        }
        assert forall|a: PrimeResult, b: PrimeResult|
            all.contains(a) && all.contains(b) && a.number == b.number implies a == b by {
            let i = choose|i: int| 0 <= i < times.len() && a == sweep_result(i, times[i]);
            let j = choose|j: int| 0 <= j < times.len() && b == sweep_result(j, times[j]);
            assert(candidate(i) == candidate(j));
        }
    }
}

/// On a calculator that held no results, a sweep up to `max_number`, from 3
/// on, leaves exactly one result for each odd number from 3 to `max_number`,
/// and no two results share a number. For an odd `max_number` that is half of
/// `max_number - 1`, rounded up.
pub proof fn lemma_one_result_per_candidate(
    before: CalculatorState,
    after: CalculatorState,
    max_number: u64,
)
    requires
        before.results == Set::<PrimeResult>::empty(),
        max_number >= 3,
        before.sweep_outcome(after, max_number),
    ensures
        after.results.len() == candidate_count(max_number),
        max_number % 2 == 1 ==> after.results.len() == half_rounded_up((max_number - 1) as nat),
        forall|a: PrimeResult, b: PrimeResult|
            after.results.contains(a) && after.results.contains(b) && a.number == b.number ==> a
                == b,
{
    let times = choose|times: Seq<u64>|
        times.len() == candidate_count(max_number) && after.results == before.results.union(
            #[trigger] sweep_results(times),
        );
    lemma_sweep_results_distinct(times);
    assert(after.results =~= sweep_results(times));
}

/// A sweep below 2, on a calculator whose limit is below 2, leaves the prime
/// list empty.
pub proof fn lemma_no_primes_below_two(
    before: CalculatorState,
    after: CalculatorState,
    max_number: u64,
)
    requires
        before.valid(),
        before.limit < 2,
        max_number < 2,
        before.sweep_outcome(after, max_number),
    ensures
        after.primes == Seq::<u64>::empty(),
{
    if after.primes.len() > 0 {
        assert(is_prime_number(after.primes[0] as nat));
    }
    assert(after.primes =~= Seq::<u64>::empty());
}

/// Two copies of the prime list, taken from one calculator with no sweep
/// between them, are the same sequence.
pub proof fn lemma_get_primes_idempotent(
    calculator: &PrimeCalculator,
    first: Seq<u64>,
    second: Seq<u64>,
)
    requires
        first == calculator@.primes,
        second == calculator@.primes,
    ensures
        first == second,
{
}

/// Decides primality over ranges of odd candidates, by trial division
/// against the list of the primes confirmed so far.
pub struct PrimeCalculator {
    /// The primes up to `limit`, ascending; 2 is on it from the start.
    primes: Vec<u64>,
    results: ResultSet,
    total_calculated: u64,
    limit: u64,
    workers: usize,
}

impl View for PrimeCalculator {
    type V = CalculatorState;

    closed spec fn view(&self) -> CalculatorState {
        CalculatorState {
            primes: if self.limit < 2 {
                Seq::empty()
            } else {
                self.primes@
            },
            results: self.results@,
            completed: self.total_calculated,
            limit: self.limit,
            workers: self.workers,
        }
    }
}

impl PrimeCalculator {
    /// The calculator is well formed: its state is valid, and its list holds
    /// 2 even before the first sweep.
    pub closed spec fn wf(&self) -> bool {
        &&& self.results.wf()
        &&& self@.valid()
        &&& self.primes@ == self@.seeded_primes()
    }

    /// The state of a well-formed calculator is valid.
    pub proof fn lemma_valid(&self)
        requires
            self.wf(),
        ensures
            self@.valid(),
    {
    }

    /// A calculator that has decided nothing yet. `thread_count` is the
    /// number of workers asked for; zero counts as one.
    pub fn new(thread_count: usize) -> (calculator: Self)
        ensures
            calculator.wf(),
            calculator@ == (CalculatorState {
                primes: Seq::empty(),
                results: Set::empty(),
                completed: 0,
                limit: 0,
                workers: if thread_count < 1 {
                    1usize
                } else {
                    thread_count
                },
            }),
    {
        let mut primes: Vec<u64> = Vec::new();
        primes.push(2);
        let calculator = PrimeCalculator {
            primes,
            results: ResultSet::new(),
            total_calculated: 0,
            limit: 0,
            workers: if thread_count < 1 {
                1
            } else {
                thread_count
            },
        };
        proof {
            assert(calculator.primes@ =~= seq![2u64]);
            assert(calculator@.primes =~= Seq::<u64>::empty());
        }
        calculator
    }

    /// Trial division of `n` against `primes`: 2 is prime; numbers below 2
    /// and even numbers are not; an odd number is prime unless one of the
    /// entries divides it, the entries being scanned from the front up to
    /// the first one above the integer square root of `n`.
    pub fn is_prime(n: u64, primes: &Vec<u64>) -> (verdict: bool)
        requires
            forall|i: int| 0 <= i < primes.len() ==> primes[i] != 0,
        ensures
            verdict == trial_division(n as nat, primes@),
    {
        if n <= 1 {
            return false;
        }
        if n == 2 {
            return true;
        }
        if n % 2 == 0 {
            return false;
        }
        let max_divisor = integer_sqrt(n);
        let mut i: usize = 0;
        while i < primes.len()
            invariant
                i <= primes.len(),
                n > 2,
                n % 2 == 1,
                is_integer_sqrt(max_divisor as nat, n as nat),
                forall|j: int| 0 <= j < primes.len() ==> primes[j] != 0,
                forall|j: int| 0 <= j < i ==> #[trigger] primes[j] * primes[j] <= n,
                forall|j: int| 0 <= j < i ==> !divides(#[trigger] primes[j] as nat, n as nat),
            decreases primes.len() - i,
        {
            let p = primes[i];
            proof {
                lemma_below_sqrt(p as nat, max_divisor as nat, n as nat);
            }
            if p > max_divisor {
                proof {
                    assert forall|k: int|
                        0 <= k < primes.len() && #[trigger] scan_reaches(
                            primes@,
                            n as nat,
                            k,
                        ) implies !divides(primes[k] as nat, n as nat) by {
                        if k >= i {
                            assert(primes@[i as int] * primes@[i as int] <= n);
                        }
                    }
                }
                return true;
            }
            if n % p == 0 {
                proof {
                    assert(scan_reaches(primes@, n as nat, i as int));
                    assert(divides(primes@[i as int] as nat, n as nat));
                }
                return false;
            }
            i += 1;
        }
        true
    }

    /// Records the verdict `is_prime` on the candidate `number`, reached in
    /// `micros` microseconds: the result joins the set; a prime beyond the
    /// limit is appended to the list, one within it is on the list already;
    /// the limit moves up to the number; the counter goes up by one.
    ///
    /// Candidates are recorded in ascending order: `number` is odd and lies
    /// at most two past the limit, so that no number is passed over
    /// undecided.
    pub fn record(&mut self, number: u64, is_prime: bool, micros: u64)
        requires
            old(self).wf(),
            number >= 3,
            number % 2 == 1,
            number <= old(self)@.reach(),
            is_prime == is_prime_number(number as nat),
        ensures
            final(self).wf(),
            final(self)@ == old(self)@.recorded(
                PrimeResult { number, is_prime, calculation_time_micros: micros },
            ),
    {
        let result = PrimeResult::new(number, is_prime, micros);
        let ghost before = self@;
        proof {
            self.results.lemma_finite();
            if self.limit < 2 {
                lemma_prime_list_seed();
            }
        }
        self.results.insert(result);
        if number > self.limit {
            proof {
                let base: nat = if self.limit < 2 {
                    2
                } else {
                    self.limit as nat
                };
                lemma_prime_list_extends(self.primes@, base, number);
            }
            if is_prime {
                self.primes.push(number);
            }
            self.limit = number;
        }
        self.total_calculated = self.total_calculated.wrapping_add(1);
        proof {
            let after = before.recorded(result);
            assert(self@.primes =~= after.primes);
            assert(self@.results =~= after.results);
            assert(self@.completed == after.completed);
            assert(self@.limit == after.limit);
        }
    }

    /// Decides every odd number from 3 to `max_number`, in ascending order,
    /// and records each verdict with the time it took. Below 2 nothing
    /// happens. From 2 on, the prime list then holds exactly the primes up to
    /// `max_number`, or up to the old limit if that was higher.
    pub fn calculate_up_to(&mut self, max_number: u64)
        requires
            old(self).wf(),
        ensures
            final(self).wf(),
            old(self)@.sweep_outcome(final(self)@, max_number),
    {
        if max_number < 2 {
            return ;
        }
        self.advance_limit(2);
        let ghost floor = self.limit;
        let count: u64 = (max_number - 1) / 2;
        let ghost times: Seq<u64> = Seq::empty();
        assert(self@.results =~= old(self)@.results.union(sweep_results(times)));
        let mut k: u64 = 0;
        while k < count
            invariant
                self.wf(),
                k <= count,
                count == candidate_count(max_number),
                max_number >= 2,
                floor >= 2,
                self@.limit == if candidate(k as int) - 2 > floor {
                    candidate(k as int) - 2
                } else {
                    floor as int
                },
                self@.workers == old(self)@.workers,
                self@.completed == wrapped_count(old(self)@.completed, k as nat),
                times.len() == k,
                self@.results == old(self)@.results.union(sweep_results(times)),
            decreases count - k,
        {
            let n: u64 = 3 + 2 * k;
            let start = Instant::now();
            proof {
                assert(n <= horizon(self.limit as nat)) by (nonlinear_arith)
                    requires
                        self.limit >= 2,
                        n <= self.limit + 2,
                        horizon(self.limit as nat) == self.limit * self.limit + 2 * self.limit,
                ;
                lemma_trial_division_decides(n as nat, self.primes@, self.limit as nat);
            }
            let prime = Self::is_prime(n, &self.primes);
            let micros = micros_since(&start);
            self.record(n, prime, micros);
            proof {
                let grown = times.push(micros);
                let result = sweep_result(k as int, micros);
                assert forall|r: PrimeResult|
                    sweep_results(grown).contains(r) <==> sweep_results(times).insert(
                        result,
                    ).contains(r) by {
                    if sweep_results(grown).contains(r) {
                        let i = choose|i: int|
                            0 <= i < grown.len() && r == sweep_result(i, grown[i]);
                        if i < k {
                            assert(r == sweep_result(i, times[i]));
                        }
                    }
                    if sweep_results(times).contains(r) {
                        let i = choose|i: int|
                            0 <= i < times.len() && r == sweep_result(i, times[i]);
                        assert(r == sweep_result(i, grown[i]));
                    }
                    assert(result == sweep_result(k as int, grown[k as int]));
                }
                assert(sweep_results(grown) =~= sweep_results(times).insert(result));
                assert(self@.results =~= old(self)@.results.union(sweep_results(grown)));
                times = grown;
            }
            k += 1;
        }
        self.advance_limit(max_number);
        proof {
            assert(times.len() == candidate_count(max_number) && self@.results == old(
                self,
            )@.results.union(sweep_results(times)));
        }
    }

    /// Moves the limit up to `to`, where no candidate lies between the two:
    /// `to` is 2 or less, or within the limit already, or the even number
    /// that follows the limit. Moving it to 2 or beyond puts 2 on the list.
    pub fn advance_limit(&mut self, to: u64)
        requires
            old(self).wf(),
            to <= 2 || to <= old(self)@.limit || (to == old(self)@.limit + 1 && to % 2 == 0),
        ensures
            final(self).wf(),
            final(self)@ == old(self)@.advanced(to),
    {
        let ghost before = self@;
        if to > self.limit {
            proof {
                if to == 2 {
                    lemma_prime_list_seed();
                } else if to > 2 {
                    lemma_prime_list_skips_even(self.primes@, self.limit as nat);
                }
            }
            self.limit = to;
        }
        proof {
            assert(self@.primes =~= before.advanced(to).primes);
        }
    }

    /// The largest number that trial division against the prime list as it
    /// stands decides rightly, or the largest `u64` if that is less.
    pub fn horizon(&self) -> (bound: u64)
        requires
            self.wf(),
        ensures
            bound == if horizon(self@.limit as nat) > u64::MAX {
                u64::MAX as nat
            } else {
                horizon(self@.limit as nat)
            },
            forall|n: u64|
                n <= bound ==> #[trigger] trial_division(n as nat, self@.primes) == is_prime_number(
                    n as nat,
                ),
    {
        proof {
            assert forall|n: u64| n <= horizon(self@.limit as nat) implies #[trigger] trial_division(
                n as nat,
                self@.primes,
            ) == is_prime_number(n as nat) by {
                lemma_trial_division_decides(n as nat, self@.primes, self@.limit as nat);
            }
        }
        if self.limit < 2 {
            8
        } else if self.limit >= 4294967296 {
            assert(self.limit * self.limit + 2 * self.limit > u64::MAX) by (nonlinear_arith)
                requires
                    self.limit >= 4294967296,
            ;
            u64::MAX
        } else {
            assert(self.limit * self.limit + 2 * self.limit <= u64::MAX) by (nonlinear_arith)
                requires
                    self.limit <= 4294967295,
            ;
            self.limit * self.limit + 2 * self.limit
        }
    }

    /// The number up to which every number has been decided.
    pub fn limit(&self) -> (limit: u64)
        ensures
            limit == self@.limit,
    {
        self.limit
    }

    /// A copy of the prime list as it stands: the primes up to the limit, in
    /// ascending order.
    pub fn get_primes(&self) -> (primes: Vec<u64>)
        requires
            self.wf(),
        ensures
            primes@ == self@.primes,
            is_prime_list(primes@, self@.limit as nat),
            forall|i: int| 0 <= i < primes@.len() ==> is_prime_number(#[trigger] primes@[i] as nat),
    {
        if self.limit < 2 {
            Vec::new()
        } else {
            let primes = self.primes.clone();
            assert(primes@ =~= self.primes@);
            primes
        }
    }

    /// A copy of the results as they stand, each result once, in the order
    /// of `listed_before`: by number first.
    pub fn get_detailed_results(&self) -> (results: Vec<PrimeResult>)
        requires
            self.wf(),
        ensures
            results@.to_set() == self@.results,
            results@.no_duplicates(),
            results@.len() == self@.results.len(),
            strictly_listed(results@),
    {
        let results = self.results.to_vec();
        proof {
            assert forall|i: int, j: int|
                0 <= i < results@.len() && 0 <= j < results@.len() && i != j implies results@[i]
                != results@[j] by {
                if i < j {
                    assert(listed_before(results@[i], results@[j]));
                } else {
                    assert(listed_before(results@[j], results@[i]));
                }
            }
            results@.unique_seq_to_set();
        }
        results
    }

    /// How many decisions have been recorded, counted modulo 2^64.
    pub fn total_calculated(&self) -> (count: u64)
        ensures
            count == self@.completed,
    {
        self.total_calculated
    }

    /// The number of workers asked for, at least 1.
    pub fn worker_count(&self) -> (count: usize)
        ensures
            count == self@.workers,
    {
        self.workers
    }
}

} // verus!
