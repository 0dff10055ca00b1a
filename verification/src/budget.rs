//! Token-cost governance: a global budget with per-task reservations.
//!
//! The governor enforces two invariants:
//! 1. a task cannot start unless its full budget can be reserved, and
//! 2. total settled + reserved spend never exceeds the global budget.
//!
//! Reservation-then-settlement (rather than spend-then-check) means a
//! runaway fleet stops *before* the bill, not after it.

use crate::order::{same_text, Id};
use crate::text::{decimal, decimal_string, join};
use vstd::prelude::*;

verus! {

#[derive(Debug, PartialEq)]
pub enum BudgetError {
    Exhausted { requested: u64, available: u64 },
    NoReservation(String),
}

/// What a [`BudgetError`] says, as mathematical values.
pub enum BudgetErrorView {
    Exhausted { requested: u64, available: u64 },
    NoReservation(Id),
}

impl View for BudgetError {
    type V = BudgetErrorView;

    open spec fn view(&self) -> BudgetErrorView {
        match self {
            BudgetError::Exhausted { requested, available } => BudgetErrorView::Exhausted {
                requested: *requested,
                available: *available,
            },
            BudgetError::NoReservation(task) => BudgetErrorView::NoReservation(task@),
        }
    }
}

impl BudgetErrorView {
    /// The text of the error.
    pub open spec fn message(self) -> Seq<char> {
        match self {
            BudgetErrorView::Exhausted { requested, available } => {
                "global budget exhausted: requested "@ + decimal(requested as nat) + ", available "@
                    + decimal(available as nat)
            },
            BudgetErrorView::NoReservation(task) => "no reservation found for task "@ + task,
        }
    }
}

impl BudgetError {
    /// The text of the error.
    pub fn message(&self) -> (r: String)
        ensures
            r@ == self@.message(),
    {
        match self {
            BudgetError::Exhausted { requested, available } => {
                let head = join("global budget exhausted: requested ", decimal_string(*requested).as_str());
                let tail = decimal_string(*available);
                head.concat(", available ").concat(tail.as_str())
            },
            BudgetError::NoReservation(task) => join("no reservation found for task ", task.as_str()),
        }
    }
}

#[derive(Debug, Clone, Copy, PartialEq, Eq, Structural)]
pub struct BudgetSnapshot {
    pub global_budget: u64,
    pub settled: u64,
    pub reserved: u64,
    pub available: u64,
}

impl Default for BudgetSnapshot {
    fn default() -> (r: Self)
        ensures
            r == (BudgetSnapshot { global_budget: 0, settled: 0, reserved: 0, available: 0 }),
    {
        BudgetSnapshot { global_budget: 0, settled: 0, reserved: 0, available: 0 }
    }
}

/// The books of a governor: the budget, what has been spent of it, and the
/// outstanding reservations, each a task and its tokens.
pub struct GovernorView {
    pub global_budget: nat,
    pub settled: nat,
    pub reservations: Seq<(Id, u64)>,
}

/// The tokens of all reservations together.
pub open spec fn total_tokens(reservations: Seq<(Id, u64)>) -> nat
    decreases reservations.len(),
{
    if reservations.len() == 0 {
        0
    } else {
        total_tokens(reservations.drop_last()) + reservations.last().1 as nat
    }
}

/// The place of the first reservation for `task`, or the number of all
/// reservations where it has none.
pub open spec fn first_reservation(reservations: Seq<(Id, u64)>, task: Id) -> int
    decreases reservations.len(),
{
    if reservations.len() == 0 {
        0
    } else if reservations[0].0 == task {
        0
    } else {
        1 + first_reservation(reservations.drop_first(), task)
    }
}

/// The reservations of all tasks but `task`.
pub open spec fn of_others(task: Id) -> spec_fn((Id, u64)) -> bool {
    |r: (Id, u64)| r.0 != task
}

impl GovernorView {
    pub open spec fn reserved(self) -> nat {
        total_tokens(self.reservations)
    }

    /// What is spent and what is reserved stay within the budget.
    pub open spec fn within_budget(self) -> bool {
        self.settled + self.reserved() <= self.global_budget
    }

    /// What can still be reserved.
    pub open spec fn available(self) -> int {
        self.global_budget - self.settled - self.reserved()
    }

    pub open spec fn holds_reservation(self, task: Id) -> bool {
        first_reservation(self.reservations, task) < self.reservations.len()
    }

    /// The reservation that the next settlement for `task` closes.
    pub open spec fn reservation(self, task: Id) -> u64 {
        self.reservations[first_reservation(self.reservations, task)].1
    }

    pub open spec fn reserve(self, task: Id, tokens: u64) -> GovernorView {
        if tokens <= self.available() {
            GovernorView { reservations: self.reservations.push((task, tokens)), ..self }
        } else {
            self
        }
    }

    /// The first reservation for `task` goes, the last one takes its place,
    /// and what was spent, at most what was reserved, is booked.
    pub open spec fn settle(self, task: Id, actual: u64) -> GovernorView {
        if self.holds_reservation(task) {
            let at = first_reservation(self.reservations, task);
            GovernorView {
                settled: self.settled + if actual < self.reservation(task) {
                    actual as nat
                } else {
                    self.reservation(task) as nat
                },
                reservations: self.reservations.update(at, self.reservations.last()).drop_last(),
                ..self
            }
        } else {
            self
        }
    }

    /// Every reservation for `task` goes, and nothing is booked.
    pub open spec fn release(self, task: Id) -> GovernorView {
        GovernorView { reservations: self.reservations.filter(of_others(task)), ..self }
    }
}

/// Cost governor.
#[derive(Debug)]
pub struct CostGovernor {
    global_budget: u64,
    settled: u64,
    reservations: Vec<(String, u64)>,
}

impl View for CostGovernor {
    type V = GovernorView;

    closed spec fn view(&self) -> GovernorView {
        GovernorView {
            global_budget: self.global_budget as nat,
            settled: self.settled as nat,
            reservations: self.reservations.deep_view(),
        }
    }
}

impl CostGovernor {
    #[verifier::type_invariant]
    closed spec fn keeps_budget(self) -> bool {
        self@.within_budget()
    }

    /// A governor of `global_budget` tokens, all of them available.
    pub fn new(global_budget: u64) -> (r: Self)
        ensures
            r@ == (GovernorView { global_budget: global_budget as nat, settled: 0, reservations: Seq::empty() }),
    {
        let reservations: Vec<(String, u64)> = Vec::new();
        assert(reservations.deep_view() =~= Seq::<(Id, u64)>::empty());
        CostGovernor { global_budget, settled: 0, reservations }
    }

    /// The sum of all reservations.
    fn reserved(&self) -> (r: u64)
        ensures
            r == self@.reserved(),
            self@.within_budget(),
            self@.global_budget <= u64::MAX,
    {
        proof {
            use_type_invariant(self);
        }
        let ghost all = self.reservations.deep_view();
        let mut sum: u64 = 0;
        let mut i: usize = 0;
        assert(all.take(0) =~= Seq::<(Id, u64)>::empty());
        while i < self.reservations.len()
            invariant
                i <= self.reservations@.len(),
                all == self.reservations.deep_view(),
                sum == total_tokens(all.take(i as int)),
                total_tokens(all) <= u64::MAX,
            decreases self.reservations@.len() - i,
        {
            proof {
                assert(all.take(i + 1).drop_last() =~= all.take(i as int));
                lemma_total_of_prefix(all, i + 1);
            }
            sum = sum + self.reservations[i].1;
            i += 1;
        }
        assert(all.take(all.len() as int) =~= all);
        sum
    }

    /// Reserve `tokens` for `task`. Fails if the global budget cannot cover
    /// all outstanding reservations plus this one.
    pub fn reserve(&mut self, task: &str, tokens: u64) -> (r: Result<(), BudgetError>)
        ensures
            final(self)@ == old(self)@.reserve(task@, tokens),
            match r {
                Ok(_) => tokens <= old(self)@.available(),
                Err(e) => tokens > old(self)@.available() && e@ == (BudgetErrorView::Exhausted {
                    requested: tokens,
                    available: old(self)@.available() as u64,
                }),
            },
            old(self)@.within_budget(),
            final(self)@.within_budget(),
    {
        let reserved = self.reserved();
        let available = self.global_budget.saturating_sub(self.settled).saturating_sub(reserved);
        assert(available == self@.available());
        if tokens > available {
            return Err(BudgetError::Exhausted { requested: tokens, available });
        }
        let ghost before = self.reservations.deep_view();
        let mut reservations: Vec<(String, u64)> = Vec::new();
        let ghost none = reservations.deep_view();
        assert(none =~= Seq::<(Id, u64)>::empty());
        std::mem::swap(&mut reservations, &mut self.reservations);
        reservations.push((task.to_string(), tokens));
        proof {
            assert(reservations.deep_view() =~= before.push((task@, tokens)));
            assert(before.push((task@, tokens)).drop_last() =~= before);
        }
        self.reservations = reservations;
        Ok(())
    }

    /// Settle a reservation with the actual spend. Actual spend above the
    /// reservation is clamped to the reservation (the worker was cut off
    /// at its budget; the governor never books more than it authorized).
    pub fn settle(&mut self, task: &str, actual_tokens: u64) -> (r: Result<(), BudgetError>)
        ensures
            final(self)@ == old(self)@.settle(task@, actual_tokens),
            match r {
                Ok(_) => old(self)@.holds_reservation(task@),
                Err(e) => !old(self)@.holds_reservation(task@) && e@ == BudgetErrorView::NoReservation(task@),
            },
            old(self)@.within_budget(),
            final(self)@.within_budget(),
    {
        proof {
            use_type_invariant(&*self);
        }
        let ghost before = self.reservations.deep_view();
        let at = match self.position(task) {
            Some(at) => at,
            None => {
                return Err(BudgetError::NoReservation(task.to_string()));
            },
        };
        let mut reservations: Vec<(String, u64)> = Vec::new();
        assert(reservations.deep_view() =~= Seq::<(Id, u64)>::empty());
        std::mem::swap(&mut reservations, &mut self.reservations);
        let ghost moved = reservations@;
        let (_, reserved) = reservations.swap_remove(at);
        proof {
            assert(reservations.deep_view() =~= before.update(at as int, before.last()).drop_last());
            lemma_total_swap_remove(before, at as int);
        }
        let spent = if actual_tokens < reserved {
            actual_tokens
        } else {
            reserved
        };
        let settled = self.settled + spent;
        self.settled = settled;
        self.reservations = reservations;
        Ok(())
    }

    /// The place of the first reservation for `task`.
    fn position(&self, task: &str) -> (r: Option<usize>)
        ensures
            match r {
                Some(at) => at == first_reservation(self@.reservations, task@) && at < self@.reservations.len(),
                None => !self@.holds_reservation(task@),
            },
    {
        let ghost all = self.reservations.deep_view();
        let mut i: usize = 0;
        assert(all.skip(0) =~= all);
        while i < self.reservations.len()
            invariant
                i <= self.reservations@.len(),
                all == self.reservations.deep_view(),
                all == self@.reservations,
                first_reservation(all, task@) == i + first_reservation(all.skip(i as int), task@),
            decreases self.reservations@.len() - i,
        {
            proof {
                assert(all.skip(i as int).drop_first() =~= all.skip(i + 1));
                assert(all.skip(i as int)[0] == all[i as int]);
            }
            if same_text(self.reservations[i].0.as_str(), task) {
                return Some(i);
            }
            i += 1;
        }
        assert(all.skip(all.len() as int) =~= Seq::<(Id, u64)>::empty());
        None
    }

    /// Release a reservation without spend (task never ran / was retried).
    pub fn release(&mut self, task: &str)
        ensures
            final(self)@ == old(self)@.release(task@),
            old(self)@.within_budget(),
            final(self)@.within_budget(),
    {
        proof {
            use_type_invariant(&*self);
        }
        let ghost all = self.reservations.deep_view();
        let ghost others = of_others(task@);
        let mut kept: Vec<(String, u64)> = Vec::new();
        let mut i: usize = 0;
        proof {
            assert(all.take(0) =~= Seq::<(Id, u64)>::empty());
            assert(all.take(0).filter(others) =~= Seq::<(Id, u64)>::empty()) by {
                reveal(Seq::filter);
            }
            assert(kept.deep_view() =~= Seq::<(Id, u64)>::empty());
        }
        while i < self.reservations.len()
            invariant
                i <= self.reservations@.len(),
                all == self.reservations.deep_view(),
                others == of_others(task@),
                kept.deep_view() == all.take(i as int).filter(others),
            decreases self.reservations@.len() - i,
        {
            let ghost kept_before = kept.deep_view();
            proof {
                assert(all.take(i + 1).drop_last() =~= all.take(i as int));
                assert(all.take(i + 1).last() == all[i as int]);
                reveal(Seq::filter);
            }
            if !same_text(self.reservations[i].0.as_str(), task) {
                kept.push((self.reservations[i].0.clone(), self.reservations[i].1));
                assert(kept.deep_view() =~= kept_before.push(all[i as int]));
            }
            i += 1;
        }
        proof {
            assert(all.take(all.len() as int) =~= all);
            lemma_total_filter(all, others);
        }
        self.reservations = kept;
    }

    pub fn snapshot(&self) -> (r: BudgetSnapshot)
        ensures
            r.global_budget == self@.global_budget,
            r.settled == self@.settled,
            r.reserved == self@.reserved(),
            r.available == self@.available(),
            self@.within_budget(),
    {
        let reserved = self.reserved();
        BudgetSnapshot {
            global_budget: self.global_budget,
            settled: self.settled,
            reserved,
            available: self.global_budget.saturating_sub(self.settled).saturating_sub(reserved),
        }
    }
}

proof fn lemma_total_of_prefix(all: Seq<(Id, u64)>, i: int)
    requires
        0 <= i <= all.len(),
    ensures
        total_tokens(all.take(i)) <= total_tokens(all),
    decreases all.len() - i,
{
    if i < all.len() {
        lemma_total_of_prefix(all, i + 1);
        assert(all.take(i + 1).drop_last() =~= all.take(i));
    } else {
        assert(all.take(i) =~= all);
    }
}

/// Taking one entry out lessens the total by its tokens.
pub proof fn lemma_total_swap_remove(all: Seq<(Id, u64)>, at: int)
    requires
        0 <= at < all.len(),
    ensures
        total_tokens(all.update(at, all.last()).drop_last()) + all[at].1 == total_tokens(all),
{
    let n = all.len() - 1;
    if at == n {
        assert(all.update(at, all.last()).drop_last() =~= all.drop_last());
    } else {
        lemma_total_update(all.drop_last(), at, all.last());
        assert(all.update(at, all.last()).drop_last() =~= all.drop_last().update(at, all.last()));
    }
}

proof fn lemma_total_update(all: Seq<(Id, u64)>, at: int, r: (Id, u64))
    requires
        0 <= at < all.len(),
    ensures
        total_tokens(all.update(at, r)) + all[at].1 == total_tokens(all) + r.1,
    decreases all.len(),
{
    let front = all.drop_last();
    if at == all.len() - 1 {
        assert(all.update(at, r).drop_last() =~= front);
    } else {
        lemma_total_update(front, at, r);
        assert(all.update(at, r).drop_last() =~= front.update(at, r));
    }
}

/// Leaving entries out does not raise the total.
pub proof fn lemma_total_filter(all: Seq<(Id, u64)>, keep: spec_fn((Id, u64)) -> bool)
    ensures
        total_tokens(all.filter(keep)) <= total_tokens(all),
    decreases all.len(),
{
    reveal(Seq::filter);
    if all.len() > 0 {
        lemma_total_filter(all.drop_last(), keep);
        if keep(all.last()) {
            assert(all.drop_last().filter(keep).push(all.last()).drop_last() =~= all.drop_last().filter(keep));
        }
    }
}

} // verus!
