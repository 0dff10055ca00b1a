//! Laws of the books, told by what each entry and each token becomes.

use crate::budget::{
    first_reservation, of_others, total_tokens, BudgetError, BudgetErrorView, GovernorView,
};
use crate::laws::lemma_first_reservation;
use crate::model::release_all;
use crate::order::Id;
use crate::text::decimal;
use vstd::prelude::*;

verus! {

/// The tokens of all reservations for `task` together.
pub open spec fn tokens_of(reservations: Seq<(Id, u64)>, task: Id) -> nat
    decreases reservations.len(),
{
    if reservations.len() == 0 {
        0
    } else {
        tokens_of(reservations.drop_last(), task) + if reservations.last().0 == task {
            reservations.last().1 as nat
        } else {
            0nat
        }
    }
}

/// The reserved tokens of two lists of reservations are those of the one and
/// those of the other; a single reservation counts its tokens.
pub proof fn reserved_tokens_add_up(a: Seq<(Id, u64)>, b: Seq<(Id, u64)>, r: (Id, u64))
    ensures
        total_tokens(Seq::<(Id, u64)>::empty()) == 0,
        total_tokens(seq![r]) == r.1,
        total_tokens(a + b) == total_tokens(a) + total_tokens(b),
    decreases b.len(),
{
    assert(seq![r].drop_last() =~= Seq::<(Id, u64)>::empty());
    assert(total_tokens(seq![r].drop_last()) == 0);
    if b.len() == 0 {
        assert(a + b =~= a);
    } else {
        reserved_tokens_add_up(a, b.drop_last(), r);
        assert((a + b).drop_last() =~= a + b.drop_last());
    }
}

/// Every token of the budget is spent, reserved or available.
pub proof fn every_token_is_accounted_for(g: GovernorView)
    ensures
        g.available() + g.settled + total_tokens(g.reservations) == g.global_budget,
        g.reserved() == total_tokens(g.reservations),
        g.within_budget() <==> g.available() >= 0,
{
}

/// A task holds a reservation if and only if one is on the list, and what the
/// next settlement closes is the one that stands first.
pub proof fn first_come_first_settled(g: GovernorView, task: Id, i: int)
    ensures
        g.holds_reservation(task) <==> exists|j: int|
            0 <= j < g.reservations.len() && (#[trigger] g.reservations[j]).0 == task,
        0 <= i < g.reservations.len() && g.reservations[i].0 == task && (forall|j: int|
            0 <= j < i ==> (#[trigger] g.reservations[j]).0 != task) ==> g.reservation(task) == g.reservations[i].1,
{
    let all = g.reservations;
    lemma_first_reservation(all, task);
    let at = first_reservation(all, task);
    if at < all.len() {
        assert(all[at].0 == task);
    }
}

/// A reservation is entered behind all others if and only if the budget covers
/// it with all that is spent and reserved; the rest of the books stays.
pub proof fn reservation_is_entered_if_it_fits(g: GovernorView, task: Id, tokens: u64)
    ensures
        g.settled + total_tokens(g.reservations) + tokens <= g.global_budget ==> g.reserve(task, tokens).reservations
            == g.reservations.push((task, tokens)),
        g.settled + total_tokens(g.reservations) + tokens > g.global_budget ==> g.reserve(task, tokens).reservations
            == g.reservations,
        g.reserve(task, tokens).settled == g.settled,
        g.reserve(task, tokens).global_budget == g.global_budget,
{
}

/// A reservation that is entered takes its tokens, no more and no fewer, from
/// what is available.
pub proof fn reservation_takes_its_tokens(g: GovernorView, task: Id, tokens: u64)
    requires
        tokens <= g.available(),
    ensures
        g.reserve(task, tokens).available() == g.available() - tokens,
        g.reserve(task, tokens).holds_reservation(task),
{
    let more = g.reservations.push((task, tokens));
    assert(more.drop_last() =~= g.reservations);
    first_come_first_settled(g.reserve(task, tokens), task, 0);
    assert(more[g.reservations.len() as int].0 == task);
}

/// A settlement takes the first reservation of the task, at place `i`, off the
/// list: what stands before it stays, the last one moves to its place, and what
/// stands between stays. The smaller of what was spent and what was reserved is
/// booked.
pub proof fn settlement_closes_the_first_reservation(g: GovernorView, task: Id, actual: u64, i: int)
    requires
        0 <= i < g.reservations.len(),
        g.reservations[i].0 == task,
        forall|j: int| 0 <= j < i ==> (#[trigger] g.reservations[j]).0 != task,
    ensures
        ({
            let t = g.settle(task, actual);
            let n = g.reservations.len() - 1;
            &&& t.reservations.len() == n
            &&& forall|j: int| 0 <= j < n && j != i ==> #[trigger] t.reservations[j] == g.reservations[j]
            &&& i < n ==> t.reservations[i] == g.reservations[n]
            &&& actual <= g.reservations[i].1 ==> t.settled == g.settled + actual
            &&& actual >= g.reservations[i].1 ==> t.settled == g.settled + g.reservations[i].1
            &&& t.global_budget == g.global_budget
        }),
{
    lemma_first_reservation(g.reservations, task);
    let at = first_reservation(g.reservations, task);
    if at < g.reservations.len() {
        assert(g.reservations[at].0 == task);
    }
    assert(at == i);
}

/// A settlement for a task without a reservation changes nothing.
pub proof fn settlement_needs_a_reservation(g: GovernorView, task: Id, actual: u64)
    requires
        forall|j: int| 0 <= j < g.reservations.len() ==> (#[trigger] g.reservations[j]).0 != task,
    ensures
        g.settle(task, actual) == g,
{
    first_come_first_settled(g, task, 0);
}

proof fn lemma_filter_of(all: Seq<(Id, u64)>, task: Id)
    ensures
        total_tokens(all.filter(of_others(task))) + tokens_of(all, task) == total_tokens(all),
    decreases all.len(),
{
    reveal(Seq::filter);
    if all.len() > 0 {
        let front = all.drop_last();
        lemma_filter_of(front, task);
        let kept = front.filter(of_others(task));
        assert(kept.push(all.last()).drop_last() =~= kept);
    }
}

/// A release spends nothing: what was booked stays booked, and every token that
/// the task had reserved is available again, whatever else is reserved.
pub proof fn release_spends_nothing(g: GovernorView, task: Id)
    ensures
        g.release(task).settled == g.settled,
        g.release(task).global_budget == g.global_budget,
        g.release(task).available() == g.available() + tokens_of(g.reservations, task),
{
    lemma_filter_of(g.reservations, task);
}

/// A release goes entry by entry: the entries of the task go, all others stay
/// as they are and where they stand.
pub proof fn release_goes_entry_by_entry(
    g: GovernorView,
    task: Id,
    a: Seq<(Id, u64)>,
    r: (Id, u64),
    b: Seq<(Id, u64)>,
)
    requires
        g.reservations == a.push(r) + b,
    ensures
        ({
            let before = GovernorView { reservations: a, ..g }.release(task).reservations;
            let behind = GovernorView { reservations: b, ..g }.release(task).reservations;
            let kept = g.release(task).reservations;
            &&& r.0 == task ==> kept == before + behind
            &&& r.0 != task ==> kept == before.push(r) + behind
        }),
        (GovernorView { reservations: Seq::<(Id, u64)>::empty(), ..g }).release(task).reservations.len() == 0,
{
    let keep = of_others(task);
    reveal(Seq::filter);
    lemma_filter_append(a.push(r), b, keep);
    assert(a.push(r).drop_last() =~= a);
    assert(a.push(r).last() == r);
}

proof fn lemma_filter_append(a: Seq<(Id, u64)>, b: Seq<(Id, u64)>, keep: spec_fn((Id, u64)) -> bool)
    ensures
        (a + b).filter(keep) == a.filter(keep) + b.filter(keep),
    decreases b.len(),
{
    reveal(Seq::filter);
    if b.len() == 0 {
        assert(a + b =~= a);
        assert(a.filter(keep) + b.filter(keep) =~= a.filter(keep));
    } else {
        lemma_filter_append(a, b.drop_last(), keep);
        assert((a + b).drop_last() =~= a + b.drop_last());
        assert((a + b).last() == b.last());
        assert((a + b).filter(keep) =~= a.filter(keep) + b.filter(keep));
    }
}

/// Releases for several tasks are the releases for each: they spend nothing,
/// leave no reservation of any of the tasks, and every reservation of every
/// other task.
pub proof fn releases_spend_nothing(g: GovernorView, ids: Seq<Id>)
    ensures
        release_all(g, ids).settled == g.settled,
        release_all(g, ids).global_budget == g.global_budget,
        forall|j: int| 0 <= j < release_all(g, ids).reservations.len() ==> !ids.contains(
            (#[trigger] release_all(g, ids).reservations[j]).0,
        ),
        forall|task: Id| #[trigger] tokens_of(release_all(g, ids).reservations, task) == if ids.contains(task) {
            0
        } else {
            tokens_of(g.reservations, task)
        },
    decreases ids.len(),
{
    if ids.len() > 0 {
        let front = ids.drop_last();
        let last = ids.last();
        releases_spend_nothing(g, front);
        let m = release_all(g, front);
        let t = release_all(g, ids);
        assert forall|x: Id| #[trigger] ids.contains(x) <==> front.contains(x) || x == last by {
            if ids.contains(x) {
                let i = choose|i: int| 0 <= i < ids.len() && ids[i] == x;
                if i < front.len() {
                    assert(front[i] == x);
                }
            }
            if front.contains(x) {
                let i = choose|i: int| 0 <= i < front.len() && front[i] == x;
                assert(ids[i] == x);
            }
            if x == last {
                assert(ids[ids.len() - 1] == x);
            }
        }
        lemma_kept_entries(m.reservations, last);
        assert forall|j: int| 0 <= j < t.reservations.len() implies !ids.contains((#[trigger] t.reservations[j]).0) by {
            let r = t.reservations[j];
            let i = choose|i: int| 0 <= i < m.reservations.len() && m.reservations[i] == r;
            assert(!front.contains(m.reservations[i].0));
        }
        assert forall|task: Id| #[trigger] tokens_of(t.reservations, task) == if ids.contains(task) {
            0
        } else {
            tokens_of(g.reservations, task)
        } by {
            lemma_tokens_kept(m.reservations, last, task);
            assert(tokens_of(m.reservations, task) == if front.contains(task) {
                0
            } else {
                tokens_of(g.reservations, task)
            });
        }
    }
}

proof fn lemma_kept_entries(all: Seq<(Id, u64)>, task: Id)
    ensures
        forall|j: int| 0 <= j < all.filter(of_others(task)).len() ==> {
            &&& (#[trigger] all.filter(of_others(task))[j]).0 != task
            &&& exists|i: int| 0 <= i < all.len() && all[i] == all.filter(of_others(task))[j]
        },
    decreases all.len(),
{
    reveal(Seq::filter);
    if all.len() > 0 {
        let front = all.drop_last();
        lemma_kept_entries(front, task);
        let kept = all.filter(of_others(task));
        let part = front.filter(of_others(task));
        assert forall|j: int| 0 <= j < kept.len() implies (#[trigger] kept[j]).0 != task && exists|i: int|
            0 <= i < all.len() && all[i] == kept[j] by {
            if j < part.len() {
                assert(part[j] == kept[j]);
                let i = choose|i: int| 0 <= i < front.len() && front[i] == part[j];
                assert(all[i] == kept[j]);
            } else {
                assert(all[all.len() - 1] == kept[j]);
            }
        }
    }
}

proof fn lemma_tokens_kept(all: Seq<(Id, u64)>, gone: Id, task: Id)
    ensures
        tokens_of(all.filter(of_others(gone)), task) == if task == gone {
            0
        } else {
            tokens_of(all, task)
        },
    decreases all.len(),
{
    reveal(Seq::filter);
    if all.len() > 0 {
        let front = all.drop_last();
        lemma_tokens_kept(front, gone, task);
        let part = front.filter(of_others(gone));
        assert(part.push(all.last()).drop_last() =~= part);
    }
}

/// What budget errors say.
pub proof fn budget_errors_say_what_is_wrong(requested: u64, available: u64, task: Id)
    ensures
        (BudgetErrorView::Exhausted { requested, available }).message() == "global budget exhausted: requested "@ + decimal(
            requested as nat,
        ) + ", available "@ + decimal(available as nat),
        BudgetErrorView::NoReservation(task).message() == "no reservation found for task "@ + task,
{
}

/// The view of a budget error leaves nothing out.
pub proof fn budget_errors_are_seen_whole(e: BudgetError)
    ensures
        match e {
            BudgetError::Exhausted { requested, available } => e@
                == (BudgetErrorView::Exhausted { requested, available }),
            BudgetError::NoReservation(task) => e@ == BudgetErrorView::NoReservation(task@),
        },
{
}

} // verus!
