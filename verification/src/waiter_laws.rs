//! What joining, leaving and waking do to the queues of the waiters, entry by
//! entry, and what the number of waiters stands for.
use vstd::prelude::*;
use crate::waiters::{
    BuddyRegistrationView, Delivery, EntryState, NotifyView, SlotView, WaiterEntry, WaitersView,
};

verus! {

/// No entry from `lo` on and before `hi` is live.
pub open spec fn all_revoked(queue: Seq<WaiterEntry>, lo: int, hi: int) -> bool {
    forall|i: int| lo <= i < hi ==> (#[trigger] queue[i]).state == EntryState::Revoked
}

/// The entry at `k` is live, and it is the only live one of its id.
pub open spec fn sole_live(queue: Seq<WaiterEntry>, id: u64, k: int) -> bool {
    &&& 0 <= k < queue.len()
    &&& queue[k].id == id
    &&& queue[k].state == EntryState::Live
    &&& forall|i: int|
        0 <= i < queue.len() && i != k && (#[trigger] queue[i]).id == id ==> queue[i].state
            == EntryState::Revoked
}

/// The first live entry of a queue is the live one with only revoked ones
/// before it; the first live entry of an id likewise.
pub proof fn law_first_live_entries(queue: Seq<WaiterEntry>, id: u64, k: int)
    requires
        0 <= k < queue.len(),
        queue[k].state == EntryState::Live,
    ensures
        all_revoked(queue, 0, k) ==> crate::waiters::first_live(queue) == k,
        queue[k].id == id && (forall|i: int|
            0 <= i < k && (#[trigger] queue[i]).id == id ==> queue[i].state == EntryState::Revoked)
            ==> crate::waiters::find_live(queue, id) == k,
{
    if all_revoked(queue, 0, k) {
        crate::waiters::lemma_first_live_is(queue, k);
    }
    if queue[k].id == id && (forall|i: int|
        0 <= i < k && (#[trigger] queue[i]).id == id ==> queue[i].state == EntryState::Revoked) {
        crate::waiters::lemma_find_live(queue, id, k);
    }
}

/// Entries are live or revoked; the live ones are counted one by one.
pub proof fn law_live_entries_are_counted(queue: Seq<WaiterEntry>, entry: WaiterEntry)
    ensures
        crate::waiters::live_count(Seq::empty()) == 0,
        entry.state == EntryState::Live ==> crate::waiters::live_count(queue.push(entry))
            == crate::waiters::live_count(queue) + 1,
        entry.state == EntryState::Revoked ==> crate::waiters::live_count(queue.push(entry))
            == crate::waiters::live_count(queue),
{
    assert(queue.push(entry).drop_last() =~= queue);
}

/// The head timestamp belongs to the first live entry; without one it is the
/// greatest value.
pub proof fn law_head_is_the_first_live_entry(queue: Seq<WaiterEntry>, k: int)
    ensures
        0 <= k < queue.len() && queue[k].state == EntryState::Live && all_revoked(queue, 0, k)
            ==> crate::waiters::head_of(queue) == queue[k].timestamp,
        all_revoked(queue, 0, queue.len() as int) ==> crate::waiters::head_of(queue) == u64::MAX,
{
    if 0 <= k < queue.len() && queue[k].state == EntryState::Live && all_revoked(queue, 0, k) {
        crate::waiters::lemma_first_live_is(queue, k);
    }
    if all_revoked(queue, 0, queue.len() as int) {
        crate::waiters::lemma_first_live_is(queue, queue.len() as int);
    }
}

/// Who joins stands last, behind everybody who was there, and is counted; the
/// head timestamp is the newcomer's where nobody waited.
pub proof fn law_joining_goes_to_the_end(slot: SlotView, entry: WaiterEntry, i: int)
    ensures
        slot.joined(entry).queue.len() == slot.queue.len() + 1,
        slot.joined(entry).queue.last() == entry,
        0 <= i < slot.queue.len() ==> slot.joined(entry).queue[i] == slot.queue[i],
        slot.count < usize::MAX ==> slot.joined(entry).count == slot.count + 1,
        slot.count == 0 ==> slot.joined(entry).head_timestamp == entry.timestamp,
        slot.count > 0 ==> slot.joined(entry).head_timestamp == slot.head_timestamp,
{
}

/// Who leaves revokes its own entry and no other. Every other entry stays as it
/// is at its place, above all every live one of another id. Where ids are
/// distinct no live entry of the id remains, and one waiter less is counted.
pub proof fn law_leaving_revokes_its_own_entry_only(slot: SlotView, id: u64)
    ensures
        slot.left(id).queue.len() == slot.queue.len(),
        slot.left(id).head_timestamp == slot.head_timestamp,
        forall|i: int|
            0 <= i < slot.queue.len() && (slot.queue[i].id != id || slot.queue[i].state
                == EntryState::Revoked) ==> #[trigger] slot.left(id).queue[i] == slot.queue[i],
        forall|i: int|
            0 <= i < slot.queue.len() ==> (#[trigger] slot.left(id).queue[i]).id
                == slot.queue[i].id && slot.left(id).queue[i].timestamp == slot.queue[i].timestamp,
        forall|k: int| #[trigger]
            sole_live(slot.queue, id, k) ==> {
                &&& slot.left(id).queue[k].state == EntryState::Revoked
                &&& slot.left(id).count == slot.count.wrapping_sub(1)
                &&& forall|i: int|
                    0 <= i < slot.queue.len() && (#[trigger] slot.left(id).queue[i]).id == id
                        ==> slot.left(id).queue[i].state == EntryState::Revoked
            },
        (forall|i: int|
            0 <= i < slot.queue.len() && (#[trigger] slot.queue[i]).id == id ==> slot.queue[i].state
                == EntryState::Revoked) ==> slot.left(id) == slot,
{
    let q = crate::waiters::find_live(slot.queue, id);
    crate::waiters::lemma_find_live_bounds(slot.queue, id);
    assert forall|k: int| #[trigger] sole_live(slot.queue, id, k) implies {
        &&& slot.left(id).queue[k].state == EntryState::Revoked
        &&& slot.left(id).count == slot.count.wrapping_sub(1)
        &&& forall|i: int|
            0 <= i < slot.queue.len() && (#[trigger] slot.left(id).queue[i]).id == id
                ==> slot.left(id).queue[i].state == EntryState::Revoked
    } by {
        if q < k {
            assert(slot.queue[q].id == id);
        }
        assert(q == k);
    }
}

/// A registration that is taken back leaves the queue of its order; one that is
/// not queued changes nothing. No other order changes.
pub proof fn law_taking_back_touches_one_order(
    view: WaitersView,
    reg: BuddyRegistrationView,
    o: int,
    i: int,
)
    requires
        0 <= reg.order < view.orders.len(),
        0 <= o < view.orders.len(),
    ensures
        view.revoked(reg).orders.len() == view.orders.len(),
        !reg.registered || o != reg.order ==> view.revoked(reg).orders[o] == view.orders[o],
        0 <= i < view.orders[o].queue.len() && (view.orders[o].queue[i].id != reg.id
            || view.orders[o].queue[i].state == EntryState::Revoked)
            ==> view.revoked(reg).orders[o].queue[i] == view.orders[o].queue[i],
        reg.registered && sole_live(view.orders[reg.order].queue, reg.id, i)
            ==> view.revoked(reg).orders[reg.order].queue[i].state == EntryState::Revoked,
        view.revoked(reg).fixed_count == view.fixed_count,
        view.revoked(reg).last_winner == view.last_winner,
        view.revoked(reg).streak == view.streak,
        view.revoked(reg).next_id == view.next_id,
{
    law_leaving_revokes_its_own_entry_only(view.orders[reg.order], reg.id);
}

/// An order takes part in the ranking where someone waits there and the freed
/// block is large enough.
pub proof fn law_who_can_be_served(view: WaitersView, freed_order: int, order: int)
    requires
        0 <= order < view.orders.len(),
    ensures
        view.candidate(freed_order, order) <==> order <= freed_order && view.orders[order].count
            > 0 && view.orders[order].head_timestamp < u64::MAX,
{
}

/// Orders are ranked by the age of their head waiter, where each order counts
/// for 50 microseconds and each waiter for 5; of equally old ones the smaller
/// goes first.
pub proof fn law_age_and_depth_decide(view: WaitersView, a: int, b: int)
    ensures
        view.effective_age(a) == {
            let age = view.orders[a].head_timestamp - 50_000 * a - 5_000 * view.orders[a].count;
            if age > 0 {
                age
            } else {
                0
            }
        },
        view.before(a, b) <==> view.effective_age(a) < view.effective_age(b)
            || view.effective_age(a) == view.effective_age(b) && a < b,
{
    assert(a * 50_000 == 50_000 * a);
}

/// Only an order that won the last ten wakes is passed over, and only while
/// another one can be served.
pub proof fn law_who_is_passed_over(view: WaitersView, freed_order: int, order: int, other: int)
    ensures
        view.passed_over(freed_order, order) ==> view.streak >= 10 && order == view.last_winner,
        view.streak >= 10 && order == view.last_winner && other != order && view.candidate(
            freed_order,
            other,
        ) ==> view.passed_over(freed_order, order),
        view.passed_over(freed_order, order) ==> exists|o: int|
            o != order && #[trigger] view.candidate(freed_order, o),
        view.runs(freed_order, order) <==> view.candidate(freed_order, order)
            && !view.passed_over(freed_order, order),
{
}

/// The waiters after wakes of `winners` were delivered, one after the other.
pub open spec fn after_wins(view: WaitersView, winners: Seq<usize>) -> WaitersView
    decreases winners.len(),
{
    if winners.len() == 0 {
        view
    } else {
        after_wins(view, winners.drop_last()).won(winners.last())
    }
}

/// After any history of delivered wakes the streak is the number of wins in a
/// row that its last order has: the order won that often at the end, and the
/// win before went elsewhere.
pub proof fn law_streak_counts_wins_in_a_row(num_orders: nat, winners: Seq<usize>)
    requires
        0 < winners.len() < u32::MAX,
    ensures
        ({
            let end = after_wins(WaitersView::fresh(num_orders), winners);
            &&& end.last_winner == winners.last()
            &&& 1 <= end.streak <= winners.len()
            &&& forall|i: int|
                winners.len() - end.streak <= i < winners.len() ==> #[trigger] winners[i]
                    == winners.last()
            &&& end.streak < winners.len() ==> winners[winners.len() - end.streak - 1]
                != winners.last()
            &&& end.orders == WaitersView::fresh(num_orders).orders
        }),
    decreases winners.len(),
{
    let rest = winners.drop_last();
    if rest.len() > 0 {
        law_streak_counts_wins_in_a_row(num_orders, rest);
        let mid = after_wins(WaitersView::fresh(num_orders), rest);
        let end = after_wins(WaitersView::fresh(num_orders), winners);
        assert(rest.last() == winners[winners.len() - 2]);
        assert forall|i: int|
            winners.len() - end.streak <= i < winners.len() implies #[trigger] winners[i]
            == winners.last() by {
            if i < rest.len() {
                assert(rest[i] == winners[i]);
            }
        }
        if end.streak < winners.len() && winners.last() == rest.last() {
            assert(rest[rest.len() - mid.streak - 1] == winners[winners.len() - end.streak - 1]);
        }
    } else {
        reveal_with_fuel(after_wins, 2);
    }
}

/// At first nobody waits and nobody has won.
pub proof fn law_nobody_waits_at_first(num_orders: nat, o: int)
    requires
        0 <= o < num_orders,
    ensures
        WaitersView::fresh(num_orders).orders.len() == num_orders,
        WaitersView::fresh(num_orders).orders[o].queue.len() == 0,
        WaitersView::fresh(num_orders).orders[o].count == 0,
        WaitersView::fresh(num_orders).orders[o].head_timestamp == u64::MAX,
        WaitersView::fresh(num_orders).fixed_count == 0,
        WaitersView::fresh(num_orders).streak == 0,
{
}

/// A wake touches an order of the ranking at the front of its queue only. It
/// takes off revoked entries, and then at most one live one, which is sent a
/// wake; nobody else of the order is. The count goes down by one where a live
/// entry was taken, and the head timestamp is then that of the next live one.
/// `taken` is the number of entries that leave the queue.
#[verifier::rlimit(40)]
pub proof fn law_waking_takes_the_longest_waiter(
    view: WaitersView,
    ranking: Seq<usize>,
    pops: int,
    o: usize,
    id: u64,
) -> (taken: int)
    requires
        0 <= pops <= 8,
        o < view.orders.len(),
        forall|i: int| 0 <= i < ranking.len() ==> #[trigger] ranking[i] < view.orders.len(),
        forall|i: int, j: int|
            0 <= i < j < ranking.len() ==> #[trigger] ranking[i] != #[trigger] ranking[j],
    ensures
        ({
            let (after, sent) = view.woken(ranking, pops);
            let queue = view.orders[o as int].queue;
            let end = after.orders[o as int];
            let woke = taken > 0 && queue[taken - 1].state == EntryState::Live;
            &&& 0 <= taken <= queue.len()
            &&& end.queue == queue.skip(taken)
            &&& all_revoked(queue, 0, taken - 1)
            &&& !ranking.contains(o) ==> end == view.orders[o as int]
            &&& sent.contains(Delivery { order: o, id }) <==> woke && queue[taken - 1].id == id
            &&& woke ==> end.count == view.orders[o as int].count.wrapping_sub(1)
            &&& woke && (forall|i: int|
                taken <= i < queue.len() ==> (#[trigger] queue[i]).state == EntryState::Revoked)
                ==> end.head_timestamp == u64::MAX
            &&& forall|k: int|
                woke && taken <= k < queue.len() && (#[trigger] queue[k]).state == EntryState::Live
                    && all_revoked(queue, taken, k) ==> end.head_timestamp == queue[k].timestamp
            &&& !woke ==> end.count == view.orders[o as int].count
            &&& !woke ==> end.head_timestamp == view.orders[o as int].head_timestamp
            &&& after.orders.len() == view.orders.len()
            &&& after.fixed_count == view.fixed_count
            &&& after.last_winner == view.last_winner
            &&& after.streak == view.streak
            &&& after.next_id == view.next_id
        }),
    decreases ranking.len(),
{
    let wanted = Delivery { order: o, id };
    let queue = view.orders[o as int].queue;
    let (after, sent) = view.woken(ranking, pops);
    if ranking.len() == 0 {
        assert(queue.skip(0) =~= queue);
        0
    } else {
        let at = ranking[0];
        let slot = view.orders[at as int];
        let first = crate::waiters::first_live(slot.queue);
        let spent = pops + slot.stale();
        let rest = ranking.skip(1);
        crate::waiters::lemma_first_live(slot.queue);
        assert forall|i: int| 0 <= i < first implies (#[trigger] slot.queue[i]).state
            == EntryState::Revoked by {
            assert(!crate::waiters::is_live(slot.queue[i]));
        }
        assert forall|i: int| 0 <= i < rest.len() implies #[trigger] rest[i]
            < view.orders.len() by {
            assert(rest[i] == ranking[i + 1]);
        }
        assert forall|i: int, j: int| 0 <= i < j < rest.len() implies #[trigger] rest[i]
            != #[trigger] rest[j] by {
            assert(rest[i] == ranking[i + 1] && rest[j] == ranking[j + 1]);
        }
        assert(!rest.contains(at)) by {
            if rest.contains(at) {
                let k = choose|k: int| 0 <= k < rest.len() && rest[k] == at;
                assert(ranking[k + 1] == ranking[0]);
            }
        }
        assert(ranking.contains(o) <==> o == at || rest.contains(o)) by {
            if ranking.contains(o) && o != at {
                let k = choose|k: int| 0 <= k < ranking.len() && ranking[k] == o;
                assert(rest[k - 1] == o);
            }
            if rest.contains(o) {
                let k = choose|k: int| 0 <= k < rest.len() && rest[k] == o;
                assert(ranking[k + 1] == o);
            }
            assert(ranking[0] == at);
        }
        if spent > 8 {
            if o == at {
                assert(!sent.contains(wanted));
                8 - pops
            } else {
                assert(queue.skip(0) =~= queue);
                0
            }
        } else if first < slot.queue.len() {
            let next = view.with_slot(at as int, slot.served());
            let later = next.woken(rest, spent).1;
            let t = law_waking_takes_the_longest_waiter(next, rest, spent, o, id);
            let mine = Delivery { order: at, id: slot.queue[first].id };
            assert(sent == seq![mine] + later);
            assert(sent.contains(wanted) <==> mine == wanted || later.contains(wanted)) by {
                if sent.contains(wanted) {
                    let k = choose|k: int| 0 <= k < sent.len() && sent[k] == wanted;
                    if k > 0 {
                        assert(later[k - 1] == wanted);
                    }
                }
                assert(sent[0] == mine);
                if later.contains(wanted) {
                    let k = choose|k: int| 0 <= k < later.len() && later[k] == wanted;
                    assert(sent[k + 1] == wanted);
                }
            }
            if o == at {
                let left = queue.skip(first + 1);
                assert(after.orders[o as int] == slot.served());
                assert(!later.contains(wanted)) by {
                    lemma_sent_are_ranked(next, rest, spent);
                    if later.contains(wanted) {
                        let k = choose|k: int| 0 <= k < later.len() && later[k] == wanted;
                        assert(rest.contains(later[k].order));
                    }
                }
                assert forall|k: int|
                    first + 1 <= k < queue.len() && (#[trigger] queue[k]).state == EntryState::Live
                        && all_revoked(queue, first + 1, k) implies slot.served().head_timestamp
                    == queue[k].timestamp by {
                    assert(left[k - first - 1] == queue[k]);
                    assert forall|i: int| 0 <= i < k - first - 1 implies (#[trigger] left[i]).state
                        == EntryState::Revoked by {
                        assert(left[i] == queue[first + 1 + i]);
                    }
                    law_head_is_the_first_live_entry(left, k - first - 1);
                }
                if forall|i: int|
                    first + 1 <= i < queue.len() ==> (#[trigger] queue[i]).state
                        == EntryState::Revoked {
                    assert forall|i: int| 0 <= i < left.len() implies (#[trigger] left[i]).state
                        == EntryState::Revoked by {
                        assert(left[i] == queue[first + 1 + i]);
                    }
                    law_head_is_the_first_live_entry(left, 0);
                }
                first + 1
            } else {
                t
            }
        } else {
            let next = view.with_slot(at as int, slot.drained());
            let t = law_waking_takes_the_longest_waiter(next, rest, spent, o, id);
            if o == at {
                assert(after.orders[o as int] == slot.drained());
                assert(!sent.contains(wanted)) by {
                    lemma_sent_are_ranked(next, rest, spent);
                    if sent.contains(wanted) {
                        let k = choose|k: int| 0 <= k < sent.len() && sent[k] == wanted;
                        assert(rest.contains(sent[k].order));
                    }
                }
                assert(queue.skip(queue.len() as int) =~= Seq::empty());
                queue.len() as int
            } else {
                t
            }
        }
    }
}

proof fn lemma_sent_are_ranked(view: WaitersView, ranking: Seq<usize>, pops: int)
    requires
        0 <= pops <= 8,
    ensures
        forall|i: int|
            0 <= i < view.woken(ranking, pops).1.len() ==> ranking.contains(
                (#[trigger] view.woken(ranking, pops).1[i]).order,
            ),
{
    let sent = view.woken(ranking, pops).1;
    let at = crate::waiters::lemma_sent(view, ranking, pops);
    assert forall|i: int| 0 <= i < sent.len() implies ranking.contains(
        (#[trigger] sent[i]).order,
    ) by {
        assert(ranking[at[i]] == sent[i].order);
    }
}

/// Number of entries in all queues.
pub open spec fn queued(orders: Seq<SlotView>) -> nat
    decreases orders.len(),
{
    if orders.len() == 0 {
        0
    } else {
        queued(orders.drop_last()) + orders.last().queue.len()
    }
}

proof fn lemma_queued_update(orders: Seq<SlotView>, o: int, slot: SlotView)
    requires
        0 <= o < orders.len(),
    ensures
        queued(orders.update(o, slot)) == queued(orders) - orders[o].queue.len() + slot.queue.len(),
    decreases orders.len(),
{
    let changed = orders.update(o, slot);
    if o == orders.len() - 1 {
        assert(changed.drop_last() =~= orders.drop_last());
    } else {
        assert(changed.drop_last() =~= orders.drop_last().update(o, slot));
        lemma_queued_update(orders.drop_last(), o, slot);
    }
}

/// One wake takes at most eight revoked entries off all queues together, and
/// one entry for each wake that it sends.
pub proof fn law_wakes_are_bounded(view: WaitersView, ranking: Seq<usize>, pops: int)
    requires
        0 <= pops <= 8,
        forall|i: int| 0 <= i < ranking.len() ==> #[trigger] ranking[i] < view.orders.len(),
    ensures
        ({
            let (after, sent) = view.woken(ranking, pops);
            queued(view.orders) <= queued(after.orders) + sent.len() + (8 - pops)
        }),
    decreases ranking.len(),
{
    if ranking.len() > 0 {
        let at = ranking[0] as int;
        let slot = view.orders[at];
        let spent = pops + slot.stale();
        let rest = ranking.skip(1);
        crate::waiters::lemma_first_live(slot.queue);
        assert forall|i: int| 0 <= i < rest.len() implies #[trigger] rest[i]
            < view.orders.len() by {
            assert(rest[i] == ranking[i + 1]);
        }
        if spent > 8 {
            lemma_queued_update(view.orders, at, slot.cut_short(8 - pops));
        } else if crate::waiters::first_live(slot.queue) < slot.queue.len() {
            lemma_queued_update(view.orders, at, slot.served());
            law_wakes_are_bounded(view.with_slot(at, slot.served()), rest, spent);
        } else {
            lemma_queued_update(view.orders, at, slot.drained());
            law_wakes_are_bounded(view.with_slot(at, slot.drained()), rest, spent);
        }
    }
}

/// What can happen to the registrations of a fixed arena. They are numbered in
/// the order in which they are made.
pub enum FixedWaiterEvent {
    /// A new registration.
    Register,
    /// It is counted.
    Prepare { who: int },
    /// It is taken back.
    Revoke { who: int },
    /// Its wake arrived.
    Complete { who: int },
    /// It ends.
    Cancel { who: int },
}

/// The waiters of a fixed arena with all registrations that were made. One that
/// has ended is `None`.
pub struct FixedWaiting {
    pub waiters: WaitersView,
    pub registrations: Seq<Option<NotifyView>>,
}

impl FixedWaiting {
    /// Nobody has registered.
    pub open spec fn start(num_orders: nat) -> FixedWaiting {
        FixedWaiting { waiters: WaitersView::fresh(num_orders), registrations: Seq::empty() }
    }

    /// The registration exists and has not ended.
    pub open spec fn has(self, who: int) -> bool {
        0 <= who < self.registrations.len() && self.registrations[who] is Some
    }

    /// It is counted among the waiters.
    pub open spec fn waits(self, who: int) -> bool {
        self.has(who) && self.registrations[who]->0.registered
    }

    /// The event can happen.
    pub open spec fn possible(self, event: FixedWaiterEvent) -> bool {
        match event {
            FixedWaiterEvent::Register => self.registrations.len() < usize::MAX,
            FixedWaiterEvent::Prepare { who } => self.has(who),
            FixedWaiterEvent::Revoke { who } => self.has(who),
            FixedWaiterEvent::Complete { who } => self.has(who),
            FixedWaiterEvent::Cancel { who } => self.has(who),
        }
    }

    /// What the event leads to.
    pub open spec fn next(self, event: FixedWaiterEvent) -> FixedWaiting {
        match event {
            FixedWaiterEvent::Register => FixedWaiting {
                registrations: self.registrations.push(
                    Some(NotifyView { registered: false, woken: false }),
                ),
                ..self
            },
            FixedWaiterEvent::Prepare { who } => FixedWaiting {
                waiters: if self.registrations[who]->0.registered {
                    self.waiters
                } else {
                    self.waiters.with_fixed(self.waiters.fixed_count.wrapping_add(1))
                },
                registrations: self.registrations.update(
                    who,
                    Some(NotifyView { registered: true, ..self.registrations[who]->0 }),
                ),
            },
            FixedWaiterEvent::Revoke { who } => FixedWaiting {
                waiters: self.waiters.without_fixed(self.registrations[who]->0),
                registrations: self.registrations.update(
                    who,
                    Some(NotifyView { registered: false, woken: false }),
                ),
            },
            FixedWaiterEvent::Complete { who } => FixedWaiting {
                waiters: self.waiters.without_fixed(self.registrations[who]->0),
                registrations: self.registrations.update(
                    who,
                    Some(NotifyView { registered: false, woken: true }),
                ),
            },
            FixedWaiterEvent::Cancel { who } => FixedWaiting {
                waiters: self.waiters.without_fixed(self.registrations[who]->0),
                registrations: self.registrations.update(who, None),
            },
        }
    }

    /// The events can happen, one after the other.
    pub open spec fn history(self, events: Seq<FixedWaiterEvent>) -> bool
        decreases events.len(),
    {
        events.len() > 0 ==> self.history(events.drop_last()) && self.after(
            events.drop_last(),
        ).possible(events.last())
    }

    /// After the events.
    pub open spec fn after(self, events: Seq<FixedWaiterEvent>) -> FixedWaiting
        decreases events.len(),
    {
        if events.len() == 0 {
            self
        } else {
            self.after(events.drop_last()).next(events.last())
        }
    }
}

/// Number of registrations that are counted among the waiters.
pub open spec fn number_waiting(registrations: Seq<Option<NotifyView>>) -> nat
    decreases registrations.len(),
{
    if registrations.len() == 0 {
        0
    } else {
        number_waiting(registrations.drop_last()) + (match registrations.last() {
            Some(r) => if r.registered {
                1nat
            } else {
                0nat
            },
            None => 0nat,
        })
    }
}

spec fn one_if_waiting(registration: Option<NotifyView>) -> int {
    match registration {
        Some(r) => if r.registered {
            1
        } else {
            0
        },
        None => 0,
    }
}

proof fn lemma_number_update(
    registrations: Seq<Option<NotifyView>>,
    who: int,
    new: Option<NotifyView>,
)
    requires
        0 <= who < registrations.len(),
    ensures
        number_waiting(registrations.update(who, new)) == number_waiting(registrations)
            - one_if_waiting(registrations[who]) + one_if_waiting(new),
    decreases registrations.len(),
{
    let changed = registrations.update(who, new);
    if who == registrations.len() - 1 {
        assert(changed.drop_last() =~= registrations.drop_last());
    } else {
        assert(changed.drop_last() =~= registrations.drop_last().update(who, new));
        lemma_number_update(registrations.drop_last(), who, new);
    }
}

proof fn lemma_number_bounds(registrations: Seq<Option<NotifyView>>, who: int)
    ensures
        number_waiting(registrations) <= registrations.len(),
        0 <= who < registrations.len() && registrations[who] is Some
            && registrations[who]->0.registered ==> number_waiting(registrations) > 0,
        number_waiting(registrations) > 0 ==> exists|i: int|
            0 <= i < registrations.len() && #[trigger] registrations[i] is Some
                && registrations[i]->0.registered,
    decreases registrations.len(),
{
    if registrations.len() > 0 {
        let rest = registrations.drop_last();
        lemma_number_bounds(rest, who);
        if one_if_waiting(registrations.last()) == 1 {
            assert(registrations[registrations.len() - 1] is Some);
        } else if number_waiting(registrations) > 0 {
            let i = choose|i: int|
                0 <= i < rest.len() && #[trigger] rest[i] is Some && rest[i]->0.registered;
            assert(registrations[i] is Some);
        }
    }
}

/// After any history the count of a fixed arena's waiters is the number of
/// registrations that are registered. So a freed slot wakes somebody exactly
/// when some registration still waits.
pub proof fn law_fixed_count_is_who_waits(num_orders: nat, events: Seq<FixedWaiterEvent>)
    requires
        FixedWaiting::start(num_orders).history(events),
    ensures
        ({
            let end = FixedWaiting::start(num_orders).after(events);
            &&& end.waiters.fixed_count == number_waiting(end.registrations)
            &&& end.waiters.fixed_count > 0 <==> exists|who: int| #[trigger] end.waits(who)
            &&& end.waiters.orders == WaitersView::fresh(num_orders).orders
        }),
{
    let end = FixedWaiting::start(num_orders).after(events);
    lemma_fixed_count(num_orders, events);
    lemma_number_bounds(end.registrations, 0);
    if exists|who: int| #[trigger] end.waits(who) {
        let who = choose|who: int| #[trigger] end.waits(who);
        lemma_number_bounds(end.registrations, who);
    }
    if end.waiters.fixed_count > 0 {
        let i = choose|i: int|
            0 <= i < end.registrations.len() && #[trigger] end.registrations[i] is Some
                && end.registrations[i]->0.registered;
        assert(end.waits(i));
    }
}

proof fn lemma_fixed_count(num_orders: nat, events: Seq<FixedWaiterEvent>)
    requires
        FixedWaiting::start(num_orders).history(events),
    ensures
        ({
            let end = FixedWaiting::start(num_orders).after(events);
            &&& end.waiters.fixed_count == number_waiting(end.registrations)
            &&& end.registrations.len() <= usize::MAX
            &&& end.waiters.orders == WaitersView::fresh(num_orders).orders
        }),
    decreases events.len(),
{
    if events.len() > 0 {
        let mid = FixedWaiting::start(num_orders).after(events.drop_last());
        let end = FixedWaiting::start(num_orders).after(events);
        lemma_fixed_count(num_orders, events.drop_last());
        match events.last() {
            FixedWaiterEvent::Register => {
                assert(end.registrations.drop_last() =~= mid.registrations);
            },
            FixedWaiterEvent::Prepare { who } => {
                lemma_number_update(mid.registrations, who, end.registrations[who]);
                lemma_number_bounds(end.registrations, who);
            },
            FixedWaiterEvent::Revoke { who } => {
                lemma_number_update(mid.registrations, who, end.registrations[who]);
                lemma_number_bounds(mid.registrations, who);
            },
            FixedWaiterEvent::Complete { who } => {
                lemma_number_update(mid.registrations, who, end.registrations[who]);
                lemma_number_bounds(mid.registrations, who);
            },
            FixedWaiterEvent::Cancel { who } => {
                lemma_number_update(mid.registrations, who, end.registrations[who]);
                lemma_number_bounds(mid.registrations, who);
            },
        }
    }
}

/// After any history a registration that leaves, whichever way, lowers the
/// count by one if it was waiting and not at all otherwise; the others wait on.
pub proof fn law_leaving_lowers_the_fixed_count_by_one(
    num_orders: nat,
    events: Seq<FixedWaiterEvent>,
    who: int,
    other: int,
)
    requires
        FixedWaiting::start(num_orders).history(events),
        FixedWaiting::start(num_orders).after(events).has(who),
        other != who,
    ensures
        ({
            let state = FixedWaiting::start(num_orders).after(events);
            let revoked = state.next(FixedWaiterEvent::Revoke { who });
            let completed = state.next(FixedWaiterEvent::Complete { who });
            let ended = state.next(FixedWaiterEvent::Cancel { who });
            let gone = if state.waits(who) {
                1int
            } else {
                0int
            };
            &&& revoked.waiters.fixed_count == state.waiters.fixed_count - gone
            &&& completed.waiters.fixed_count == state.waiters.fixed_count - gone
            &&& ended.waiters.fixed_count == state.waiters.fixed_count - gone
            &&& !revoked.waits(who) && !completed.waits(who) && !ended.waits(who)
            &&& revoked.waits(other) == state.waits(other)
            &&& completed.waits(other) == state.waits(other)
            &&& ended.waits(other) == state.waits(other)
        }),
{
    lemma_fixed_count(num_orders, events);
    lemma_number_bounds(FixedWaiting::start(num_orders).after(events).registrations, who);
}

/// What can happen to the waiters of a buddy arena. Registrations are numbered
/// in the order in which they are made.
pub enum QueueEvent {
    /// A new registration at an order, made at `now_ns`.
    Register { order: usize, now_ns: u64 },
    /// It enters the queue of its order.
    Prepare { who: int },
    /// It is taken back, or ends.
    Revoke { who: int },
    /// Its wake arrived, or never will.
    Complete { who: int },
    /// A block of `freed_order` came back, and the orders of `ranking` are woken.
    Wake { freed_order: usize, ranking: Seq<usize> },
    /// A wake of `order` was delivered.
    Won { order: usize },
}

/// The waiters of a buddy arena with all registrations that were made.
pub struct Queueing {
    pub waiters: WaitersView,
    pub registrations: Seq<BuddyRegistrationView>,
}

impl Queueing {
    /// Nobody has registered.
    pub open spec fn start(num_orders: nat) -> Queueing {
        Queueing { waiters: WaitersView::fresh(num_orders), registrations: Seq::empty() }
    }

    /// The event can happen.
    pub open spec fn possible(self, event: QueueEvent) -> bool {
        match event {
            QueueEvent::Register { .. } => self.waiters.orders.len() > 0 && self.waiters.next_id
                < u64::MAX,
            QueueEvent::Prepare { who } => 0 <= who < self.registrations.len(),
            QueueEvent::Revoke { who } => 0 <= who < self.registrations.len(),
            QueueEvent::Complete { who } => 0 <= who < self.registrations.len(),
            QueueEvent::Wake { freed_order, ranking } => self.waiters.ranked(
                freed_order as int,
                ranking,
            ),
            QueueEvent::Won { .. } => true,
        }
    }

    /// What the event leads to.
    pub open spec fn next(self, event: QueueEvent) -> Queueing {
        match event {
            QueueEvent::Register { order, now_ns } => Queueing {
                waiters: WaitersView {
                    next_id: (self.waiters.next_id + 1) as u64,
                    ..self.waiters
                },
                registrations: self.registrations.push(
                    BuddyRegistrationView {
                        id: self.waiters.next_id,
                        order: if order < self.waiters.orders.len() {
                            order as int
                        } else {
                            self.waiters.orders.len() - 1
                        },
                        timestamp: now_ns,
                        registered: false,
                        pending: true,
                    },
                ),
            },
            QueueEvent::Prepare { who } => {
                let reg = self.registrations[who];
                if !reg.registered && reg.pending {
                    Queueing {
                        waiters: self.waiters.with_slot(
                            reg.order,
                            self.waiters.orders[reg.order].joined(reg.entry()),
                        ),
                        registrations: self.registrations.update(
                            who,
                            BuddyRegistrationView { registered: true, pending: false, ..reg },
                        ),
                    }
                } else {
                    self
                }
            },
            QueueEvent::Revoke { who } => Queueing {
                waiters: self.waiters.revoked(self.registrations[who]),
                registrations: self.registrations.update(
                    who,
                    BuddyRegistrationView { registered: false, ..self.registrations[who] },
                ),
            },
            QueueEvent::Complete { who } => Queueing {
                registrations: self.registrations.update(
                    who,
                    BuddyRegistrationView { registered: false, ..self.registrations[who] },
                ),
                ..self
            },
            QueueEvent::Wake { ranking, .. } => Queueing {
                waiters: self.waiters.woken(ranking, 0).0,
                ..self
            },
            QueueEvent::Won { order } => Queueing { waiters: self.waiters.won(order), ..self },
        }
    }

    /// The events can happen, one after the other.
    pub open spec fn history(self, events: Seq<QueueEvent>) -> bool
        decreases events.len(),
    {
        events.len() > 0 ==> self.history(events.drop_last()) && self.after(
            events.drop_last(),
        ).possible(events.last())
    }

    /// After the events.
    pub open spec fn after(self, events: Seq<QueueEvent>) -> Queueing
        decreases events.len(),
    {
        if events.len() == 0 {
            self
        } else {
            self.after(events.drop_last()).next(events.last())
        }
    }

    /// Registrations are numbered from 0 on and wait at orders that there are.
    /// Each entry of a queue belongs to a registration of its order that has
    /// been queued, and no two entries of a queue belong to the same one.
    pub open spec fn sound(self, num_orders: nat) -> bool {
        &&& self.waiters.orders.len() == num_orders
        &&& self.registrations.len() == self.waiters.next_id
        &&& forall|who: int|
            0 <= who < self.registrations.len() ==> {
                &&& (#[trigger] self.registrations[who]).id == who
                &&& 0 <= self.registrations[who].order < num_orders
            }
        &&& forall|o: int, i: int|
            0 <= o < num_orders && 0 <= i < self.waiters.orders[o].queue.len() ==> {
                let id = (#[trigger] self.waiters.orders[o].queue[i]).id as int;
                &&& 0 <= id < self.registrations.len()
                &&& self.registrations[id].order == o
                &&& !self.registrations[id].pending
            }
        &&& forall|o: int, i: int, j: int|
            0 <= o < num_orders && 0 <= i < j < self.waiters.orders[o].queue.len() ==> (
            #[trigger] self.waiters.orders[o].queue[i]).id != (
            #[trigger] self.waiters.orders[o].queue[j]).id
    }
}

/// After any history registrations have ids of their own, each stands in the
/// queue of its order at most once, and nothing else stands in the queues.
pub proof fn law_ids_are_distinct(num_orders: nat, events: Seq<QueueEvent>)
    requires
        num_orders <= usize::MAX,
        Queueing::start(num_orders).history(events),
    ensures
        Queueing::start(num_orders).after(events).sound(num_orders),
    decreases events.len(),
{
    if events.len() > 0 {
        let state = Queueing::start(num_orders).after(events.drop_last());
        law_ids_are_distinct(num_orders, events.drop_last());
        lemma_stays_sound(num_orders, state, events.last());
    }
}

proof fn lemma_stays_sound(num_orders: nat, state: Queueing, event: QueueEvent)
    requires
        num_orders <= usize::MAX,
        state.sound(num_orders),
        state.possible(event),
    ensures
        state.next(event).sound(num_orders),
{
    let after = state.next(event);
    match event {
        QueueEvent::Revoke { who } => {
            let reg = state.registrations[who];
            law_leaving_revokes_its_own_entry_only(state.waiters.orders[reg.order], reg.id);
            assert forall|o: int|
                0 <= o < num_orders implies (#[trigger] after.waiters.orders[o]).queue.len()
                == state.waiters.orders[o].queue.len() by {
                if o == reg.order && reg.registered {
                    assert(after.waiters.orders[o] == state.waiters.orders[o].left(reg.id));
                }
            }
            assert forall|o: int, i: int|
                0 <= o < num_orders && 0 <= i < after.waiters.orders[o].queue.len() implies (
            #[trigger] after.waiters.orders[o].queue[i]).id == state.waiters.orders[o].queue[i].id by {
                if o == reg.order && reg.registered {
                    assert(after.waiters.orders[o].queue[i] == state.waiters.orders[o].left(
                        reg.id,
                    ).queue[i]);
                }
            }
        },
        QueueEvent::Wake { freed_order, ranking } => {
            lemma_ranking_is_proper(state.waiters, freed_order as int, ranking);
            assert(after.waiters.orders.len() == num_orders && after.waiters.next_id
                == state.waiters.next_id) by {
                lemma_woken_shape(state.waiters, ranking, 0);
            }
            assert forall|o: int, i: int|
                0 <= o < num_orders && 0 <= i < after.waiters.orders[o].queue.len() implies {
                let id = (#[trigger] after.waiters.orders[o].queue[i]).id as int;
                &&& 0 <= id < after.registrations.len()
                &&& after.registrations[id].order == o
                &&& !after.registrations[id].pending
            } by {
                let t = law_waking_takes_the_longest_waiter(
                    state.waiters,
                    ranking,
                    0,
                    o as usize,
                    0,
                );
                assert(after.waiters.orders[o].queue[i] == state.waiters.orders[o].queue[i + t]);
            }
            assert forall|o: int, i: int, j: int|
                0 <= o < num_orders && 0 <= i < j < after.waiters.orders[o].queue.len() implies (
            #[trigger] after.waiters.orders[o].queue[i]).id != (
            #[trigger] after.waiters.orders[o].queue[j]).id by {
                let t = law_waking_takes_the_longest_waiter(
                    state.waiters,
                    ranking,
                    0,
                    o as usize,
                    0,
                );
                assert(after.waiters.orders[o].queue[i] == state.waiters.orders[o].queue[i + t]);
                assert(after.waiters.orders[o].queue[j] == state.waiters.orders[o].queue[j + t]);
            }
        },
        QueueEvent::Prepare { who } => {
            let reg = state.registrations[who];
            if !reg.registered && reg.pending {
                let queue = state.waiters.orders[reg.order].queue;
                assert(after.waiters.orders[reg.order].queue == queue.push(reg.entry()));
                assert forall|o: int, i: int|
                    0 <= o < num_orders && 0 <= i < after.waiters.orders[o].queue.len() implies {
                    let id = (#[trigger] after.waiters.orders[o].queue[i]).id as int;
                    &&& 0 <= id < after.registrations.len()
                    &&& after.registrations[id].order == o
                    &&& !after.registrations[id].pending
                } by {
                    if o != reg.order || i < queue.len() {
                        assert(after.waiters.orders[o].queue[i]
                            == state.waiters.orders[o].queue[i]);
                    }
                }
                assert forall|o: int, i: int, j: int|
                    0 <= o < num_orders && 0 <= i < j
                        < after.waiters.orders[o].queue.len() implies (
                #[trigger] after.waiters.orders[o].queue[i]).id != (
                #[trigger] after.waiters.orders[o].queue[j]).id by {
                    assert(after.waiters.orders[o].queue[i] == state.waiters.orders[o].queue[i]);
                    if o != reg.order || j < queue.len() {
                        assert(after.waiters.orders[o].queue[j]
                            == state.waiters.orders[o].queue[j]);
                    }
                }
            }
        },
        QueueEvent::Register { .. } => {
            assert forall|o: int, i: int|
                0 <= o < num_orders && 0 <= i < after.waiters.orders[o].queue.len() implies {
                let id = (#[trigger] after.waiters.orders[o].queue[i]).id as int;
                &&& 0 <= id < after.registrations.len()
                &&& after.registrations[id].order == o
                &&& !after.registrations[id].pending
            } by {
                let id = state.waiters.orders[o].queue[i].id as int;
                assert(after.registrations[id] == state.registrations[id]);
            }
        },
        _ => {},
    }
}

proof fn lemma_ranking_is_proper(view: WaitersView, freed_order: int, ranking: Seq<usize>)
    requires
        view.ranked(freed_order, ranking),
    ensures
        forall|i: int| 0 <= i < ranking.len() ==> #[trigger] ranking[i] < view.orders.len(),
        forall|i: int, j: int|
            0 <= i < j < ranking.len() ==> #[trigger] ranking[i] != #[trigger] ranking[j],
{
    assert forall|i: int| 0 <= i < ranking.len() implies #[trigger] ranking[i]
        < view.orders.len() by {
        assert(view.runs(freed_order, ranking[i] as int));
    }
    assert forall|i: int, j: int| 0 <= i < j < ranking.len() implies #[trigger] ranking[i]
        != #[trigger] ranking[j] by {
        assert(view.before(ranking[i] as int, ranking[j] as int));
    }
}

proof fn lemma_woken_shape(view: WaitersView, ranking: Seq<usize>, pops: int)
    requires
        forall|i: int| 0 <= i < ranking.len() ==> #[trigger] ranking[i] < view.orders.len(),
    ensures
        view.woken(ranking, pops).0.orders.len() == view.orders.len(),
        view.woken(ranking, pops).0.next_id == view.next_id,
    decreases ranking.len(),
{
    if ranking.len() > 0 {
        let at = ranking[0] as int;
        let slot = view.orders[at];
        let spent = pops + slot.stale();
        let rest = ranking.skip(1);
        assert forall|i: int| 0 <= i < rest.len() implies #[trigger] rest[i]
            < view.orders.len() by {
            assert(rest[i] == ranking[i + 1]);
        }
        lemma_woken_shape(view.with_slot(at, slot.served()), rest, spent);
        lemma_woken_shape(view.with_slot(at, slot.drained()), rest, spent);
    }
}

/// After any history, a registration that is taken back revokes its own entry
/// and no other: all others, in all queues, stay as they are at their places,
/// and no live entry of its number remains anywhere.
pub proof fn law_cancelling_revokes_its_own_entry_only(
    num_orders: nat,
    events: Seq<QueueEvent>,
    who: int,
    o: int,
    i: int,
)
    requires
        num_orders <= usize::MAX,
        Queueing::start(num_orders).history(events),
        0 <= who < Queueing::start(num_orders).after(events).registrations.len(),
        0 <= o < num_orders,
        0 <= i < Queueing::start(num_orders).after(events).waiters.orders[o].queue.len(),
    ensures
        ({
            let state = Queueing::start(num_orders).after(events);
            let gone = state.next(QueueEvent::Revoke { who });
            let before = state.waiters.orders[o].queue[i];
            let after = gone.waiters.orders[o].queue[i];
            &&& gone.waiters.orders[o].queue.len() == state.waiters.orders[o].queue.len()
            &&& after.id == before.id
            &&& after.timestamp == before.timestamp
            &&& before.id != who ==> after.state == before.state
            &&& before.id == who && state.registrations[who].registered ==> after.state
                == EntryState::Revoked
            &&& before.id == who && !state.registrations[who].registered ==> after.state
                == before.state
        }),
{
    let state = Queueing::start(num_orders).after(events);
    let reg = state.registrations[who];
    law_ids_are_distinct(num_orders, events);
    let slot = state.waiters.orders[o];
    law_leaving_revokes_its_own_entry_only(slot, reg.id);
    if slot.queue[i].id == who && slot.queue[i].state == EntryState::Live {
        assert forall|j: int|
            0 <= j < slot.queue.len() && j != i && (#[trigger] slot.queue[j]).id
                == reg.id implies slot.queue[j].state == EntryState::Revoked by {
            if j < i {
                assert(state.waiters.orders[o].queue[j].id != state.waiters.orders[o].queue[i].id);
            } else {
                assert(state.waiters.orders[o].queue[i].id != state.waiters.orders[o].queue[j].id);
            }
        }
        assert(sole_live(slot.queue, reg.id, i));
    }
    if reg.registered && o == reg.order {
        assert(state.next(QueueEvent::Revoke { who }).waiters.orders[o] == slot.left(reg.id));
    }
}

/// The first order of a ranking is woken where at most eight revoked entries
/// stand before its longest waiter. Where more do, the wake ends there.
pub proof fn law_eight_revoked_entries_are_skipped(view: WaitersView, ranking: Seq<usize>, k: int)
    requires
        ranking.len() > 0,
        0 <= k < view.orders[ranking[0] as int].queue.len(),
        view.orders[ranking[0] as int].queue[k].state == EntryState::Live,
        all_revoked(view.orders[ranking[0] as int].queue, 0, k),
    ensures
        ({
            let sent = view.woken(ranking, 0).1;
            let first = Delivery {
                order: ranking[0],
                id: view.orders[ranking[0] as int].queue[k].id,
            };
            &&& k <= 8 ==> sent.len() > 0 && sent[0] == first
            &&& k > 8 ==> sent.len() == 0
        }),
{
    crate::waiters::lemma_first_live_is(view.orders[ranking[0] as int].queue, k);
}

} // verus!
