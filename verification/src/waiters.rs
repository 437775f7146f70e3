//! Who waits for memory, and who is woken when some comes back.
//!
//! The state is plain data: the caller owns the channels, performs the wakes
//! that are returned, and reports back which were delivered.
use vstd::prelude::*;
use std::collections::VecDeque;

verus! {

/// Head timestamp of an order without waiters.
pub const NO_WAITERS_TIMESTAMP: u64 = 0xffff_ffff_ffff_ffff;

/// Revoked entries that one wake takes off the queues at most.
pub const MAX_POPS_PER_WAKE: usize = 8;

/// Consecutive wins of one order before it is passed over.
pub const MAX_CONSECUTIVE: u32 = 10;

/// Nanoseconds that a waiter gains per order: larger requests look older.
pub const ORDER_BONUS_NS: u64 = 50_000;

/// Nanoseconds that an order gains per waiter.
pub const DEPTH_BONUS_NS: u64 = 5_000;

/// State of a queued waiter.
#[derive(Clone, Copy, Debug, PartialEq, Eq, Structural)]
pub enum EntryState {
    /// Still waiting.
    Live,
    /// Gave up; the entry is skipped when it reaches the front.
    Revoked,
}

/// A waiter in the queue of an order.
#[derive(Clone, Copy, Debug)]
pub struct WaiterEntry {
    /// Number of the registration.
    pub id: u64,
    /// Whether the waiter is still waiting.
    pub state: EntryState,
    /// When the waiter registered, in nanoseconds.
    pub timestamp: u64,
}

/// A wake to be sent to the registration `id`.
#[derive(Clone, Copy, Debug, PartialEq, Eq)]
pub struct Delivery {
    /// Order at which the registration waits.
    pub order: usize,
    /// Number of the registration.
    pub id: u64,
}

/// The entry still waits.
pub open spec fn is_live(entry: WaiterEntry) -> bool {
    entry.state == EntryState::Live
}

/// Index of the first live entry; the length when there is none.
pub open spec fn first_live(queue: Seq<WaiterEntry>) -> int
    decreases queue.len(),
{
    if queue.len() == 0 || is_live(queue[0]) {
        0
    } else {
        1 + first_live(queue.skip(1))
    }
}

/// Number of live entries.
pub open spec fn live_count(queue: Seq<WaiterEntry>) -> nat
    decreases queue.len(),
{
    if queue.len() == 0 {
        0
    } else {
        live_count(queue.drop_last()) + if is_live(queue.last()) {
            1nat
        } else {
            0nat
        }
    }
}

/// Timestamp of the first live entry.
pub open spec fn head_of(queue: Seq<WaiterEntry>) -> u64 {
    if first_live(queue) < queue.len() {
        queue[first_live(queue)].timestamp
    } else {
        NO_WAITERS_TIMESTAMP
    }
}

/// Index of the live entry `id`; the length when there is none.
pub open spec fn find_live(queue: Seq<WaiterEntry>, id: u64) -> int
    decreases queue.len(),
{
    if queue.len() == 0 || (is_live(queue[0]) && queue[0].id == id) {
        0
    } else {
        1 + find_live(queue.skip(1), id)
    }
}

/// What the waiters of one order stand for.
#[verifier::ext_equal]
pub struct SlotView {
    pub queue: Seq<WaiterEntry>,
    pub count: usize,
    pub head_timestamp: u64,
}

impl SlotView {
    /// No waiters.
    pub open spec fn empty() -> SlotView {
        SlotView {
            queue: Seq::empty(),
            count: 0,
            head_timestamp: NO_WAITERS_TIMESTAMP,
        }
    }

    /// With an entry appended.
    pub open spec fn joined(self, entry: WaiterEntry) -> SlotView {
        SlotView {
            queue: self.queue.push(entry),
            count: self.count.wrapping_add(1),
            head_timestamp: if self.count == 0 {
                entry.timestamp
            } else {
                self.head_timestamp
            },
            ..self
        }
    }

    /// With the entry `id` given up, if it is live.
    pub open spec fn left(self, id: u64) -> SlotView {
        let q = find_live(self.queue, id);
        if q < self.queue.len() {
            SlotView {
                queue: self.queue.update(
                    q,
                    WaiterEntry { state: EntryState::Revoked, ..self.queue[q] },
                ),
                count: self.count.wrapping_sub(1),
                ..self
            }
        } else {
            self
        }
    }

    /// Revoked entries that a wake has to take off the queue to reach a live
    /// one, or to empty it.
    pub open spec fn stale(self) -> int {
        first_live(self.queue)
    }

    /// After a wake took the first live entry.
    pub open spec fn served(self) -> SlotView {
        let rest = self.queue.skip(first_live(self.queue) + 1);
        SlotView {
            queue: rest,
            count: self.count.wrapping_sub(1),
            head_timestamp: head_of(rest),
            ..self
        }
    }

    /// After a wake emptied a queue without live entries.
    pub open spec fn drained(self) -> SlotView {
        SlotView { queue: Seq::empty(), ..self }
    }

    /// After a wake took off `n` revoked entries and spent its budget.
    pub open spec fn cut_short(self, n: int) -> SlotView {
        SlotView { queue: self.queue.skip(n), ..self }
    }

    /// A waiter that is queued is seen by the ranking: the count is right, and
    /// the head timestamp is that of a waiter as long as one is live.
    pub open spec fn seen(self) -> bool {
        &&& self.counted()
        &&& live_count(self.queue) > 0 ==> self.head_timestamp != NO_WAITERS_TIMESTAMP
        &&& forall|i: int|
            0 <= i < self.queue.len() ==> (#[trigger] self.queue[i]).timestamp
                != NO_WAITERS_TIMESTAMP
    }

    /// The count is the number of live waiters.
    pub open spec fn counted(self) -> bool {
        self.count == live_count(self.queue)
    }
}

/// The waiters of one order.
#[derive(Debug)]
struct BuddyOrderSlot {
    queue: VecDeque<WaiterEntry>,
    count: usize,
    head_timestamp: u64,
}

impl View for BuddyOrderSlot {
    type V = SlotView;

    closed spec fn view(&self) -> SlotView {
        SlotView {
            queue: self.queue@,
            count: self.count,
            head_timestamp: self.head_timestamp,
        }
    }
}

/// How a wake ended at one order.
enum Popped {
    /// A live entry was taken.
    Served(WaiterEntry),
    /// The queue is empty.
    Drained,
    /// The budget is spent.
    OverBudget,
}

pub(crate) proof fn lemma_first_live(queue: Seq<WaiterEntry>)
    ensures
        0 <= first_live(queue) <= queue.len(),
        first_live(queue) < queue.len() ==> is_live(queue[first_live(queue)]),
        forall|i: int| 0 <= i < first_live(queue) ==> !is_live(#[trigger] queue[i]),
    decreases queue.len(),
{
    if queue.len() > 0 && !is_live(queue[0]) {
        let rest = queue.skip(1);
        lemma_first_live(rest);
        assert forall|i: int| 0 <= i < first_live(queue) implies !is_live(#[trigger] queue[i]) by {
            if i > 0 {
                assert(rest[i - 1] == queue[i]);
            }
        }
    }
}

/// The first live entry is the one before which none is live.
pub(crate) proof fn lemma_first_live_is(queue: Seq<WaiterEntry>, k: int)
    requires
        0 <= k <= queue.len(),
        k < queue.len() ==> is_live(queue[k]),
        forall|i: int| 0 <= i < k ==> !is_live(#[trigger] queue[i]),
    ensures
        first_live(queue) == k,
{
    lemma_first_live(queue);
    let f = first_live(queue);
    if f < k {
        assert(!is_live(queue[f]));
    } else if k < f {
        assert(!is_live(queue[k]));
    }
}

pub(crate) proof fn lemma_find_live(queue: Seq<WaiterEntry>, id: u64, k: int)
    requires
        0 <= k <= queue.len(),
        k < queue.len() ==> is_live(queue[k]) && queue[k].id == id,
        forall|i: int| 0 <= i < k ==> !(is_live(#[trigger] queue[i]) && queue[i].id == id),
    ensures
        find_live(queue, id) == k,
    decreases queue.len(),
{
    if queue.len() > 0 && k > 0 {
        let rest = queue.skip(1);
        assert forall|i: int| 0 <= i < k - 1 implies !(is_live(#[trigger] rest[i]) && rest[i].id
            == id) by {
            assert(rest[i] == queue[i + 1]);
        }
        lemma_find_live(rest, id, k - 1);
    }
}

impl BuddyOrderSlot {
    fn new() -> (r: Self)
        ensures
            r@ == SlotView::empty(),
    {
        BuddyOrderSlot {
            queue: VecDeque::new(),
            count: 0,
            head_timestamp: NO_WAITERS_TIMESTAMP,
        }
    }

    fn join(&mut self, entry: WaiterEntry)
        ensures
            final(self)@ == old(self)@.joined(entry),
    {
        self.queue.push_back(entry);
        let prev: usize = self.count;
        self.count = self.count.wrapping_add(1);
        if prev == 0 {
            self.head_timestamp = entry.timestamp;
        }
    }

    /// Marks the live entry `id` as revoked.
    fn leave(&mut self, id: u64)
        ensures
            final(self)@ == old(self)@.left(id),
    {
        let n: usize = self.queue.len();
        let mut i: usize = 0;
        while i < n
            invariant
                i <= n,
                n == self.queue@.len(),
                *self == *old(self),
                forall|j: int|
                    0 <= j < i ==> !(is_live(#[trigger] self.queue@[j]) && self.queue@[j].id == id),
            decreases n - i,
        {
            let entry: WaiterEntry = self.queue[i];
            if entry.state == EntryState::Live && entry.id == id {
                proof {
                    lemma_find_live(self.queue@, id, i as int);
                }
                self.queue.remove(i);
                self.queue.insert(i, WaiterEntry { state: EntryState::Revoked, ..entry });
                self.count = self.count.wrapping_sub(1);
                assert(self@ =~= old(self)@.left(id));
                return ;
            }
            i = i + 1;
        }
        proof {
            lemma_find_live(self.queue@, id, n as int);
        }
    }

    /// Points the head timestamp at the first live entry.
    fn update_head_timestamp(&mut self)
        ensures
            final(self)@ == (SlotView { head_timestamp: head_of(old(self)@.queue), ..old(self)@ }),
    {
        let n: usize = self.queue.len();
        let mut i: usize = 0;
        while i < n
            invariant
                i <= n,
                n == self.queue@.len(),
                *self == *old(self),
                forall|j: int| 0 <= j < i ==> !is_live(#[trigger] self.queue@[j]),
            decreases n - i,
        {
            let entry: WaiterEntry = self.queue[i];
            if entry.state == EntryState::Live {
                proof {
                    lemma_first_live_is(self.queue@, i as int);
                }
                self.head_timestamp = entry.timestamp;
                return ;
            }
            i = i + 1;
        }
        proof {
            lemma_first_live_is(self.queue@, n as int);
        }
        self.head_timestamp = NO_WAITERS_TIMESTAMP;
    }

    /// Takes revoked entries off the queue until a live one is at its front,
    /// and takes that one too, unless the queue is empty or the budget is spent
    /// before.
    fn pop_live(&mut self, pops: usize) -> (r: (usize, Popped))
        requires
            pops <= MAX_POPS_PER_WAKE,
        ensures
            ({
                let stale = old(self)@.stale();
                if pops + stale > MAX_POPS_PER_WAKE {
                    &&& r.1 is OverBudget
                    &&& final(self)@ == old(self)@.cut_short(MAX_POPS_PER_WAKE - pops)
                } else if stale < old(self)@.queue.len() {
                    &&& r.0 == pops + stale
                    &&& r.1 == Popped::Served(old(self)@.queue[stale])
                    &&& final(self)@ == old(self)@.served()
                } else {
                    &&& r.0 == pops + stale
                    &&& r.1 is Drained
                    &&& final(self)@ == old(self)@.drained()
                }
            }),
    {
        let mut spent: usize = pops;
        let ghost q = self.queue@;
        let ghost mut taken: int = 0;
        proof {
            lemma_first_live(q);
            assert(q.skip(0) =~= q);
        }
        loop
            invariant
                q == old(self)@.queue,
                0 <= taken <= q.len(),
                self.queue@ == q.skip(taken),
                self.count == old(self).count,
                self.head_timestamp == old(self).head_timestamp,
                spent == pops + taken,
                spent <= MAX_POPS_PER_WAKE,
                forall|i: int| 0 <= i < taken ==> !is_live(#[trigger] q[i]),
            decreases q.len() - taken,
        {
            if self.queue.len() == 0 {
                proof {
                    lemma_first_live_is(q, taken);
                    assert(self@ =~= old(self)@.drained());
                }
                return (spent, Popped::Drained);
            }
            let entry: WaiterEntry = self.queue[0];
            assert(entry == q[taken]);
            if entry.state == EntryState::Live {
                self.queue.pop_front();
                proof {
                    assert(self.queue@ =~= q.skip(taken + 1));
                    lemma_first_live_is(q, taken);
                }
                self.count = self.count.wrapping_sub(1);
                self.update_head_timestamp();
                assert(self@ =~= old(self)@.served());
                return (spent, Popped::Served(entry));
            }
            if spent == MAX_POPS_PER_WAKE {
                proof {
                    lemma_first_live(q);
                    if first_live(q) < taken {
                        assert(!is_live(q[first_live(q)]));
                    }
                    assert(self@ =~= old(self)@.cut_short(taken));
                }
                return (spent, Popped::OverBudget);
            }
            self.queue.pop_front();
            proof {
                assert(self.queue@ =~= q.skip(taken + 1));
                taken = taken + 1;
            }
            spent = spent + 1;
        }
    }
}

/// What the waiters of an arena stand for.
#[verifier::ext_equal]
pub struct WaitersView {
    /// Registered waiters of a fixed arena.
    pub fixed_count: usize,
    /// Waiters of a buddy arena by order.
    pub orders: Seq<SlotView>,
    /// Order that won the last wake.
    pub last_winner: usize,
    /// Wins of that order in a row.
    pub streak: u32,
    /// Number of the next registration.
    pub next_id: u64,
}

impl WaitersView {
    /// Nobody waits.
    pub open spec fn fresh(num_orders: nat) -> WaitersView {
        WaitersView {
            fixed_count: 0,
            orders: Seq::new(num_orders, |i: int| SlotView::empty()),
            last_winner: 0,
            streak: 0,
            next_id: 0,
        }
    }

    /// With the waiters of one order replaced.
    pub open spec fn with_slot(self, order: int, slot: SlotView) -> WaitersView {
        WaitersView { orders: self.orders.update(order, slot), ..self }
    }

    /// A block of `freed_order` can serve the order, and someone waits there.
    pub open spec fn candidate(self, freed_order: int, order: int) -> bool {
        &&& 0 <= order < self.orders.len()
        &&& order <= freed_order
        &&& self.orders[order].count > 0
        &&& self.orders[order].head_timestamp != NO_WAITERS_TIMESTAMP
    }

    /// When the head of the order registered, less the bonuses for the size of
    /// the request and for the length of the queue.
    pub open spec fn effective_age(self, order: int) -> int {
        let slot = self.orders[order];
        let age = slot.head_timestamp - order * ORDER_BONUS_NS - slot.count * DEPTH_BONUS_NS;
        if age < 0 {
            0
        } else {
            age
        }
    }

    /// `a` is served before `b`: older first, then the smaller order.
    pub open spec fn before(self, a: int, b: int) -> bool {
        ||| self.effective_age(a) < self.effective_age(b)
        ||| self.effective_age(a) == self.effective_age(b) && a < b
    }

    /// The order has won too often in a row and another one waits.
    pub open spec fn passed_over(self, freed_order: int, order: int) -> bool {
        &&& self.streak >= MAX_CONSECUTIVE
        &&& order == self.last_winner
        &&& exists|other: int|
            other != order && #[trigger] self.candidate(freed_order, other)
    }

    /// The order takes part in a wake for `freed_order`.
    pub open spec fn runs(self, freed_order: int, order: int) -> bool {
        self.candidate(freed_order, order) && !self.passed_over(freed_order, order)
    }

    /// `ranking` lists the orders that take part, the first to be served first.
    pub open spec fn ranked(self, freed_order: int, ranking: Seq<usize>) -> bool {
        &&& forall|i: int|
            0 <= i < ranking.len() ==> self.runs(freed_order, #[trigger] ranking[i] as int)
        &&& forall|order: int| #[trigger]
            self.runs(freed_order, order) ==> exists|i: int|
                0 <= i < ranking.len() && #[trigger] ranking[i] == order
        &&& forall|i: int, j: int|
            0 <= i < j < ranking.len() ==> self.before(
                #[trigger] ranking[i] as int,
                #[trigger] ranking[j] as int,
            )
    }

    /// The waiters after a wake that visits the orders of `ranking` with
    /// `pops` of its budget spent, and the wakes that it sends: one at most per
    /// order, to the entry that waits longest. Only revoked entries count
    /// against the budget.
    pub open spec fn woken(self, ranking: Seq<usize>, pops: int) -> (WaitersView, Seq<Delivery>)
        decreases ranking.len(),
    {
        if ranking.len() == 0 {
            (self, Seq::empty())
        } else {
            let order = ranking[0];
            let slot = self.orders[order as int];
            let spent = pops + slot.stale();
            let first = first_live(slot.queue);
            if spent > MAX_POPS_PER_WAKE {
                (
                    self.with_slot(order as int, slot.cut_short(MAX_POPS_PER_WAKE - pops)),
                    Seq::empty(),
                )
            } else if first < slot.queue.len() {
                let rest = self.with_slot(order as int, slot.served()).woken(
                    ranking.skip(1),
                    spent,
                );
                (rest.0, seq![Delivery { order, id: slot.queue[first].id }] + rest.1)
            } else {
                self.with_slot(order as int, slot.drained()).woken(ranking.skip(1), spent)
            }
        }
    }

    /// With the registration taken back, if it thinks that it is queued.
    pub open spec fn revoked(self, registration: BuddyRegistrationView) -> WaitersView {
        if registration.registered {
            self.with_slot(
                registration.order,
                self.orders[registration.order].left(registration.id),
            )
        } else {
            self
        }
    }

    /// With another number of waiters of a fixed arena.
    pub open spec fn with_fixed(self, fixed_count: usize) -> WaitersView {
        WaitersView { fixed_count, ..self }
    }

    /// With one waiter of a fixed arena less, if it was counted.
    pub open spec fn without_fixed(self, registration: NotifyView) -> WaitersView {
        if registration.registered {
            self.with_fixed(self.fixed_count.wrapping_sub(1))
        } else {
            self
        }
    }

    /// After a wake of `order` was delivered.
    pub open spec fn won(self, order: usize) -> WaitersView {
        WaitersView {
            last_winner: order,
            streak: if order == self.last_winner {
                if self.streak == u32::MAX {
                    u32::MAX
                } else {
                    (self.streak + 1) as u32
                }
            } else {
                1
            },
            ..self
        }
    }
}

/// Waiters of one arena.
///
/// Fixed arenas count their waiters. Buddy arenas queue them by order; a wake
/// goes to every order that the freed block can serve, ranked by age, with a
/// limit on consecutive wins so that no order starves.
#[derive(Debug)]
pub struct NotifyWaiters {
    fixed_count: usize,
    buddy_orders: Vec<BuddyOrderSlot>,
    last_winner: usize,
    streak: u32,
    next_id: u64,
}

impl View for NotifyWaiters {
    type V = WaitersView;

    closed spec fn view(&self) -> WaitersView {
        WaitersView {
            fixed_count: self.fixed_count,
            orders: Seq::new(self.buddy_orders@.len(), |i: int| self.buddy_orders@[i]@),
            last_winner: self.last_winner,
            streak: self.streak,
            next_id: self.next_id,
        }
    }
}

/// A waiter of a fixed arena.
#[derive(Debug)]
pub struct NotifyRegistration {
    registered: bool,
    woken: bool,
}

/// What a waiter of a fixed arena stands for.
pub struct NotifyView {
    pub registered: bool,
    pub woken: bool,
}

impl View for NotifyRegistration {
    type V = NotifyView;

    closed spec fn view(&self) -> NotifyView {
        NotifyView { registered: self.registered, woken: self.woken }
    }
}

/// A waiter of a buddy arena.
#[derive(Debug)]
pub struct BuddyRegistration {
    id: u64,
    order: usize,
    timestamp: u64,
    registered: bool,
    pending: bool,
}

/// What a waiter of a buddy arena stands for.
pub struct BuddyRegistrationView {
    /// Number of the registration.
    pub id: u64,
    /// Order at which it waits.
    pub order: int,
    /// When it was made.
    pub timestamp: u64,
    /// It stands in the queue, as far as it knows.
    pub registered: bool,
    /// It has not been put in the queue yet.
    pub pending: bool,
}

impl BuddyRegistrationView {
    /// The entry that the registration queues.
    pub open spec fn entry(self) -> WaiterEntry {
        WaiterEntry { id: self.id, state: EntryState::Live, timestamp: self.timestamp }
    }
}

impl View for BuddyRegistration {
    type V = BuddyRegistrationView;

    closed spec fn view(&self) -> BuddyRegistrationView {
        BuddyRegistrationView {
            id: self.id,
            order: self.order as int,
            timestamp: self.timestamp,
            registered: self.registered,
            pending: self.pending,
        }
    }
}

impl BuddyRegistration {
    /// Number of the registration.
    pub fn id(&self) -> (r: u64)
        ensures
            r == self@.id,
    {
        self.id
    }

    /// Order at which the registration waits.
    pub fn order(&self) -> (r: usize)
        ensures
            r == self@.order,
    {
        self.order
    }

    /// Notes that the wake arrived, or that it never will.
    pub fn complete(&mut self)
        ensures
            final(self)@ == (BuddyRegistrationView { registered: false, ..old(self)@ }),
    {
        self.registered = false;
    }
}

/// `a * b`, or the greatest value where that does not fit.
fn saturating_mul(a: u64, b: u64) -> (r: u64)
    ensures
        r == if a * b > u64::MAX {
            u64::MAX as int
        } else {
            a * b
        },
{
    match a.checked_mul(b) {
        Some(product) => product,
        None => u64::MAX,
    }
}

impl NotifyWaiters {
    /// Waiters for `num_orders` orders. Fixed arenas use one order.
    pub fn new(num_orders: usize) -> (r: Self)
        requires
            num_orders > 0,
        ensures
            r@ == WaitersView::fresh(num_orders as nat),
            r@.fixed_count == 0,
            r@.streak == 0,
            r@.orders.len() == num_orders,
            forall|o: int| 0 <= o < num_orders ==> (#[trigger] r@.orders[o]).queue.len() == 0,
            forall|o: int| 0 <= o < num_orders ==> (#[trigger] r@.orders[o]).count == 0,
    {
        let mut buddy_orders: Vec<BuddyOrderSlot> = Vec::new();
        let mut i: usize = 0;
        while i < num_orders
            invariant
                i <= num_orders,
                buddy_orders@.len() == i,
                forall|j: int| 0 <= j < i ==> (#[trigger] buddy_orders@[j])@ == SlotView::empty(),
            decreases num_orders - i,
        {
            buddy_orders.push(BuddyOrderSlot::new());
            i = i + 1;
        }
        let r = NotifyWaiters {
            fixed_count: 0,
            buddy_orders,
            last_winner: 0,
            streak: 0,
            next_id: 0,
        };
        assert(r@ =~= WaitersView::fresh(num_orders as nat));
        r
    }

    /// Number of orders.
    pub fn num_orders(&self) -> (r: usize)
        ensures
            r == self@.orders.len(),
    {
        self.buddy_orders.len()
    }

    /// Whether another waiter of a buddy arena can be registered.
    pub fn can_register(&self) -> (r: bool)
        ensures
            r == (self@.orders.len() > 0 && self@.next_id < u64::MAX),
    {
        self.buddy_orders.len() > 0 && self.next_id < u64::MAX
    }

    /// Waiters counted at an order.
    pub fn waiting(&self, order: usize) -> (r: usize)
        requires
            order < self@.orders.len(),
        ensures
            r == self@.orders[order as int].count,
    {
        self.buddy_orders[order].count
    }

    fn effective_age(&self, order: usize) -> (r: u64)
        requires
            order < self@.orders.len(),
        ensures
            r == self@.effective_age(order as int),
    {
        let slot: &BuddyOrderSlot = &self.buddy_orders[order];
        let bonus: u64 = saturating_mul(order as u64, ORDER_BONUS_NS);
        let depth: u64 = saturating_mul(slot.count as u64, DEPTH_BONUS_NS);
        slot.head_timestamp.saturating_sub(bonus).saturating_sub(depth)
    }

    /// Ranks the orders that a freed block can serve.
    pub fn score_orders(&self, freed_order: usize) -> (r: Vec<usize>)
        requires
            self@.orders.len() > 0,
        ensures
            self@.ranked(freed_order as int, r@),
    {
        let last: usize = self.buddy_orders.len() - 1;
        let max: usize = if freed_order < last {
            freed_order
        } else {
            last
        };
        let ghost freed = freed_order as int;
        let mut ranking: Vec<usize> = Vec::new();
        let mut order: usize = 0;
        while order <= max
            invariant
                freed == freed_order,
                max < self@.orders.len(),
                max < usize::MAX,
                max <= freed_order,
                order <= max + 1,
                self@.orders.len() == self.buddy_orders@.len(),
                forall|i: int|
                    0 <= i < ranking@.len() ==> self@.candidate(
                        freed,
                        #[trigger] ranking@[i] as int,
                    ) && ranking@[i] < order,
                forall|o: int|
                    0 <= o < order && #[trigger] self@.candidate(freed, o) ==> exists|i: int|
                        0 <= i < ranking@.len() && #[trigger] ranking@[i] == o,
                forall|i: int, j: int|
                    0 <= i < j < ranking@.len() ==> self@.before(
                        #[trigger] ranking@[i] as int,
                        #[trigger] ranking@[j] as int,
                    ),
            decreases max + 1 - order,
        {
            let slot: &BuddyOrderSlot = &self.buddy_orders[order];
            if slot.count != 0 && slot.head_timestamp != NO_WAITERS_TIMESTAMP {
                assert(self@.candidate(freed, order as int));
                let at: usize = self.rank_of(&ranking, order);
                let ghost before = ranking@;
                ranking.insert(at, order);
                proof {
                    assert forall|o: int|
                        0 <= o < order + 1 && #[trigger] self@.candidate(freed, o) implies exists|
                        i: int,
                    | 0 <= i < ranking@.len() && #[trigger] ranking@[i] == o by {
                        if o == order {
                            assert(ranking@[at as int] == o);
                        } else {
                            let i = choose|i: int|
                                0 <= i < before.len() && #[trigger] before[i] == o;
                            if i < at {
                                assert(ranking@[i] == o);
                            } else {
                                assert(ranking@[i + 1] == o);
                            }
                        }
                    }
                }
            } else {
                assert(!self@.candidate(freed, order as int));
            }
            order = order + 1;
        }
        proof {
            assert forall|o: int| #[trigger] self@.candidate(freed, o) implies o < order by {
            }
        }
        if self.streak >= MAX_CONSECUTIVE && ranking.len() > 1 {
            self.drop_winner(&mut ranking, freed_order);
        } else {
            proof {
                if self.streak >= MAX_CONSECUTIVE {
                    assert forall|o: int| #[trigger]
                        self@.candidate(freed, o) implies !self@.passed_over(freed, o) by {
                        let i = choose|i: int|
                            0 <= i < ranking@.len() && #[trigger] ranking@[i] == o;
                        assert forall|other: int| #[trigger]
                            self@.candidate(freed, other) implies other == o by {
                            let k = choose|k: int|
                                0 <= k < ranking@.len() && #[trigger] ranking@[k] == other;
                        }
                    }
                }
                assert forall|i: int| 0 <= i < ranking@.len() implies self@.runs(
                    freed,
                    #[trigger] ranking@[i] as int,
                ) by {
                    assert(self@.candidate(freed, ranking@[i] as int));
                }
            }
        }
        ranking
    }

    /// Where `order` goes in a ranking of smaller orders.
    fn rank_of(&self, ranking: &Vec<usize>, order: usize) -> (r: usize)
        requires
            order < self@.orders.len(),
            forall|i: int|
                0 <= i < ranking@.len() ==> #[trigger] ranking@[i] < order,
            forall|i: int, j: int|
                0 <= i < j < ranking@.len() ==> self@.before(
                    #[trigger] ranking@[i] as int,
                    #[trigger] ranking@[j] as int,
                ),
        ensures
            r <= ranking@.len(),
            forall|i: int|
                0 <= i < r ==> self@.before(#[trigger] ranking@[i] as int, order as int),
            forall|i: int|
                r <= i < ranking@.len() ==> self@.before(order as int, #[trigger] ranking@[i] as int),
    {
        let age: u64 = self.effective_age(order);
        let mut at: usize = 0;
        while at < ranking.len()
            invariant
                at <= ranking@.len(),
                order < self@.orders.len(),
                age == self@.effective_age(order as int),
                forall|i: int|
                    0 <= i < ranking@.len() ==> #[trigger] ranking@[i] < order,
                forall|i: int, j: int|
                    0 <= i < j < ranking@.len() ==> self@.before(
                        #[trigger] ranking@[i] as int,
                        #[trigger] ranking@[j] as int,
                    ),
                forall|i: int|
                    0 <= i < at ==> self@.before(#[trigger] ranking@[i] as int, order as int),
            decreases ranking@.len() - at,
        {
            let other: usize = ranking[at];
            if self.effective_age(other) > age {
                assert forall|i: int| at <= i < ranking@.len() implies self@.before(
                    order as int,
                    #[trigger] ranking@[i] as int,
                ) by {
                    if i > at {
                        assert(self@.before(ranking@[at as int] as int, ranking@[i] as int));
                    }
                }
                return at;
            }
            at = at + 1;
        }
        at
    }

    /// Takes the last winner out of a ranking of several orders.
    fn drop_winner(&self, ranking: &mut Vec<usize>, freed_order: usize)
        requires
            self@.streak >= MAX_CONSECUTIVE,
            old(ranking)@.len() > 1,
            forall|i: int|
                0 <= i < old(ranking)@.len() ==> self@.candidate(
                    freed_order as int,
                    #[trigger] old(ranking)@[i] as int,
                ),
            forall|o: int| #[trigger]
                self@.candidate(freed_order as int, o) ==> exists|i: int|
                    0 <= i < old(ranking)@.len() && #[trigger] old(ranking)@[i] == o,
            forall|i: int, j: int|
                0 <= i < j < old(ranking)@.len() ==> self@.before(
                    #[trigger] old(ranking)@[i] as int,
                    #[trigger] old(ranking)@[j] as int,
                ),
        ensures
            self@.ranked(freed_order as int, final(ranking)@),
    {
        let ghost freed = freed_order as int;
        let ghost all = ranking@;
        let mut i: usize = 0;
        while i < ranking.len()
            invariant
                i <= ranking@.len(),
                ranking@ == all,
                all.len() > 1,
                all == old(ranking)@,
                freed == freed_order,
                self@.streak >= MAX_CONSECUTIVE,
                forall|k: int| 0 <= k < i ==> #[trigger] all[k] != self.last_winner,
                forall|k: int|
                    0 <= k < all.len() ==> self@.candidate(freed, #[trigger] all[k] as int),
                forall|o: int| #[trigger]
                    self@.candidate(freed, o) ==> exists|k: int|
                        0 <= k < all.len() && #[trigger] all[k] == o,
                forall|k: int, j: int|
                    0 <= k < j < all.len() ==> self@.before(
                        #[trigger] all[k] as int,
                        #[trigger] all[j] as int,
                    ),
            decreases ranking@.len() - i,
        {
            if ranking[i] == self.last_winner {
                proof {
                    let other = if i == 0 {
                        all[1]
                    } else {
                        all[0]
                    };
                    assert(self@.candidate(freed, other as int));
                    if i == 0 {
                        assert(self@.before(all[0] as int, all[1] as int));
                    } else {
                        assert(self@.before(all[0] as int, all[i as int] as int));
                    }
                    assert(self@.passed_over(freed, self.last_winner as int));
                }
                ranking.remove(i);
                proof {
                    let rest = ranking@;
                    assert forall|k: int| 0 <= k < rest.len() implies self@.runs(
                        freed,
                        #[trigger] rest[k] as int,
                    ) by {
                        let m = if k < i {
                            k
                        } else {
                            k + 1
                        };
                        assert(rest[k] == all[m]);
                        if m < i {
                            assert(self@.before(all[m] as int, all[i as int] as int));
                        } else {
                            assert(self@.before(all[i as int] as int, all[m] as int));
                        }
                    }
                    assert forall|o: int| #[trigger] self@.runs(freed, o) implies exists|k: int|
                        0 <= k < rest.len() && #[trigger] rest[k] == o by {
                        let m = choose|m: int| 0 <= m < all.len() && #[trigger] all[m] == o;
                        if m < i {
                            assert(rest[m] == o);
                        } else {
                            assert(m != i);
                            assert(rest[m - 1] == o);
                        }
                    }
                    assert forall|k: int, j: int| 0 <= k < j < rest.len() implies self@.before(
                        #[trigger] rest[k] as int,
                        #[trigger] rest[j] as int,
                    ) by {
                        let m = if k < i {
                            k
                        } else {
                            k + 1
                        };
                        let n = if j < i {
                            j
                        } else {
                            j + 1
                        };
                        assert(rest[k] == all[m] && rest[j] == all[n]);
                    }
                }
                return ;
            }
            i = i + 1;
        }
        proof {
            assert forall|o: int| #[trigger]
                self@.candidate(freed, o) implies !self@.passed_over(freed, o) by {
                let m = choose|m: int| 0 <= m < all.len() && #[trigger] all[m] == o;
            }
            assert forall|k: int| 0 <= k < all.len() implies self@.runs(
                freed,
                #[trigger] all[k] as int,
            ) by {
                assert(self@.candidate(freed, all[k] as int));
            }
        }
    }

    /// Counts a delivered wake for the streak of its order.
    pub fn update_streak(&mut self, winner_order: usize)
        ensures
            final(self)@ == old(self)@.won(winner_order),
            final(self)@.last_winner == winner_order,
            winner_order != old(self)@.last_winner ==> final(self)@.streak == 1,
            winner_order == old(self)@.last_winner && old(self)@.streak < u32::MAX
                ==> final(self)@.streak == old(self)@.streak + 1,
            winner_order == old(self)@.last_winner && old(self)@.streak == u32::MAX
                ==> final(self)@.streak == u32::MAX,
            final(self)@.fixed_count == old(self)@.fixed_count,
            final(self)@.orders == old(self)@.orders,
            final(self)@.next_id == old(self)@.next_id,
    {
        if winner_order == self.last_winner {
            self.streak = self.streak.saturating_add(1);
        } else {
            self.last_winner = winner_order;
            self.streak = 1;
        }
        assert(self@ =~= old(self)@.won(winner_order));
    }

    /// Decides whom to wake after a block of `freed_order` became available.
    /// The caller sends the wakes, and reports each one that arrived through
    /// [`NotifyWaiters::update_streak`].
    pub fn buddy_wake(&mut self, freed_order: usize) -> (r: Vec<Delivery>)
        requires
            old(self)@.orders.len() > 0,
        ensures
            exists|ranking: Seq<usize>| #[trigger]
                old(self)@.ranked(freed_order as int, ranking) && (final(self)@, r@)
                    == old(self)@.woken(ranking, 0),
    {
        let ranking: Vec<usize> = self.score_orders(freed_order);
        self.wake_orders(&ranking)
    }

    /// Visits the orders of `ranking` in turn.
    fn wake_orders(&mut self, ranking: &Vec<usize>) -> (r: Vec<Delivery>)
        requires
            forall|i: int|
                0 <= i < ranking@.len() ==> #[trigger] ranking@[i] < old(self)@.orders.len(),
        ensures
            (final(self)@, r@) == old(self)@.woken(ranking@, 0),
    {
        let ghost pre = self@;
        let mut deliveries: Vec<Delivery> = Vec::new();
        let mut pops: usize = 0;
        let mut i: usize = 0;
        proof {
            assert(ranking@.skip(0) =~= ranking@);
            assert(Seq::<Delivery>::empty() + pre.woken(ranking@, 0).1 =~= pre.woken(
                ranking@,
                0,
            ).1);
        }
        while i < ranking.len()
            invariant
                i <= ranking@.len(),
                pops <= MAX_POPS_PER_WAKE,
                pre == old(self)@,
                self@.orders.len() == pre.orders.len(),
                forall|k: int|
                    0 <= k < ranking@.len() ==> #[trigger] ranking@[k] < pre.orders.len(),
                pre.woken(ranking@, 0).0 == self@.woken(ranking@.skip(i as int), pops as int).0,
                pre.woken(ranking@, 0).1 == deliveries@ + self@.woken(
                    ranking@.skip(i as int),
                    pops as int,
                ).1,
            decreases ranking@.len() - i,
        {
            let order: usize = ranking[i];
            let ghost mid = self@;
            let ghost rest = ranking@.skip(i as int);
            proof {
                assert(rest[0] == order);
                assert(rest.skip(1) =~= ranking@.skip(i + 1));
            }
            let (spent, popped) = self.buddy_orders[order].pop_live(pops);
            let ghost slot = self.buddy_orders@[order as int]@;
            assert(self@ =~= mid.with_slot(order as int, slot));
            match popped {
                Popped::OverBudget => {
                    assert(deliveries@ + Seq::<Delivery>::empty() =~= deliveries@);
                    return deliveries;
                },
                Popped::Served(entry) => {
                    let ghost before = deliveries@;
                    deliveries.push(Delivery { order, id: entry.id });
                    proof {
                        let tail = self@.woken(rest.skip(1), spent as int).1;
                        assert(before + (seq![Delivery { order, id: entry.id }] + tail)
                            =~= deliveries@ + tail);
                    }
                },
                Popped::Drained => {},
            }
            pops = spent;
            i = i + 1;
        }
        proof {
            assert(ranking@.skip(i as int).len() == 0);
            assert(deliveries@ + Seq::<Delivery>::empty() =~= deliveries@);
        }
        deliveries
    }

    /// Registers a waiter at an order; orders beyond the last count as the
    /// last. The waiter enters the queue with [`NotifyWaiters::buddy_prepare`].
    pub fn buddy_register(&mut self, order: usize, now_ns: u64) -> (r: BuddyRegistration)
        requires
            old(self)@.orders.len() > 0,
            old(self)@.next_id < u64::MAX,
        ensures
            final(self)@ == (WaitersView {
                next_id: (old(self)@.next_id + 1) as u64,
                ..old(self)@
            }),
            r@ == (BuddyRegistrationView {
                id: old(self)@.next_id,
                order: if order < old(self)@.orders.len() {
                    order as int
                } else {
                    old(self)@.orders.len() - 1
                },
                timestamp: now_ns,
                registered: false,
                pending: true,
            }),
    {
        let last: usize = self.buddy_orders.len() - 1;
        let id: u64 = self.next_id;
        self.next_id = id + 1;
        assert(self@.orders =~= old(self)@.orders);
        BuddyRegistration {
            id,
            order: if order < last {
                order
            } else {
                last
            },
            timestamp: now_ns,
            registered: false,
            pending: true,
        }
    }

    /// Puts a new registration in the queue of its order.
    pub fn buddy_prepare(&mut self, registration: &mut BuddyRegistration)
        requires
            old(registration)@.order < old(self)@.orders.len(),
        ensures
            ({
                let reg = old(registration)@;
                if !reg.registered && reg.pending {
                    &&& final(self)@ == old(self)@.with_slot(
                        reg.order,
                        old(self)@.orders[reg.order].joined(reg.entry()),
                    )
                    &&& final(registration)@ == (BuddyRegistrationView {
                        registered: true,
                        pending: false,
                        ..reg
                    })
                } else {
                    &&& final(self)@ == old(self)@
                    &&& final(registration)@ == reg
                }
            }),
            ({
                let reg = old(registration)@;
                let before = old(self)@.orders[reg.order];
                let after = final(self)@.orders[reg.order];
                !reg.registered && reg.pending ==> {
                    &&& after.queue.len() == before.queue.len() + 1
                    &&& forall|i: int|
                        0 <= i < before.queue.len() ==> #[trigger] after.queue[i]
                            == before.queue[i]
                    &&& after.queue.last().id == reg.id
                    &&& after.queue.last().state == EntryState::Live
                    &&& after.queue.last().timestamp == reg.timestamp
                    &&& after.count == before.count.wrapping_add(1)
                    &&& before.count == 0 ==> after.head_timestamp == reg.timestamp
                    &&& before.count > 0 ==> after.head_timestamp == before.head_timestamp
                }
            }),
            final(self)@.orders.len() == old(self)@.orders.len(),
            forall|o: int|
                0 <= o < old(self)@.orders.len() && o != old(registration)@.order
                    ==> #[trigger] final(self)@.orders[o] == old(self)@.orders[o],
            final(self)@.fixed_count == old(self)@.fixed_count,
            final(self)@.last_winner == old(self)@.last_winner,
            final(self)@.streak == old(self)@.streak,
            final(self)@.next_id == old(self)@.next_id,
    {
        if !registration.registered && registration.pending {
            let order: usize = registration.order;
            self.buddy_orders[order].join(
                WaiterEntry {
                    id: registration.id,
                    state: EntryState::Live,
                    timestamp: registration.timestamp,
                },
            );
            registration.pending = false;
            registration.registered = true;
            let ghost slot = self.buddy_orders@[order as int]@;
            assert(self@ =~= old(self)@.with_slot(order as int, slot));
        }
    }

    /// Takes a registration back: its entry no longer counts and is skipped
    /// when it reaches the front of the queue.
    pub fn buddy_revoke(&mut self, registration: &mut BuddyRegistration)
        requires
            old(registration)@.order < old(self)@.orders.len(),
        ensures
            final(self)@ == old(self)@.revoked(old(registration)@),
            final(registration)@ == (BuddyRegistrationView {
                registered: false,
                ..old(registration)@
            }),
            old(registration)@.registered ==> ({
                let id = old(registration)@.id;
                let before = old(self)@.orders[old(registration)@.order];
                let after = final(self)@.orders[old(registration)@.order];
                &&& after.queue.len() == before.queue.len()
                &&& forall|i: int|
                    0 <= i < before.queue.len() && (before.queue[i].id != id
                        || before.queue[i].state == EntryState::Revoked)
                        ==> #[trigger] after.queue[i] == before.queue[i]
                &&& forall|i: int|
                    0 <= i < before.queue.len() && before.queue[i].id == id
                        && before.queue[i].state == EntryState::Live && (forall|j: int|
                        0 <= j < before.queue.len() && j != i && before.queue[j].id == id
                            ==> (#[trigger] before.queue[j]).state == EntryState::Revoked) ==> {
                        &&& (#[trigger] after.queue[i]).state == EntryState::Revoked
                        &&& after.count == before.count.wrapping_sub(1)
                    }
                &&& (forall|j: int|
                    0 <= j < before.queue.len() && before.queue[j].id == id
                        ==> (#[trigger] before.queue[j]).state == EntryState::Revoked)
                    ==> after == before
                &&& after.head_timestamp == before.head_timestamp
            }),
            !old(registration)@.registered ==> final(self)@.orders == old(self)@.orders,
            final(self)@.orders.len() == old(self)@.orders.len(),
            forall|o: int|
                0 <= o < old(self)@.orders.len() && o != old(registration)@.order
                    ==> #[trigger] final(self)@.orders[o] == old(self)@.orders[o],
            final(self)@.fixed_count == old(self)@.fixed_count,
            final(self)@.last_winner == old(self)@.last_winner,
            final(self)@.streak == old(self)@.streak,
            final(self)@.next_id == old(self)@.next_id,
    {
        if registration.registered {
            let order: usize = registration.order;
            proof {
                crate::waiter_laws::law_leaving_revokes_its_own_entry_only(
                    self@.orders[order as int],
                    registration.id,
                );
            }
            self.buddy_orders[order].leave(registration.id);
            registration.registered = false;
            let ghost slot = self.buddy_orders@[order as int]@;
            assert(self@ =~= old(self)@.with_slot(order as int, slot));
            proof {
                let before = old(self)@.orders[order as int];
                let id = registration.id;
                assert forall|i: int|
                    0 <= i < before.queue.len() && before.queue[i].id == id
                        && before.queue[i].state == EntryState::Live && (forall|j: int|
                        0 <= j < before.queue.len() && j != i && before.queue[j].id == id
                            ==> (#[trigger] before.queue[j]).state
                            == EntryState::Revoked) implies (#[trigger] slot.queue[i]).state
                    == EntryState::Revoked && slot.count == before.count.wrapping_sub(1) by {
                    assert(crate::waiter_laws::sole_live(before.queue, id, i));
                }
            }
        }
    }

    /// Ends a registration that is given up.
    pub fn buddy_cancel(&mut self, registration: BuddyRegistration)
        requires
            registration@.order < old(self)@.orders.len(),
        ensures
            final(self)@ == old(self)@.revoked(registration@),
            registration@.registered ==> ({
                let id = registration@.id;
                let before = old(self)@.orders[registration@.order];
                let after = final(self)@.orders[registration@.order];
                &&& after.queue.len() == before.queue.len()
                &&& forall|i: int|
                    0 <= i < before.queue.len() && (before.queue[i].id != id
                        || before.queue[i].state == EntryState::Revoked)
                        ==> #[trigger] after.queue[i] == before.queue[i]
                &&& forall|i: int|
                    0 <= i < before.queue.len() && before.queue[i].id == id
                        && before.queue[i].state == EntryState::Live && (forall|j: int|
                        0 <= j < before.queue.len() && j != i && before.queue[j].id == id
                            ==> (#[trigger] before.queue[j]).state == EntryState::Revoked) ==> {
                        &&& (#[trigger] after.queue[i]).state == EntryState::Revoked
                        &&& after.count == before.count.wrapping_sub(1)
                    }
                &&& (forall|j: int|
                    0 <= j < before.queue.len() && before.queue[j].id == id
                        ==> (#[trigger] before.queue[j]).state == EntryState::Revoked)
                    ==> after == before
                &&& after.head_timestamp == before.head_timestamp
            }),
            !registration@.registered ==> final(self)@.orders == old(self)@.orders,
            final(self)@.orders.len() == old(self)@.orders.len(),
            forall|o: int|
                0 <= o < old(self)@.orders.len() && o != registration@.order
                    ==> #[trigger] final(self)@.orders[o] == old(self)@.orders[o],
            final(self)@.fixed_count == old(self)@.fixed_count,
            final(self)@.last_winner == old(self)@.last_winner,
            final(self)@.streak == old(self)@.streak,
            final(self)@.next_id == old(self)@.next_id,
    {
        let mut registration = registration;
        self.buddy_revoke(&mut registration);
    }

    /// Registers a waiter of a fixed arena.
    pub fn fixed_register(&self) -> (r: NotifyRegistration)
        ensures
            r@ == (NotifyView { registered: false, woken: false }),
    {
        NotifyRegistration { registered: false, woken: false }
    }

    /// Counts a registration of a fixed arena.
    pub fn prepare(&mut self, registration: &mut NotifyRegistration)
        ensures
            final(registration)@ == (NotifyView { registered: true, ..old(registration)@ }),
            final(self)@ == if old(registration)@.registered {
                old(self)@
            } else {
                old(self)@.with_fixed(old(self)@.fixed_count.wrapping_add(1))
            },
            old(registration)@.registered ==> final(self)@.fixed_count == old(self)@.fixed_count,
            !old(registration)@.registered && old(self)@.fixed_count < usize::MAX
                ==> final(self)@.fixed_count == old(self)@.fixed_count + 1,
            final(self)@.orders == old(self)@.orders,
            final(self)@.last_winner == old(self)@.last_winner,
            final(self)@.streak == old(self)@.streak,
            final(self)@.next_id == old(self)@.next_id,
    {
        if !registration.registered {
            self.fixed_count = self.fixed_count.wrapping_add(1);
            registration.registered = true;
            assert(self@.orders =~= old(self)@.orders);
        }
    }

    /// Takes a registration of a fixed arena back.
    pub fn revoke(&mut self, registration: &mut NotifyRegistration)
        ensures
            final(registration)@ == (NotifyView { registered: false, woken: false }),
            final(self)@ == old(self)@.without_fixed(old(registration)@),
            !old(registration)@.registered ==> final(self)@.fixed_count == old(self)@.fixed_count,
            old(registration)@.registered && old(self)@.fixed_count > 0
                ==> final(self)@.fixed_count == old(self)@.fixed_count - 1,
            final(self)@.orders == old(self)@.orders,
            final(self)@.last_winner == old(self)@.last_winner,
            final(self)@.streak == old(self)@.streak,
            final(self)@.next_id == old(self)@.next_id,
    {
        if registration.registered {
            self.fixed_count = self.fixed_count.wrapping_sub(1);
            registration.registered = false;
            assert(self@.orders =~= old(self)@.orders);
        }
        registration.woken = false;
    }

    /// Notes that the wake of a fixed registration arrived.
    pub fn complete(&mut self, registration: &mut NotifyRegistration)
        ensures
            final(registration)@ == (NotifyView { registered: false, woken: true }),
            final(self)@ == old(self)@.without_fixed(old(registration)@),
            !old(registration)@.registered ==> final(self)@.fixed_count == old(self)@.fixed_count,
            old(registration)@.registered && old(self)@.fixed_count > 0
                ==> final(self)@.fixed_count == old(self)@.fixed_count - 1,
            final(self)@.orders == old(self)@.orders,
            final(self)@.last_winner == old(self)@.last_winner,
            final(self)@.streak == old(self)@.streak,
            final(self)@.next_id == old(self)@.next_id,
    {
        if registration.registered {
            self.fixed_count = self.fixed_count.wrapping_sub(1);
            registration.registered = false;
            assert(self@.orders =~= old(self)@.orders);
        }
        registration.woken = true;
    }

    /// Ends a registration of a fixed arena. The result tells whether to pass
    /// its wake on: it was woken, did not use the wake, and others wait.
    pub fn cancel(&mut self, registration: NotifyRegistration) -> (r: bool)
        ensures
            final(self)@ == old(self)@.without_fixed(registration@),
            !registration@.registered ==> final(self)@.fixed_count == old(self)@.fixed_count,
            registration@.registered && old(self)@.fixed_count > 0
                ==> final(self)@.fixed_count == old(self)@.fixed_count - 1,
            final(self)@.orders == old(self)@.orders,
            final(self)@.last_winner == old(self)@.last_winner,
            final(self)@.streak == old(self)@.streak,
            final(self)@.next_id == old(self)@.next_id,
            r == (registration@.woken && final(self)@.fixed_count > 0),
    {
        if registration.registered {
            self.fixed_count = self.fixed_count.wrapping_sub(1);
            assert(self@.orders =~= old(self)@.orders);
        }
        registration.woken && self.fixed_count > 0
    }

    /// Whether a freed slot of a fixed arena has somebody to wake.
    pub fn fixed_wake(&self) -> (r: bool)
        ensures
            r == (self@.fixed_count > 0),
    {
        self.fixed_count > 0
    }
}

pub(crate) proof fn lemma_live_count_append(a: Seq<WaiterEntry>, b: Seq<WaiterEntry>)
    ensures
        live_count(a + b) == live_count(a) + live_count(b),
    decreases b.len(),
{
    if b.len() == 0 {
        assert(a + b =~= a);
    } else {
        assert((a + b).drop_last() =~= a + b.drop_last());
        assert((a + b).last() == b.last());
        lemma_live_count_append(a, b.drop_last());
    }
}

pub(crate) proof fn lemma_live_count_single(entry: WaiterEntry)
    ensures
        live_count(seq![entry]) == if is_live(entry) {
            1nat
        } else {
            0nat
        },
{
    reveal_with_fuel(live_count, 2);
}

pub(crate) proof fn lemma_live_count_none(queue: Seq<WaiterEntry>)
    requires
        forall|i: int| 0 <= i < queue.len() ==> !is_live(#[trigger] queue[i]),
    ensures
        live_count(queue) == 0,
    decreases queue.len(),
{
    if queue.len() > 0 {
        let d = queue.drop_last();
        assert forall|i: int| 0 <= i < d.len() implies !is_live(#[trigger] d[i]) by {
            assert(d[i] == queue[i]);
        }
        lemma_live_count_none(d);
    }
}

/// Cutting a queue at index `k`.
pub(crate) proof fn lemma_live_count_cut(queue: Seq<WaiterEntry>, k: int)
    requires
        0 <= k < queue.len(),
    ensures
        live_count(queue) == live_count(queue.take(k)) + live_count(queue.skip(k + 1)) + if is_live(
            queue[k],
        ) {
            1nat
        } else {
            0nat
        },
{
    let mid = seq![queue[k]];
    assert(queue =~= (queue.take(k) + mid) + queue.skip(k + 1));
    lemma_live_count_append(queue.take(k) + mid, queue.skip(k + 1));
    lemma_live_count_append(queue.take(k), mid);
    lemma_live_count_single(queue[k]);
}

pub(crate) proof fn lemma_find_live_bounds(queue: Seq<WaiterEntry>, id: u64)
    ensures
        0 <= find_live(queue, id) <= queue.len(),
        find_live(queue, id) < queue.len() ==> is_live(queue[find_live(queue, id)]),
        find_live(queue, id) < queue.len() ==> queue[find_live(queue, id)].id == id,
        forall|i: int|
            0 <= i < find_live(queue, id) ==> !(is_live(#[trigger] queue[i]) && queue[i].id == id),
    decreases queue.len(),
{
    if queue.len() > 0 && !(is_live(queue[0]) && queue[0].id == id) {
        let rest = queue.skip(1);
        lemma_find_live_bounds(rest, id);
        assert forall|i: int| 0 <= i < find_live(queue, id) implies !(is_live(#[trigger] queue[i])
            && queue[i].id == id) by {
            if i > 0 {
                assert(rest[i - 1] == queue[i]);
            }
        }
    }
}

/// Joining a queue keeps the count equal to the number of live waiters.
pub proof fn law_joining_keeps_the_count(slot: SlotView, entry: WaiterEntry)
    requires
        slot.counted(),
        is_live(entry),
        slot.count < usize::MAX,
    ensures
        slot.joined(entry).counted(),
{
    assert(slot.queue.push(entry).drop_last() =~= slot.queue);
}

/// Giving up keeps the count equal to the number of live waiters, whether the
/// entry still waits or is gone already.
pub proof fn law_leaving_keeps_the_count(slot: SlotView, id: u64)
    requires
        slot.counted(),
    ensures
        slot.left(id).counted(),
{
    let after = slot.left(id);
    lemma_find_live_bounds(slot.queue, id);
    let q = find_live(slot.queue, id);
    if q < slot.queue.len() {
        lemma_live_count_cut(slot.queue, q);
        lemma_live_count_cut(after.queue, q);
        assert(after.queue.take(q) =~= slot.queue.take(q));
        assert(after.queue.skip(q + 1) =~= slot.queue.skip(q + 1));
    }
}

proof fn lemma_visit_keeps_the_count(slot: SlotView, pops: int)
    requires
        slot.counted(),
        0 <= pops <= MAX_POPS_PER_WAKE,
    ensures
        pops + slot.stale() > MAX_POPS_PER_WAKE ==> slot.cut_short(
            MAX_POPS_PER_WAKE - pops,
        ).counted(),
        first_live(slot.queue) < slot.queue.len() ==> slot.served().counted(),
        first_live(slot.queue) >= slot.queue.len() ==> slot.drained().counted(),
{
    let queue = slot.queue;
    let k = first_live(queue);
    lemma_first_live(queue);
    if k < queue.len() {
        let head = queue.take(k);
        assert forall|i: int| 0 <= i < head.len() implies !is_live(#[trigger] head[i]) by {
            assert(head[i] == queue[i]);
        }
        lemma_live_count_none(head);
        lemma_live_count_cut(queue, k);
    } else {
        lemma_live_count_none(queue);
    }
    let n = MAX_POPS_PER_WAKE - pops;
    if pops + slot.stale() > MAX_POPS_PER_WAKE {
        let head = queue.take(n);
        assert forall|i: int| 0 <= i < head.len() implies !is_live(#[trigger] head[i]) by {
            assert(head[i] == queue[i]);
        }
        lemma_live_count_none(head);
        assert(queue =~= head + queue.skip(n));
        lemma_live_count_append(head, queue.skip(n));
    }
}

/// A wake keeps the count of every order equal to the number of its live
/// waiters.
pub proof fn law_waking_keeps_the_counts(view: WaitersView, ranking: Seq<usize>, pops: int)
    requires
        forall|o: int| 0 <= o < view.orders.len() ==> (#[trigger] view.orders[o]).counted(),
        forall|i: int| 0 <= i < ranking.len() ==> #[trigger] ranking[i] < view.orders.len(),
        0 <= pops <= MAX_POPS_PER_WAKE,
    ensures
        forall|o: int|
            0 <= o < view.orders.len() ==> (#[trigger] view.woken(
                ranking,
                pops,
            ).0.orders[o]).counted(),
        view.woken(ranking, pops).0.orders.len() == view.orders.len(),
    decreases ranking.len(),
{
    if ranking.len() > 0 {
        let order = ranking[0] as int;
        let slot = view.orders[order];
        let spent = pops + slot.stale();
        lemma_first_live(slot.queue);
        lemma_visit_keeps_the_count(slot, pops);
        let rest = ranking.skip(1);
        assert forall|i: int| 0 <= i < rest.len() implies #[trigger] rest[i]
            < view.orders.len() by {
            assert(rest[i] == ranking[i + 1]);
        }
        if spent > MAX_POPS_PER_WAKE {
        } else if first_live(slot.queue) < slot.queue.len() {
            law_waking_keeps_the_counts(view.with_slot(order, slot.served()), rest, spent);
        } else {
            law_waking_keeps_the_counts(view.with_slot(order, slot.drained()), rest, spent);
        }
    }
}

/// Joining a queue keeps its waiters in sight of the ranking.
pub proof fn law_joining_keeps_waiters_seen(slot: SlotView, entry: WaiterEntry)
    requires
        slot.seen(),
        is_live(entry),
        entry.timestamp != NO_WAITERS_TIMESTAMP,
        slot.count < usize::MAX,
    ensures
        slot.joined(entry).seen(),
{
    law_joining_keeps_the_count(slot, entry);
}

/// Giving up keeps the other waiters in sight of the ranking.
pub proof fn law_leaving_keeps_waiters_seen(slot: SlotView, id: u64)
    requires
        slot.seen(),
    ensures
        slot.left(id).seen(),
{
    law_leaving_keeps_the_count(slot, id);
    lemma_find_live_bounds(slot.queue, id);
    if find_live(slot.queue, id) < slot.queue.len() {
        lemma_live_count_cut(slot.queue, find_live(slot.queue, id));
    }
}

/// A wake keeps all waiters that it does not wake in sight of the ranking.
pub proof fn law_waking_keeps_waiters_seen(view: WaitersView, ranking: Seq<usize>, pops: int)
    requires
        forall|o: int| 0 <= o < view.orders.len() ==> (#[trigger] view.orders[o]).seen(),
        forall|i: int| 0 <= i < ranking.len() ==> #[trigger] ranking[i] < view.orders.len(),
        0 <= pops <= MAX_POPS_PER_WAKE,
    ensures
        forall|o: int|
            0 <= o < view.orders.len() ==> (#[trigger] view.woken(
                ranking,
                pops,
            ).0.orders[o]).seen(),
    decreases ranking.len(),
{
    if ranking.len() > 0 {
        let order = ranking[0] as int;
        let slot = view.orders[order];
        let spent = pops + slot.stale();
        let after = view.woken(ranking, pops).0;
        lemma_first_live(slot.queue);
        lemma_visit_keeps_the_count(slot, pops);
        let rest = ranking.skip(1);
        assert forall|i: int| 0 <= i < rest.len() implies #[trigger] rest[i]
            < view.orders.len() by {
            assert(rest[i] == ranking[i + 1]);
        }
        if spent > MAX_POPS_PER_WAKE {
            assert(after.orders[order].seen());
        } else if first_live(slot.queue) < slot.queue.len() {
            let later = slot.queue.skip(first_live(slot.queue) + 1);
            lemma_first_live(later);
            lemma_head_is_live(later);
            assert(slot.served().seen());
            let next = view.with_slot(order, slot.served());
            assert(after == next.woken(rest, spent).0);
            law_waking_keeps_waiters_seen(next, rest, spent);
        } else {
            assert(slot.drained().seen());
            let next = view.with_slot(order, slot.drained());
            assert(after == next.woken(rest, spent).0);
            law_waking_keeps_waiters_seen(next, rest, spent);
        }
    }
}

/// A wake loses nobody: a live waiter is sent a wake or stays in its queue.
pub proof fn law_waking_loses_no_waiter(
    view: WaitersView,
    ranking: Seq<usize>,
    pops: int,
    order: usize,
    entry: WaiterEntry,
)
    requires
        forall|i: int| 0 <= i < ranking.len() ==> #[trigger] ranking[i] < view.orders.len(),
        0 <= pops <= MAX_POPS_PER_WAKE,
        order < view.orders.len(),
        is_live(entry),
        view.orders[order as int].queue.contains(entry),
    ensures
        view.woken(ranking, pops).1.contains(Delivery { order, id: entry.id })
            || view.woken(ranking, pops).0.orders[order as int].queue.contains(entry),
    decreases ranking.len(),
{
    if ranking.len() > 0 {
        let at = ranking[0] as int;
        let slot = view.orders[at];
        let first = first_live(slot.queue);
        let spent = pops + slot.stale();
        let (after, sent) = view.woken(ranking, pops);
        let rest = ranking.skip(1);
        lemma_first_live(slot.queue);
        assert forall|i: int| 0 <= i < rest.len() implies #[trigger] rest[i]
            < view.orders.len() by {
            assert(rest[i] == ranking[i + 1]);
        }
        let j = choose|j: int|
            0 <= j < view.orders[order as int].queue.len() && view.orders[order as int].queue[j]
                == entry;
        if at == order && j < first {
            assert(!is_live(slot.queue[j]));
        }
        if spent > MAX_POPS_PER_WAKE {
            if at == order {
                let n = MAX_POPS_PER_WAKE - pops;
                assert(after.orders[at].queue[j - n] == entry);
            }
        } else if first < slot.queue.len() {
            let next = view.with_slot(at, slot.served());
            let later = next.woken(rest, spent).1;
            if at == order && j == first {
                assert(sent[0] == (Delivery { order, id: entry.id }));
            } else {
                if at == order {
                    assert(next.orders[at].queue[j - first - 1] == entry);
                }
                law_waking_loses_no_waiter(next, rest, spent, order, entry);
                if later.contains(Delivery { order, id: entry.id }) {
                    let k = choose|k: int|
                        0 <= k < later.len() && later[k] == (Delivery { order, id: entry.id });
                    assert(sent[k + 1] == (Delivery { order, id: entry.id }));
                }
            }
        } else {
            law_waking_loses_no_waiter(
                view.with_slot(at, slot.drained()),
                rest,
                spent,
                order,
                entry,
            );
        }
    }
}

/// A queue with live entries has a first one.
pub(crate) proof fn lemma_head_is_live(queue: Seq<WaiterEntry>)
    ensures
        live_count(queue) > 0 ==> first_live(queue) < queue.len(),
{
    lemma_first_live(queue);
    if first_live(queue) >= queue.len() {
        lemma_live_count_none(queue);
    }
}

/// An order whose waiters are in sight takes part whenever the freed block can
/// serve it.
pub proof fn law_waiting_orders_take_part(
    view: WaitersView,
    freed_order: int,
    ranking: Seq<usize>,
    order: int,
)
    requires
        view.ranked(freed_order, ranking),
        0 <= order < view.orders.len(),
        order <= freed_order,
        view.orders[order].seen(),
        live_count(view.orders[order].queue) > 0,
    ensures
        view.candidate(freed_order, order),
        ranking.len() > 0,
        view.passed_over(freed_order, order) || exists|i: int|
            0 <= i < ranking.len() && #[trigger] ranking[i] == order,
{
    assert(view.candidate(freed_order, order));
    if view.passed_over(freed_order, order) {
        let other = choose|other: int|
            other != order && #[trigger] view.candidate(freed_order, other);
        assert(view.runs(freed_order, other));
    } else {
        assert(view.runs(freed_order, order));
    }
}

/// Revoked entries that stand before the waiters of the first `n` orders of
/// `ranking`.
pub open spec fn stale_before(view: WaitersView, ranking: Seq<usize>, n: int) -> int
    decreases n,
{
    if n <= 0 {
        0
    } else {
        stale_before(view, ranking, n - 1) + view.orders[ranking[n - 1] as int].stale()
    }
}

/// Every order of the ranking gets a wake, which goes to its longest waiter,
/// as long as the revoked entries up to that waiter are within the budget.
pub proof fn law_ranked_orders_are_woken(
    view: WaitersView,
    freed_order: int,
    ranking: Seq<usize>,
    i: int,
)
    requires
        view.ranked(freed_order, ranking),
        0 <= i < ranking.len(),
        view.orders[ranking[i] as int].counted(),
        stale_before(view, ranking, i + 1) <= MAX_POPS_PER_WAKE,
    ensures
        ({
            let queue = view.orders[ranking[i] as int].queue;
            view.woken(ranking, 0).1.contains(
                Delivery { order: ranking[i], id: queue[first_live(queue)].id },
            )
        }),
{
    let queue = view.orders[ranking[i] as int].queue;
    assert(view.runs(freed_order, ranking[i] as int));
    lemma_head_is_live(queue);
    assert forall|a: int, b: int| 0 <= a < b < ranking.len() implies #[trigger] ranking[a]
        != #[trigger] ranking[b] by {
        assert(view.before(ranking[a] as int, ranking[b] as int));
    }
    assert forall|k: int| 0 <= k < ranking.len() implies #[trigger] ranking[k]
        < view.orders.len() by {
        assert(view.runs(freed_order, ranking[k] as int));
    }
    lemma_delivered(view, ranking, 0, i);
}

proof fn lemma_delivered(view: WaitersView, ranking: Seq<usize>, pops: int, i: int)
    requires
        0 <= i < ranking.len(),
        0 <= pops,
        forall|a: int, b: int|
            0 <= a < b < ranking.len() ==> #[trigger] ranking[a] != #[trigger] ranking[b],
        forall|k: int| 0 <= k < ranking.len() ==> #[trigger] ranking[k] < view.orders.len(),
        view.orders[ranking[i] as int].stale() < view.orders[ranking[i] as int].queue.len(),
        pops + stale_before(view, ranking, i + 1) <= MAX_POPS_PER_WAKE,
    ensures
        ({
            let queue = view.orders[ranking[i] as int].queue;
            view.woken(ranking, pops).1.contains(
                Delivery { order: ranking[i], id: queue[first_live(queue)].id },
            )
        }),
    decreases ranking.len(),
{
    let order = ranking[0] as int;
    let slot = view.orders[order];
    let queue = view.orders[ranking[i] as int].queue;
    let wanted = Delivery { order: ranking[i], id: queue[first_live(queue)].id };
    let sent = view.woken(ranking, pops).1;
    let rest = ranking.skip(1);
    lemma_first_live(slot.queue);
    lemma_stale_before_grows(view, ranking, 1, i + 1);
    assert(stale_before(view, ranking, 1) == slot.stale()) by {
        reveal_with_fuel(stale_before, 2);
    }
    let spent = pops + slot.stale();
    assert(spent <= MAX_POPS_PER_WAKE);
    if i == 0 {
        assert(sent[0] == wanted);
    } else {
        let next_slot = if first_live(slot.queue) < slot.queue.len() {
            slot.served()
        } else {
            slot.drained()
        };
        let next = view.with_slot(order, next_slot);
        assert forall|a: int, b: int| 0 <= a < b < rest.len() implies #[trigger] rest[a]
            != #[trigger] rest[b] by {
            assert(rest[a] == ranking[a + 1] && rest[b] == ranking[b + 1]);
        }
        assert forall|k: int| 0 <= k < rest.len() implies #[trigger] rest[k]
            < next.orders.len() by {
            assert(rest[k] == ranking[k + 1]);
        }
        lemma_stale_before_tail(view, next, ranking, i);
        assert(rest[i - 1] == ranking[i]);
        assert(ranking[0] != ranking[i]);
        assert(next.orders[rest[i - 1] as int] == view.orders[ranking[i] as int]);
        lemma_delivered(next, rest, spent, i - 1);
        let later = next.woken(rest, spent).1;
        let k = choose|k: int| 0 <= k < later.len() && later[k] == wanted;
        if first_live(slot.queue) < slot.queue.len() {
            assert(sent[k + 1] == wanted);
        } else {
            assert(sent[k] == wanted);
        }
    }
}

proof fn lemma_stale_before_grows(view: WaitersView, ranking: Seq<usize>, m: int, n: int)
    requires
        0 <= m <= n,
    ensures
        0 <= stale_before(view, ranking, m) <= stale_before(view, ranking, n),
    decreases n,
{
    if n > 0 {
        lemma_first_live(view.orders[ranking[n - 1] as int].queue);
        if m < n {
            lemma_stale_before_grows(view, ranking, m, n - 1);
        } else {
            lemma_stale_before_grows(view, ranking, n - 1, n - 1);
        }
    }
}

/// Leaving the first order out of a ranking, and changing only that order.
proof fn lemma_stale_before_tail(
    view: WaitersView,
    next: WaitersView,
    ranking: Seq<usize>,
    n: int,
)
    requires
        0 <= n < ranking.len(),
        forall|a: int, b: int|
            0 <= a < b < ranking.len() ==> #[trigger] ranking[a] != #[trigger] ranking[b],
        forall|k: int| 0 <= k < ranking.len() ==> #[trigger] ranking[k] < view.orders.len(),
        exists|slot: SlotView| next == #[trigger] view.with_slot(ranking[0] as int, slot),
    ensures
        stale_before(view, ranking, n + 1) == view.orders[ranking[0] as int].stale()
            + stale_before(next, ranking.skip(1), n),
    decreases n,
{
    if n == 0 {
        reveal_with_fuel(stale_before, 2);
    } else {
        lemma_stale_before_tail(view, next, ranking, n - 1);
        assert(ranking.skip(1)[n - 1] == ranking[n]);
        assert(ranking[0] != ranking[n]);
    }
}

/// A wake reaches only orders that the freed block can serve, each at most
/// once and in the order of the ranking.
pub proof fn law_wakes_follow_the_ranking(view: WaitersView, freed_order: int, ranking: Seq<usize>)
    requires
        view.ranked(freed_order, ranking),
    ensures
        ({
            let sent = view.woken(ranking, 0).1;
            &&& sent.len() <= ranking.len()
            &&& forall|i: int|
                0 <= i < sent.len() ==> view.runs(freed_order, (#[trigger] sent[i]).order as int)
            &&& forall|i: int, j: int|
                0 <= i < j < sent.len() ==> view.before(
                    (#[trigger] sent[i]).order as int,
                    (#[trigger] sent[j]).order as int,
                )
        }),
{
    let sent = view.woken(ranking, 0).1;
    let at = lemma_sent(view, ranking, 0);
    assert forall|i: int| 0 <= i < sent.len() implies view.runs(
        freed_order,
        (#[trigger] sent[i]).order as int,
    ) by {
        assert(ranking[at[i]] == sent[i].order);
    }
    assert forall|i: int, j: int| 0 <= i < j < sent.len() implies view.before(
        (#[trigger] sent[i]).order as int,
        (#[trigger] sent[j]).order as int,
    ) by {
        assert(at[i] < at[j]);
        assert(ranking[at[i]] == sent[i].order && ranking[at[j]] == sent[j].order);
    }
}

/// Where in the ranking each sent wake stands.
pub(crate) proof fn lemma_sent(view: WaitersView, ranking: Seq<usize>, pops: int) -> (at: Seq<int>)
    requires
        0 <= pops <= MAX_POPS_PER_WAKE,
    ensures
        ({
            let sent = view.woken(ranking, pops).1;
            &&& at.len() == sent.len()
            &&& sent.len() <= ranking.len()
            &&& forall|i: int|
                0 <= i < at.len() ==> 0 <= #[trigger] at[i] < ranking.len() && ranking[at[i]]
                    == sent[i].order
            &&& forall|i: int, j: int|
                0 <= i < j < at.len() ==> #[trigger] at[i] < #[trigger] at[j]
        }),
    decreases ranking.len(),
{
    if ranking.len() == 0 {
        Seq::empty()
    } else {
        let order = ranking[0] as int;
        let slot = view.orders[order];
        let spent = pops + slot.stale();
        let rest = ranking.skip(1);
        lemma_first_live(slot.queue);
        if spent > MAX_POPS_PER_WAKE {
            Seq::empty()
        } else if first_live(slot.queue) < slot.queue.len() {
            let tail = lemma_sent(view.with_slot(order, slot.served()), rest, spent);
            let at = seq![0int] + Seq::new(tail.len(), |i: int| tail[i] + 1);
            let sent = view.woken(ranking, pops).1;
            let later = view.with_slot(order, slot.served()).woken(rest, spent).1;
            assert forall|i: int| 0 <= i < at.len() implies 0 <= #[trigger] at[i] < ranking.len()
                && ranking[at[i]] == sent[i].order by {
                if i > 0 {
                    assert(at[i] == tail[i - 1] + 1);
                    assert(rest[tail[i - 1]] == later[i - 1].order);
                    assert(sent[i] == later[i - 1]);
                }
            }
            assert forall|i: int, j: int| 0 <= i < j < at.len() implies #[trigger] at[i]
                < #[trigger] at[j] by {
                assert(at[j] == tail[j - 1] + 1);
                if i > 0 {
                    assert(at[i] == tail[i - 1] + 1);
                }
            }
            at
        } else {
            let tail = lemma_sent(view.with_slot(order, slot.drained()), rest, spent);
            let at = Seq::new(tail.len(), |i: int| tail[i] + 1);
            let sent = view.woken(ranking, pops).1;
            assert forall|i: int| 0 <= i < at.len() implies 0 <= #[trigger] at[i] < ranking.len()
                && ranking[at[i]] == sent[i].order by {
                assert(rest[tail[i]] == sent[i].order);
            }
            assert forall|i: int, j: int| 0 <= i < j < at.len() implies #[trigger] at[i]
                < #[trigger] at[j] by {
                assert(tail[i] < tail[j]);
            }
            at
        }
    }
}

/// An order that has won too often in a row is left out while another one
/// waits, so no order can keep the others from being served.
pub proof fn law_no_order_wins_forever(
    view: WaitersView,
    freed_order: int,
    ranking: Seq<usize>,
    other: int,
)
    requires
        view.ranked(freed_order, ranking),
        view.streak >= MAX_CONSECUTIVE,
        other != view.last_winner,
        view.candidate(freed_order, other),
    ensures
        forall|i: int| 0 <= i < ranking.len() ==> #[trigger] ranking[i] != view.last_winner,
        exists|i: int| 0 <= i < ranking.len() && #[trigger] ranking[i] == other,
{
    assert(view.passed_over(freed_order, view.last_winner as int));
    assert(view.runs(freed_order, other));
    assert forall|i: int| 0 <= i < ranking.len() implies #[trigger] ranking[i]
        != view.last_winner by {
        assert(view.runs(freed_order, ranking[i] as int));
    }
}

/// A wake for a freed block has one ranking only.
pub proof fn law_ranking_is_unique(
    view: WaitersView,
    freed_order: int,
    a: Seq<usize>,
    b: Seq<usize>,
)
    requires
        view.ranked(freed_order, a),
        view.ranked(freed_order, b),
    ensures
        a == b,
{
    let n = if a.len() < b.len() {
        a.len() as int
    } else {
        b.len() as int
    };
    lemma_same_ranking(view, freed_order, a, b, n);
    lemma_extra_entry(view, freed_order, a, b);
    lemma_extra_entry(view, freed_order, b, a);
    assert(a =~= b);
}

proof fn lemma_extra_entry(view: WaitersView, freed_order: int, a: Seq<usize>, b: Seq<usize>)
    requires
        view.ranked(freed_order, a),
        view.ranked(freed_order, b),
        forall|i: int| 0 <= i < a.len() && i < b.len() ==> #[trigger] a[i] == b[i],
    ensures
        b.len() <= a.len(),
{
    if a.len() < b.len() {
        let extra = b[a.len() as int];
        assert(view.runs(freed_order, extra as int));
        let m = choose|m: int| 0 <= m < a.len() && #[trigger] a[m] == extra as int;
        assert(a[m] == b[m]);
        assert(view.before(b[m] as int, b[a.len() as int] as int));
    }
}

proof fn lemma_same_ranking(
    view: WaitersView,
    freed_order: int,
    a: Seq<usize>,
    b: Seq<usize>,
    n: int,
)
    requires
        view.ranked(freed_order, a),
        view.ranked(freed_order, b),
        0 <= n <= a.len(),
        n <= b.len(),
    ensures
        forall|i: int| 0 <= i < n ==> #[trigger] a[i] == b[i],
    decreases n,
{
    if n > 0 {
        let last = n - 1;
        lemma_same_ranking(view, freed_order, a, b, last);
        let x = a[last];
        let y = b[last];
        assert(view.runs(freed_order, x as int));
        assert(view.runs(freed_order, y as int));
        let k = choose|k: int| 0 <= k < b.len() && #[trigger] b[k] == x as int;
        let m = choose|m: int| 0 <= m < a.len() && #[trigger] a[m] == y as int;
        if k < last {
            assert(a[k] == b[k]);
            assert(view.before(a[k] as int, a[last] as int));
        }
        if m < last {
            assert(a[m] == b[m]);
            assert(view.before(b[m] as int, b[last] as int));
        }
        if k > last && m > last {
            assert(view.before(b[last] as int, b[k] as int));
            assert(view.before(a[last] as int, a[m] as int));
        }
    }
}

} // verus!
