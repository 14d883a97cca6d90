//! The tick-indexed scheduler at the heart of the simulation.
//!
//! An [`UpdateQueue`] owns a collection of entries ordered by ascending tick.
//! Each call to [`UpdateQueue::update`] pops the entry with the smallest
//! scheduled tick, discards every inactive entry encountered on the way
//! (lazy deactivation), invokes the winning entity's update operation with
//! an effect sink, and reinserts the entity at a later tick if it asks for
//! further processing.

use crate::msg::Message;
use vstd::prelude::*;

verus! {

/// An externally observable outcome of a single update call.
///
/// The queue never inspects an effect; it only transports it to whatever
/// drains the sink between steps. The only variant defined so far wraps a
/// message to be logged, but the type is open to extension as new
/// subsystems need to observe update outcomes.
pub enum Effect {
    Log(Message),
}

/// The capability an entity must provide to be schedulable.
///
/// The spec functions are the entity's mathematical model: one unit of work
/// carries the entity from its current state to [`Updatable::next_state`],
/// appends [`Updatable::emitted`] to the effect sink, and asks to run again
/// after [`Updatable::next_delay`] ticks — or never again, when the delay
/// is `None`.
pub trait Updatable: Sized {
    /// Whether this entity should still be processed. The default models
    /// an entity that is always active; an implementation with a real
    /// deactivation state overrides it.
    open spec fn active(&self) -> bool {
        true
    }

    /// The state this entity reaches by performing one unit of work. The
    /// default models an entity whose update leaves it unchanged.
    open spec fn next_state(&self) -> Self {
        *self
    }

    /// The delay until this entity next wants processing, or `None` if it
    /// is done for good. The default models a one-shot entity.
    open spec fn next_delay(&self) -> Option<u32> {
        None
    }

    /// The effects one unit of work appends to the sink, in order. The
    /// default models an entity that emits nothing.
    open spec fn emitted(&self) -> Seq<Effect> {
        Seq::empty()
    }

    /// Perform one unit of work, appending any outcomes that other systems
    /// should observe to `effects`. Returns the number of ticks until the
    /// next scheduled update, or `None` if the entity should never be
    /// updated again.
    ///
    /// Only [`UpdateQueue::update`] should call this, and only after
    /// [`Updatable::is_active`] has been confirmed true for this turn.
    fn update(&mut self, effects: &mut Vec<Effect>) -> (r: Option<u32>)
        requires
            old(self).active(),
        ensures
            *final(self) == old(self).next_state(),
            r == old(self).next_delay(),
            final(effects)@ == old(effects)@ + old(self).emitted(),
    ;

    /// Whether the entity is active, i.e. should still be updated.
    fn is_active(&self) -> (r: bool)
        ensures
            r == self.active(),
    ;

    /// Mark the entity permanently inactive: it will be ignored, and
    /// eventually discarded, by any update queue that holds it.
    fn deactivate(&mut self)
        ensures
            !final(self).active(),
    ;
}

/// A scheduled entity together with the tick of its next update.
pub struct UpdateInfo<T> {
    pub time: u32,
    pub updatable: T,
}

/// Entries stand in ascending tick order.
pub open spec fn sorted_by_time<T>(s: Seq<UpdateInfo<T>>) -> bool {
    forall|i: int, j: int| 0 <= i < j < s.len() ==> (#[trigger] s[i]).time <= (#[trigger] s[j]).time
}

/// Whether some entry of `s` holds an active entity.
pub open spec fn has_active<T: Updatable>(s: Seq<UpdateInfo<T>>) -> bool {
    exists|i: int| 0 <= i < s.len() && (#[trigger] s[i]).updatable.active()
}

/// The index of the first entry of `s` whose entity is active, or `s.len()`
/// if every entity is inactive.
pub open spec fn first_active<T: Updatable>(s: Seq<UpdateInfo<T>>) -> int
    decreases s.len(),
{
    if s.len() == 0 {
        0
    } else if s[0].updatable.active() {
        0
    } else {
        1 + first_active(s.skip(1))
    }
}

/// Where a new entry due at `time` lands in the tick-ordered `s`: right
/// after every entry due at or before `time`.
pub open spec fn insert_index<T>(s: Seq<UpdateInfo<T>>, time: u32) -> int
    decreases s.len(),
{
    if s.len() == 0 {
        0
    } else if s[0].time <= time {
        1 + insert_index(s.skip(1), time)
    } else {
        0
    }
}

/// What one step leaves in a queue that held `s`: everything after the
/// first active entry — the entries ahead of it are discarded as inactive —
/// plus that entry's entity rescheduled `dt` ticks after its turn, if its
/// update asked for a further delay `dt`. The new tick saturates at
/// `u32::MAX` instead of wrapping.
pub open spec fn after_step<T: Updatable>(s: Seq<UpdateInfo<T>>) -> Seq<UpdateInfo<T>>
    recommends
        has_active(s),
{
    let e = s[first_active(s)];
    let rest = s.skip(first_active(s) + 1);
    match e.updatable.next_delay() {
        None => rest,
        Some(dt) => rest.insert(
            insert_index(rest, e.time.saturating_add(dt)),
            (UpdateInfo { time: e.time.saturating_add(dt), updatable: e.updatable.next_state() }),
        ),
    }
}

proof fn lemma_first_active_bounds<T: Updatable>(s: Seq<UpdateInfo<T>>)
    ensures
        0 <= first_active(s) <= s.len(),
        forall|j: int| 0 <= j < first_active(s) ==> !(#[trigger] s[j]).updatable.active(),
        first_active(s) < s.len() ==> s[first_active(s)].updatable.active(),
        (first_active(s) < s.len()) <==> has_active(s),
    decreases s.len(),
{
    if s.len() == 0 {
    } else if s[0].updatable.active() {
        assert(has_active(s));
    } else {
        lemma_first_active_bounds(s.skip(1));
        let k = first_active(s);
        assert forall|j: int| 0 <= j < k implies !(#[trigger] s[j]).updatable.active() by {
            if j > 0 {
                assert(s.skip(1)[j - 1] == s[j]);
            }
        }
        if k < s.len() {
            assert(s.skip(1)[k - 1] == s[k]);
            assert(has_active(s));
        }
        if has_active(s) {
            let i = choose|i: int| 0 <= i < s.len() && (#[trigger] s[i]).updatable.active();
            assert(s.skip(1)[i - 1] == s[i]);
            assert(has_active(s.skip(1)));
        }
    }
}

proof fn lemma_first_active_is<T: Updatable>(s: Seq<UpdateInfo<T>>, n: int)
    requires
        0 <= n <= s.len(),
        forall|j: int| 0 <= j < n ==> !(#[trigger] s[j]).updatable.active(),
        n < s.len() ==> s[n].updatable.active(),
    ensures
        first_active(s) == n,
    decreases s.len(),
{
    if s.len() == 0 {
    } else if n == 0 {
    } else {
        assert(!s[0].updatable.active());
        assert forall|j: int| 0 <= j < n - 1 implies !(#[trigger] s.skip(1)[j]).updatable.active() by {
            assert(s.skip(1)[j] == s[j + 1]);
        }
        if n - 1 < s.skip(1).len() {
            assert(s.skip(1)[n - 1] == s[n]);
        }
        lemma_first_active_is(s.skip(1), n - 1);
    }
}

proof fn lemma_insert_index_is<T>(s: Seq<UpdateInfo<T>>, time: u32, i: int)
    requires
        0 <= i <= s.len(),
        forall|j: int| 0 <= j < i ==> (#[trigger] s[j]).time <= time,
        i < s.len() ==> s[i].time > time,
    ensures
        insert_index(s, time) == i,
    decreases s.len(),
{
    if s.len() == 0 {
    } else if i == 0 {
    } else {
        assert(s[0].time <= time);
        assert forall|j: int| 0 <= j < i - 1 implies (#[trigger] s.skip(1)[j]).time <= time by {
            assert(s.skip(1)[j] == s[j + 1]);
        }
        if i - 1 < s.skip(1).len() {
            assert(s.skip(1)[i - 1] == s[i]);
        }
        lemma_insert_index_is(s.skip(1), time, i - 1);
    }
}

proof fn lemma_sorted_skip<T>(s: Seq<UpdateInfo<T>>, n: int)
    requires
        sorted_by_time(s),
        0 <= n <= s.len(),
    ensures
        sorted_by_time(s.skip(n)),
{
    assert forall|i: int, j: int|
        0 <= i < j < s.skip(n).len() implies (#[trigger] s.skip(n)[i]).time
        <= (#[trigger] s.skip(n)[j]).time by {
        assert(s.skip(n)[i] == s[n + i]);
        assert(s.skip(n)[j] == s[n + j]);
    }
}

proof fn lemma_insert_preserves_sorted<T>(s: Seq<UpdateInfo<T>>, info: UpdateInfo<T>, i: int)
    requires
        sorted_by_time(s),
        0 <= i <= s.len(),
        forall|j: int| 0 <= j < i ==> (#[trigger] s[j]).time <= info.time,
        i < s.len() ==> s[i].time > info.time,
    ensures
        sorted_by_time(s.insert(i, info)),
{
    s.insert_ensures(i, info);
    let t = s.insert(i, info);
    assert forall|a: int, b: int|
        0 <= a < b < t.len() implies (#[trigger] t[a]).time <= (#[trigger] t[b]).time by {
        if a > i {
            assert(s.insert(i, info)[(a - 1) + 1] == s[a - 1]);
        }
        if b > i {
            assert(s.insert(i, info)[(b - 1) + 1] == s[b - 1]);
        }
    }
}

/// An update queue: the priority mechanism that drives the simulation. It
/// owns every entity scheduled in it, keeps the pending entries ordered by
/// tick, and processes exactly one entity per call to
/// [`UpdateQueue::update`].
pub struct UpdateQueue<T> {
    queue: Vec<UpdateInfo<T>>,
}

impl<T> View for UpdateQueue<T> {
    type V = Seq<UpdateInfo<T>>;

    closed spec fn view(&self) -> Seq<UpdateInfo<T>> {
        self.queue@
    }
}

impl<T: Updatable> UpdateQueue<T> {
    /// The queue's invariant: pending entries stand in ascending tick
    /// order. [`UpdateQueue::new`] establishes it and every operation
    /// preserves it.
    pub open spec fn wf(&self) -> bool {
        sorted_by_time(self@)
    }

    /// Create an empty update queue.
    pub fn new() -> (q: UpdateQueue<T>)
        ensures
            q.wf(),
            q@ == Seq::<UpdateInfo<T>>::empty(),
    {
        let q = UpdateQueue { queue: Vec::new() };
        proof {
            assert(q@ =~= Seq::<UpdateInfo<T>>::empty());
        }
        q
    }

    /// Register `updatable` to be processed no earlier than `time`. The new
    /// entry takes its place in tick order, behind any entry already due at
    /// the same tick.
    ///
    /// The queue takes the entity by value: it holds exclusive access to it
    /// for as long as the entity stays scheduled, so nothing else can
    /// mutate it meanwhile and it cannot be scheduled twice at once.
    pub fn push(&mut self, time: u32, updatable: T)
        requires
            old(self).wf(),
        ensures
            final(self).wf(),
            final(self)@ == old(self)@.insert(
                insert_index(old(self)@, time),
                (UpdateInfo { time, updatable }),
            ),
    {
        let mut i: usize = 0;
        while i < self.queue.len()
            invariant
                i <= self.queue.len(),
                forall|j: int| 0 <= j < i ==> (#[trigger] self.queue@[j]).time <= time,
            ensures
                i <= self.queue.len(),
                forall|j: int| 0 <= j < i ==> (#[trigger] self.queue@[j]).time <= time,
                i < self.queue.len() ==> self.queue@[i as int].time > time,
            decreases self.queue.len() - i,
        {
            if self.queue[i].time > time {
                break ;
            }
            i = i + 1;
        }
        proof {
            lemma_insert_index_is(self.queue@, time, i as int);
            lemma_insert_preserves_sorted(
                self.queue@,
                (UpdateInfo { time, updatable }),
                i as int,
            );
        }
        self.queue.insert(i, UpdateInfo { time, updatable });
    }

    /// Advance the simulation by exactly one processed entity.
    ///
    /// Entries are removed in ascending tick order until one whose entity
    /// is still active is found; every inactive entry encountered on the
    /// way is discarded for good. If the queue runs out first, the schedule
    /// is exhausted and the result is `None` — a normal terminal condition,
    /// not a failure. Otherwise the active entity performs one unit of
    /// work against `effects`, is rescheduled `dt` ticks after its turn if
    /// it returned a delay `dt` (saturating at `u32::MAX`), or dropped for
    /// good if it returned `None`, and the tick of its turn is returned.
    #[verifier::loop_isolation(false)]
    pub fn update(&mut self, effects: &mut Vec<Effect>) -> (r: Option<u32>)
        requires
            old(self).wf(),
        ensures
            final(self).wf(),
            !has_active(old(self)@) ==> {
                &&& r is None
                &&& final(self)@ == Seq::<UpdateInfo<T>>::empty()
                &&& final(effects)@ == old(effects)@
            },
            has_active(old(self)@) ==> {
                let e = old(self)@[first_active(old(self)@)];
                &&& r == Some(e.time)
                &&& e.updatable.active()
                &&& forall|j: int|
                    0 <= j < first_active(old(self)@) ==> !(#[trigger] old(
                        self,
                    )@[j]).updatable.active()
                &&& final(self)@ == after_step(old(self)@)
                &&& final(effects)@ == old(effects)@ + e.updatable.emitted()
                &&& forall|i: int|
                    0 <= i < final(self)@.len() ==> e.time <= (#[trigger] final(self)@[i]).time
            },
    {
        let ghost orig = self.queue@;
        let ghost mut n: int = 0;
        loop
            invariant
                self.wf(),
                0 <= n <= orig.len(),
                self.queue@ == orig.skip(n),
                forall|j: int| 0 <= j < n ==> !(#[trigger] orig[j]).updatable.active(),
                effects@ == old(effects)@,
            decreases self.queue.len(),
        {
            if self.queue.len() == 0 {
                proof {
                    assert(n == orig.len());
                    lemma_first_active_is(orig, n);
                    lemma_first_active_bounds(orig);
                    assert(self.queue@ =~= Seq::<UpdateInfo<T>>::empty());
                }
                return None;
            }
            let is_act = self.queue[0].updatable.is_active();
            let info = self.queue.remove(0);
            proof {
                assert(info == orig.skip(n)[0]);
                assert(orig.skip(n)[0] == orig[n]);
                assert(self.queue@ =~= orig.skip(n + 1));
                lemma_sorted_skip(orig, n + 1);
            }
            if is_act {
                proof {
                    lemma_first_active_is(orig, n);
                    lemma_first_active_bounds(orig);
                }
                let now = info.time;
                let mut entity = info.updatable;
                let res = entity.update(effects);
                match res {
                    Some(dt) => {
                        let t2 = now.saturating_add(dt);
                        let ghost rest = self.queue@;
                        self.push(t2, entity);
                        proof {
                            assert(self.queue@ =~= after_step(orig));
                            lemma_insert_index_bounds(rest, t2);
                            rest.insert_ensures(
                                insert_index(rest, t2),
                                (UpdateInfo { time: t2, updatable: entity }),
                            );
                            assert forall|i: int|
                                0 <= i < self.queue@.len() implies now <= (#[trigger] self
                                .queue@[i]).time by {
                                let idx = insert_index(rest, t2);
                                if i < idx {
                                    assert(self.queue@[i] == rest[i]);
                                    assert(rest[i] == orig[n + 1 + i]);
                                } else if i > idx {
                                    assert(self.queue@[i] == rest[i - 1]);
                                    assert(rest[i - 1] == orig[n + 1 + (i - 1)]);
                                }
                            }
                        }
                    },
                    None => {
                        proof {
                            assert(self.queue@ =~= after_step(orig));
                            assert forall|i: int|
                                0 <= i < self.queue@.len() implies now <= (#[trigger] self
                                .queue@[i]).time by {
                                assert(self.queue@[i] == orig[n + 1 + i]);
                            }
                        }
                    },
                }
                return Some(now);
            }
            proof {
                assert(!orig[n].updatable.active());
                n = n + 1;
            }
        }
    }
}

proof fn lemma_insert_index_bounds<T>(s: Seq<UpdateInfo<T>>, time: u32)
    ensures
        0 <= insert_index(s, time) <= s.len(),
    decreases s.len(),
{
    if s.len() == 0 {
    } else if s[0].time <= time {
        lemma_insert_index_bounds(s.skip(1), time);
    }
}

/// Returned ticks never go backward. One step returns the tick of the
/// first active entry, and its own contract leaves behind only entries due
/// at or after the tick it returned; so when every pending entry is due no
/// earlier than some tick `t` — as the previous step left the queue — the
/// next successful step returns a tick of at least `t`.
pub proof fn lemma_ticks_nondecreasing<T: Updatable>(s: Seq<UpdateInfo<T>>, t: u32)
    requires
        has_active(s),
        forall|i: int| 0 <= i < s.len() ==> t <= (#[trigger] s[i]).time,
    ensures
        t <= s[first_active(s)].time,
{
    lemma_first_active_bounds(s);
}

/// Min-priority semantics: the entry a step invokes is due no later than
/// any other entry whose entity is still active. Inactive entries may be
/// due earlier, but they are only ever discarded, never invoked.
pub proof fn lemma_step_picks_earliest_active<T: Updatable>(s: Seq<UpdateInfo<T>>, i: int)
    requires
        sorted_by_time(s),
        has_active(s),
        0 <= i < s.len(),
        s[i].updatable.active(),
    ensures
        s[first_active(s)].time <= s[i].time,
{
    lemma_first_active_bounds(s);
}

/// A step leaves no entry due before the tick of the turn it processed:
/// the entries it kept stood behind the invoked one in tick order, and a
/// rescheduled entity is due at its turn plus a non-negative delay.
pub proof fn lemma_after_step_times<T: Updatable>(s: Seq<UpdateInfo<T>>)
    requires
        sorted_by_time(s),
        has_active(s),
    ensures
        forall|i: int|
            0 <= i < after_step(s).len() ==> s[first_active(s)].time <= (#[trigger] after_step(
                s,
            )[i]).time,
{
    lemma_first_active_bounds(s);
    let k = first_active(s);
    let e = s[k];
    let rest = s.skip(k + 1);
    match e.updatable.next_delay() {
        None => {
            assert forall|i: int|
                0 <= i < after_step(s).len() implies e.time <= (#[trigger] after_step(
                s,
            )[i]).time by {
                assert(after_step(s)[i] == s[k + 1 + i]);
            }
        },
        Some(dt) => {
            let t2 = e.time.saturating_add(dt);
            let idx = insert_index(rest, t2);
            lemma_insert_index_bounds(rest, t2);
            rest.insert_ensures(idx, (UpdateInfo { time: t2, updatable: e.updatable.next_state() }));
            assert forall|i: int|
                0 <= i < after_step(s).len() implies e.time <= (#[trigger] after_step(
                s,
            )[i]).time by {
                if i < idx {
                    assert(after_step(s)[i] == rest[i]);
                    assert(rest[i] == s[k + 1 + i]);
                } else if i > idx {
                    assert(rest.insert(idx, (UpdateInfo {
                        time: t2,
                        updatable: e.updatable.next_state(),
                    }))[(i - 1) + 1] == rest[i - 1]);
                    assert(rest[i - 1] == s[k + 1 + (i - 1)]);
                }
            }
        },
    }
}

/// Ticks never go backward across two consecutive successful steps: the
/// second step processes a turn due no earlier than the turn the first one
/// processed.
pub proof fn lemma_consecutive_ticks_nondecreasing<T: Updatable>(s: Seq<UpdateInfo<T>>)
    requires
        sorted_by_time(s),
        has_active(s),
        has_active(after_step(s)),
    ensures
        s[first_active(s)].time <= after_step(s)[first_active(after_step(s))].time,
{
    lemma_after_step_times(s);
    lemma_first_active_bounds(after_step(s));
}

/// An entity whose update asks for no further processing is dropped for
/// good: the step that invoked it leaves exactly the entries that stood
/// behind it, one entry fewer than it found from that point on, so the
/// scheduler holds nothing of it to invoke again.
pub proof fn lemma_finished_entity_dropped<T: Updatable>(s: Seq<UpdateInfo<T>>)
    requires
        has_active(s),
        s[first_active(s)].updatable.next_delay() is None,
    ensures
        after_step(s) == s.skip(first_active(s) + 1),
        after_step(s).len() == s.len() - first_active(s) - 1,
{
    lemma_first_active_bounds(s);
}

/// An entity that is inactive by the time a step examines the queue is
/// never the one invoked — the invoked entry is always the first active
/// one — and the step that encounters it removes it from storage: of the
/// `first_active(s) + 1` entries the step takes off the front, at most
/// one — the invoked, still-active one — is put back.
pub proof fn lemma_inactive_never_invoked<T: Updatable>(s: Seq<UpdateInfo<T>>, i: int)
    requires
        has_active(s),
        0 <= i < s.len(),
        !s[i].updatable.active(),
    ensures
        i != first_active(s),
        after_step(s).len() <= s.len() - first_active(s),
{
    lemma_first_active_bounds(s);
    let e = s[first_active(s)];
    let rest = s.skip(first_active(s) + 1);
    match e.updatable.next_delay() {
        None => {},
        Some(dt) => {
            lemma_insert_index_bounds(rest, e.time.saturating_add(dt));
            rest.insert_ensures(
                insert_index(rest, e.time.saturating_add(dt)),
                (UpdateInfo {
                    time: e.time.saturating_add(dt),
                    updatable: e.updatable.next_state(),
                }),
            );
        },
    }
}

/// Every entry a step leaves behind either stood strictly behind the
/// invoked entry, or is the invoked entity itself, rescheduled at its turn
/// plus the delay it asked for. In particular nothing of the discarded
/// prefix survives.
pub proof fn lemma_step_storage<T: Updatable>(s: Seq<UpdateInfo<T>>, j: int)
    requires
        has_active(s),
        0 <= j < after_step(s).len(),
    ensures
        ({
            let e = s[first_active(s)];
            let rest = s.skip(first_active(s) + 1);
            match e.updatable.next_delay() {
                None => rest.contains(after_step(s)[j]),
                Some(dt) => rest.contains(after_step(s)[j]) || after_step(s)[j] == (UpdateInfo {
                    time: e.time.saturating_add(dt),
                    updatable: e.updatable.next_state(),
                }),
            }
        }),
{
    lemma_first_active_bounds(s);
    let e = s[first_active(s)];
    let rest = s.skip(first_active(s) + 1);
    match e.updatable.next_delay() {
        None => {
            assert(rest[j] == after_step(s)[j]);
        },
        Some(dt) => {
            let info = UpdateInfo { time: e.time.saturating_add(dt), updatable: e.updatable.next_state() };
            let idx = insert_index(rest, e.time.saturating_add(dt));
            lemma_insert_index_bounds(rest, e.time.saturating_add(dt));
            rest.insert_ensures(idx, info);
            if j < idx {
                assert(after_step(s)[j] == rest[j]);
                assert(rest.contains(rest[j]));
            } else if j > idx {
                assert(rest.insert(idx, info)[(j - 1) + 1] == rest[j - 1]);
                assert(rest.contains(rest[j - 1]));
            }
        },
    }
}

/// Effect batches drain in processing order: each step appends the batch
/// its entity emitted to the end of the sink, so after two successful
/// steps the sink holds its original contents, then the batch of the
/// earlier step, then the batch of the later one — each batch internally
/// in the order its entity appended it.
pub proof fn lemma_effect_batches_in_order<T: Updatable>(
    s: Seq<UpdateInfo<T>>,
    e0: Seq<Effect>,
    e1: Seq<Effect>,
    e2: Seq<Effect>,
)
    requires
        has_active(s),
        has_active(after_step(s)),
        e1 == e0 + s[first_active(s)].updatable.emitted(),
        e2 == e1 + after_step(s)[first_active(after_step(s))].updatable.emitted(),
    ensures
        e2 == e0 + (s[first_active(s)].updatable.emitted() + after_step(
            s,
        )[first_active(after_step(s))].updatable.emitted()),
{
    assert(e2 =~= e0 + (s[first_active(s)].updatable.emitted() + after_step(
        s,
    )[first_active(after_step(s))].updatable.emitted()));
}

} // verus!
