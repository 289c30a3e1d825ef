//! Assembly lines: queues of units under manufacture, driven by a clock.
//!
//! Times are whole nanoseconds since a fixed point in the past. Only the
//! unit at the head of a line is worked on; the others wait untouched.

use vstd::prelude::*;
use std::collections::VecDeque;

verus! {

/// How long the manufacturing of one unit takes: two seconds.
pub const MANUFACTURING_TIME: u64 = 2_000_000_000;

/// The latest time that the clock may show.
pub const LATEST: u64 = 18_446_744_071_709_551_615;

/// The kinds of units that can be manufactured.
#[derive(Debug, Clone, Copy, PartialEq, Eq, Structural)]
pub enum UnitType {
    Attacker,
}

/// The lesser of the manufacturing time and the given span.
pub open spec fn clipped(span: int) -> int {
    if span > MANUFACTURING_TIME {
        MANUFACTURING_TIME as int
    } else {
        span
    }
}

/// What is known of a unit in an assembly line.
pub struct ItemState {
    /// Production time accumulated until the last stop or restart.
    pub accumulated: u64,
    /// Time of the last restart; none while stopped.
    pub restarted: Option<u64>,
    /// The kind of unit.
    pub unit: UnitType,
}

impl ItemState {
    /// A unit on which no work was done yet.
    pub open spec fn fresh(unit: UnitType) -> ItemState {
        ItemState { accumulated: 0, restarted: None, unit }
    }

    /// No more time is accumulated than manufacturing takes.
    pub open spec fn wf(self) -> bool {
        self.accumulated <= MANUFACTURING_TIME
    }

    /// Whether the clock may show `time`: not beyond the latest time, and
    /// not before the last restart.
    pub open spec fn admits(self, time: u64) -> bool {
        &&& time <= LATEST
        &&& self.restarted matches Some(restarted) ==> restarted <= time
    }

    /// For how long the unit has been manufactured in all, at `time`.
    pub open spec fn progress_at(self, time: u64) -> int {
        match self.restarted {
            Some(restarted) => self.accumulated + (time - restarted),
            None => self.accumulated as int,
        }
    }

    /// The unit after work on it has stopped at `time`.
    pub open spec fn stopped(self, time: u64) -> ItemState {
        ItemState {
            accumulated: clipped(self.progress_at(time)) as u64,
            restarted: None,
            unit: self.unit,
        }
    }

    /// The unit after work on it has begun anew at `time`.
    pub open spec fn restarted_at(self, time: u64) -> ItemState {
        ItemState { restarted: Some(time), ..self.stopped(time) }
    }
}

/// A single unit being manufactured, or waiting for it, in an assembly line.
#[derive(Debug, Clone, Copy)]
pub struct ProductionItem {
    /// Total accumulated production time of the item until the last
    /// stop or restart of the manufacturing.
    accumulated: u64,
    /// Time at which manufacturing of the unit was restarted for the last
    /// time; none while it is stopped.
    restarted: Option<u64>,
    unit: UnitType,
}

impl View for ProductionItem {
    type V = ItemState;

    closed spec fn view(&self) -> ItemState {
        ItemState { accumulated: self.accumulated, restarted: self.restarted, unit: self.unit }
    }
}

impl ProductionItem {
    pub fn new(unit: UnitType) -> (item: ProductionItem)
        ensures
            item@ == ItemState::fresh(unit),
    {
        ProductionItem { accumulated: 0, restarted: None, unit }
    }

    pub fn unit(&self) -> (unit: UnitType)
        ensures
            unit == self@.unit,
    {
        self.unit
    }

    /// Returns true if the unit is actively manufactured.
    pub fn is_active(&self) -> (active: bool)
        ensures
            active == self@.restarted is Some,
    {
        self.restarted.is_some()
    }

    /// Restarts (stops and starts) manufacturing of the unit.
    pub fn restart(&mut self, time: u64)
        requires
            old(self)@.wf(),
            old(self)@.admits(time),
        ensures
            final(self)@ == old(self)@.restarted_at(time),
            final(self)@.wf(),
    {
        self.stop(time);
        self.restarted = Some(time);
    }

    /// Stops manufacturing of the unit if it is currently being manufactured.
    ///
    /// Total accumulated manufacturing time is clipped to the time it takes to
    /// produce the unit.
    pub fn stop(&mut self, time: u64)
        requires
            old(self)@.wf(),
            old(self)@.admits(time),
        ensures
            final(self)@ == old(self)@.stopped(time),
            final(self)@.wf(),
    {
        if let Some(last) = self.restarted {
            self.accumulated = self.accumulated + (time - last);
            if self.accumulated > MANUFACTURING_TIME {
                self.accumulated = MANUFACTURING_TIME;
            }
        }
        self.restarted = None;
    }

    /// Returns None if the unit is not yet finished. Otherwise, it returns for
    /// how long it has been finished.
    pub fn finished(&self, time: u64) -> (past: Option<u64>)
        requires
            self@.wf(),
            self@.admits(time),
        ensures
            self@.progress_at(time) >= MANUFACTURING_TIME ==> past == Some(
                (self@.progress_at(time) - MANUFACTURING_TIME) as u64,
            ),
            self@.progress_at(time) < MANUFACTURING_TIME ==> past is None,
    {
        let progress = self.progress(time);
        if progress >= MANUFACTURING_TIME {
            Some(progress - MANUFACTURING_TIME)
        } else {
            None
        }
    }

    /// Returns for how long cumulatively the unit has been manufactured.
    pub fn progress(&self, time: u64) -> (progress: u64)
        requires
            self@.wf(),
            self@.admits(time),
        ensures
            progress == self@.progress_at(time),
    {
        match self.restarted {
            Some(restarted) => self.accumulated + (time - restarted),
            None => self.accumulated,
        }
    }
}

/// The units of a line are sound: none has more time accumulated than
/// manufacturing takes, and no work was done on the units behind the first.
pub open spec fn line_wf(line: Seq<ItemState>) -> bool {
    &&& forall|i: int| 0 <= i < line.len() ==> (#[trigger] line[i]).wf()
    &&& forall|i: int| 1 <= i < line.len() ==> #[trigger] line[i] == ItemState::fresh(line[i].unit)
}

/// Whether the clock of a line may show `time`.
pub open spec fn line_admits(line: Seq<ItemState>, time: u64) -> bool {
    &&& time <= LATEST
    &&& line.len() > 0 ==> line[0].admits(time)
}

/// Whether the first unit of the line is finished at `time`.
pub open spec fn ready(line: Seq<ItemState>, time: u64) -> bool {
    line.len() > 0 && line[0].progress_at(time) >= MANUFACTURING_TIME
}

/// The line after its first, finished unit has left it at `time`: work on
/// the next unit has begun at the moment at which the first was finished, if
/// the first was being worked on.
pub open spec fn next_up(line: Seq<ItemState>, time: u64) -> Seq<ItemState> {
    let rest = line.skip(1);
    if line[0].restarted is Some && rest.len() > 0 {
        let past = line[0].progress_at(time) - MANUFACTURING_TIME;
        rest.update(0, rest[0].restarted_at((time - past) as u64))
    } else {
        rest
    }
}

/// The line after `restart` at `time`: work on the first unit has begun, if
/// it was at rest.
pub open spec fn restart_line(line: Seq<ItemState>, time: u64) -> Seq<ItemState> {
    if line.len() > 0 && line[0].restarted is None {
        line.update(0, line[0].restarted_at(time))
    } else {
        line
    }
}

/// The line after `stop` at `time`: work on the first unit is at rest, if it
/// was going on.
pub open spec fn stop_line(line: Seq<ItemState>, time: u64) -> Seq<ItemState> {
    if line.len() > 0 && line[0].restarted is Some {
        line.update(0, line[0].stopped(time))
    } else {
        line
    }
}

/// For how many more units an owner has room who has `count` and may have
/// `limit`.
pub open spec fn room(count: u32, limit: u32) -> nat {
    if count < limit {
        (limit - count) as nat
    } else {
        0
    }
}

/// What a line delivers at `time` to an owner who has room for `room` more
/// units, and what becomes of the line: finished units leave it one after
/// the other while there is room, and the line is stopped once there is
/// none.
pub open spec fn delivery(line: Seq<ItemState>, time: u64, room: nat) -> (Seq<UnitType>, Seq<
    ItemState,
>)
    decreases line.len(),
{
    if room == 0 {
        (Seq::empty(), stop_line(line, time))
    } else if !ready(line, time) {
        (Seq::empty(), line)
    } else {
        let later = delivery(next_up(line, time), time, (room - 1) as nat);
        (seq![line[0].unit] + later.0, later.1)
    }
}

/// A line delivers no more units than its owner has room for.
pub proof fn delivery_fits(line: Seq<ItemState>, time: u64, room: nat)
    ensures
        delivery(line, time, room).0.len() <= room,
    decreases line.len(),
{
    if room != 0 && ready(line, time) {
        delivery_fits(next_up(line, time), time, (room - 1) as nat);
    }
}

/// What a line delivers at its turn to an owner who has `count` units and
/// may have `limit`, and what becomes of the line: the line is restarted if
/// the owner has room, and then delivers as `delivery` says.
pub open spec fn turn(line: Seq<ItemState>, time: u64, count: u32, limit: u32) -> (
    Seq<UnitType>,
    Seq<ItemState>,
) {
    delivery(
        if count < limit {
            restart_line(line, time)
        } else {
            line
        },
        time,
        room(count, limit),
    )
}

/// The units that the owners have after the first `turns` lines have had
/// their turn, one after the other: at its turn a line delivers to its
/// owner, whose count grows by what it gets.
pub open spec fn counts_after(
    lines: Seq<Seq<ItemState>>,
    owners: Seq<u8>,
    counts: Seq<u32>,
    time: u64,
    limit: u32,
    turns: nat,
) -> Seq<u32>
    decreases turns,
{
    if turns == 0 {
        counts
    } else {
        let before = counts_after(lines, owners, counts, time, limit, (turns - 1) as nat);
        let owner = owners[turns - 1] as int;
        let got = turn(lines[turns - 1], time, before[owner], limit).0;
        before.update(owner, (before[owner] + got.len()) as u32)
    }
}

/// Turns change the owners' counts, not their number.
pub proof fn counts_keep_length(
    lines: Seq<Seq<ItemState>>,
    owners: Seq<u8>,
    counts: Seq<u32>,
    time: u64,
    limit: u32,
    turns: nat,
)
    requires
        turns <= owners.len(),
        forall|i: int| 0 <= i < owners.len() ==> (#[trigger] owners[i]) < counts.len(),
    ensures
        counts_after(lines, owners, counts, time, limit, turns).len() == counts.len(),
    decreases turns,
{
    if turns > 0 {
        counts_keep_length(lines, owners, counts, time, limit, (turns - 1) as nat);
    }
}

/// The units that the first `turns` lines deliver at their turns, each with
/// the number of the line that made it.
pub open spec fn units_after(
    lines: Seq<Seq<ItemState>>,
    owners: Seq<u8>,
    counts: Seq<u32>,
    time: u64,
    limit: u32,
    turns: nat,
) -> Seq<(usize, UnitType)>
    decreases turns,
{
    if turns == 0 {
        Seq::empty()
    } else {
        let before = counts_after(lines, owners, counts, time, limit, (turns - 1) as nat);
        let got = turn(lines[turns - 1], time, before[owners[turns - 1] as int], limit).0;
        units_after(lines, owners, counts, time, limit, (turns - 1) as nat) + Seq::new(
            got.len(),
            |k: int| ((turns - 1) as usize, got[k]),
        )
    }
}

/// The lines, each as the sequence of its units.
pub open spec fn line_views(lines: Seq<AssemblyLine>) -> Seq<Seq<ItemState>> {
    Seq::new(lines.len(), |i: int| lines[i]@)
}

/// An assembly line attached to every building and capable of production of
/// any units.
pub struct AssemblyLine {
    queue: VecDeque<ProductionItem>,
}

impl View for AssemblyLine {
    type V = Seq<ItemState>;

    /// The units in the line, the one being worked on first.
    closed spec fn view(&self) -> Seq<ItemState> {
        Seq::new(self.queue@.len(), |i: int| self.queue@[i]@)
    }
}

impl Default for AssemblyLine {
    fn default() -> (line: AssemblyLine)
        ensures
            line@ == Seq::<ItemState>::empty(),
    {
        let line = AssemblyLine { queue: VecDeque::new() };
        assert(line@ =~= Seq::<ItemState>::empty());
        line
    }
}

impl AssemblyLine {
    /// Number of units in the line.
    pub fn len(&self) -> (len: usize)
        ensures
            len == self@.len(),
    {
        self.queue.len()
    }

    /// Put another unit into the manufacturing queue.
    pub fn enqueue(&mut self, unit: UnitType)
        ensures
            final(self)@ == old(self)@.push(ItemState::fresh(unit)),
    {
        self.queue.push_back(ProductionItem::new(unit));
        assert(self@ =~= old(self)@.push(ItemState::fresh(unit)));
    }

    /// In case the assembly line is stopped, restart the production.
    ///
    /// # Arguments
    ///
    /// * `time` - elapsed time since a fixed point in time in the past.
    pub fn restart(&mut self, time: u64)
        requires
            line_wf(old(self)@),
            line_admits(old(self)@, time),
        ensures
            line_wf(final(self)@),
            line_admits(final(self)@, time),
            final(self)@ == restart_line(old(self)@, time),
    {
        if self.queue.len() == 0 {
            return ;
        }
        let front = self.queue[0];
        assert(front@ == self@[0]);
        if !front.is_active() {
            let ghost before = self@;
            let mut item = self.queue.pop_front().unwrap();
            item.restart(time);
            self.queue.push_front(item);
            proof {
                assert(self@ =~= before.update(0, before[0].restarted_at(time)));
                assert forall|i: int| 1 <= i < self@.len() implies #[trigger] self@[i]
                    == ItemState::fresh(self@[i].unit) by {
                    assert(self@[i] == before[i]);
                }
            }
        }
    }

    /// In case the assembly line is actively manufacturing some units, stop
    /// it.
    ///
    /// # Arguments
    ///
    /// * `time` - elapsed time since a fixed point in time in the past.
    pub fn stop(&mut self, time: u64)
        requires
            line_wf(old(self)@),
            line_admits(old(self)@, time),
        ensures
            line_wf(final(self)@),
            line_admits(final(self)@, time),
            final(self)@ == stop_line(old(self)@, time),
    {
        if self.queue.len() == 0 {
            return ;
        }
        let front = self.queue[0];
        assert(front@ == self@[0]);
        if front.is_active() {
            let ghost before = self@;
            let mut item = self.queue.pop_front().unwrap();
            item.stop(time);
            self.queue.push_front(item);
            proof {
                assert(self@ =~= before.update(0, before[0].stopped(time)));
                assert forall|i: int| 1 <= i < self@.len() implies #[trigger] self@[i]
                    == ItemState::fresh(self@[i].unit) by {
                    assert(self@[i] == before[i]);
                }
            }
        }
    }

    /// Update the production line.
    ///
    /// This method should be called repeatedly and during every tick until it
    /// returns None. The returned values correspond to finished units.
    ///
    /// # Arguments
    ///
    /// * `time` - elapsed time since a fixed point in time in the past.
    pub fn produce(&mut self, time: u64) -> (unit: Option<UnitType>)
        requires
            line_wf(old(self)@),
            line_admits(old(self)@, time),
        ensures
            line_wf(final(self)@),
            line_admits(final(self)@, time),
            ready(old(self)@, time) ==> unit == Some(old(self)@[0].unit) && final(self)@
                == next_up(old(self)@, time),
            !ready(old(self)@, time) ==> unit is None && final(self)@ == old(self)@,
    {
        if self.queue.len() == 0 {
            return None;
        }
        let front = self.queue[0];
        let ghost before = self@;
        assert(front@ == before[0]);
        match front.finished(time) {
            Some(time_past) => {
                let item = self.queue.pop_front().unwrap();
                assert(self@ =~= before.skip(1));
                if item.is_active() && self.queue.len() > 0 {
                    let ghost rest = self@;
                    let mut next = self.queue.pop_front().unwrap();
                    assert(next@ == before[1]);
                    next.restart(time - time_past);
                    self.queue.push_front(next);
                    proof {
                        assert(self@ =~= rest.update(
                            0,
                            rest[0].restarted_at((time - time_past) as u64),
                        ));
                        assert forall|i: int| 0 <= i < self@.len() implies (
                        #[trigger] self@[i]).wf() by {
                            if i > 0 {
                                assert(self@[i] == before[i + 1]);
                            }
                        }
                        assert forall|i: int| 1 <= i < self@.len() implies #[trigger] self@[i]
                            == ItemState::fresh(self@[i].unit) by {
                            assert(self@[i] == before[i + 1]);
                        }
                    }
                } else {
                    proof {
                        assert forall|i: int| 0 <= i < self@.len() implies (
                        #[trigger] self@[i]).wf() by {
                            assert(self@[i] == before[i + 1]);
                        }
                        assert forall|i: int| 1 <= i < self@.len() implies #[trigger] self@[i]
                            == ItemState::fresh(self@[i].unit) by {
                            assert(self@[i] == before[i + 1]);
                        }
                        if self@.len() > 0 {
                            assert(self@[0] == before[1]);
                        }
                    }
                }
                Some(item.unit())
            },
            None => None,
        }
    }

    /// Runs the line at `time` for an owner who has `count` units and may
    /// have `limit`: restarts the line if the owner has room, hands out the
    /// finished units while the owner has room, and stops the line once the
    /// owner has none.
    pub fn deliver(&mut self, time: u64, count: u32, limit: u32) -> (units: Vec<UnitType>)
        requires
            line_wf(old(self)@),
            line_admits(old(self)@, time),
        ensures
            line_wf(final(self)@),
            line_admits(final(self)@, time),
            (units@, final(self)@) == delivery(
                if count < limit {
                    restart_line(old(self)@, time)
                } else {
                    old(self)@
                },
                time,
                room(count, limit),
            ),
    {
        let mut units: Vec<UnitType> = Vec::new();
        let mut count = count;
        if count < limit {
            self.restart(time);
        }
        let ghost start = self@;
        let ghost whole = delivery(start, time, room(count, limit));
        proof {
            assert(units@ + whole.0 =~= whole.0);
        }
        loop
            invariant
                line_wf(self@),
                line_admits(self@, time),
                units@ + delivery(self@, time, room(count, limit)).0 == whole.0,
                delivery(self@, time, room(count, limit)).1 == whole.1,
            ensures
                units@ == whole.0,
                self@ == whole.1,
                line_wf(self@),
                line_admits(self@, time),
            decreases self@.len(),
        {
            if count >= limit {
                self.stop(time);
                proof {
                    assert(units@ + Seq::<UnitType>::empty() =~= units@);
                }
                break ;
            }
            let ghost so_far = units@;
            match self.produce(time) {
                Some(unit) => {
                    units.push(unit);
                    count = count + 1;
                    proof {
                        let later = delivery(self@, time, room(count, limit));
                        assert(so_far + (seq![unit] + later.0) =~= units@ + later.0);
                    }
                },
                None => {
                    proof {
                        assert(units@ + Seq::<UnitType>::empty() =~= units@);
                    }
                    break ;
                },
            }
        }
        units
    }
}

/// Runs every line at `time`, one after the other. Line `i` belongs to owner
/// `owners[i]`, who has `counts[owners[i]]` units when the line's turn comes
/// and may have `limit`. Each line delivers to its owner as
/// [`AssemblyLine::deliver`] says, and the owner's count grows by what it
/// gets before the next line has its turn, so that no owner gets more than
/// it had room for at the start, however many lines it owns.
pub fn deliver_all(
    lines: &mut Vec<AssemblyLine>,
    owners: &Vec<u8>,
    counts: &mut Vec<u32>,
    time: u64,
    limit: u32,
) -> (units: Vec<(usize, UnitType)>)
    requires
        old(lines)@.len() == owners@.len(),
        forall|i: int| 0 <= i < owners@.len() ==> (#[trigger] owners@[i]) < old(counts)@.len(),
        forall|i: int| 0 <= i < old(lines)@.len() ==> line_wf((#[trigger] old(lines)@[i])@),
        forall|i: int| 0 <= i < old(lines)@.len() ==> line_admits((#[trigger] old(lines)@[i])@, time),
    ensures
        final(lines)@.len() == old(lines)@.len(),
        final(counts)@ == counts_after(
            line_views(old(lines)@),
            owners@,
            old(counts)@,
            time,
            limit,
            old(lines)@.len(),
        ),
        units@ == units_after(
            line_views(old(lines)@),
            owners@,
            old(counts)@,
            time,
            limit,
            old(lines)@.len(),
        ),
        forall|i: int|
            0 <= i < old(lines)@.len() ==> (#[trigger] final(lines)@[i])@ == turn(
                old(lines)@[i]@,
                time,
                counts_after(
                    line_views(old(lines)@),
                    owners@,
                    old(counts)@,
                    time,
                    limit,
                    i as nat,
                )[owners@[i] as int],
                limit,
            ).1,
        forall|i: int| 0 <= i < final(lines)@.len() ==> line_wf((#[trigger] final(lines)@[i])@),
        forall|i: int|
            0 <= i < final(lines)@.len() ==> line_admits((#[trigger] final(lines)@[i])@, time),
        final(counts)@.len() == old(counts)@.len(),
        forall|owner: int|
            0 <= owner < old(counts)@.len() ==> old(counts)@[owner] <= (
            #[trigger] final(counts)@[owner]) <= old(counts)@[owner] + room(
                old(counts)@[owner],
                limit,
            ),
{
    let ghost start = line_views(lines@);
    let ghost first = counts@;
    let mut units: Vec<(usize, UnitType)> = Vec::new();
    let mut i: usize = 0;
    while i < lines.len()
        invariant
            i <= lines@.len(),
            lines@.len() == owners@.len(),
            lines@.len() == start.len(),
            counts@.len() == first.len(),
            forall|k: int| 0 <= k < owners@.len() ==> (#[trigger] owners@[k]) < counts@.len(),
            forall|k: int| 0 <= k < lines@.len() ==> line_wf((#[trigger] lines@[k])@),
            forall|k: int| 0 <= k < lines@.len() ==> line_admits((#[trigger] lines@[k])@, time),
            forall|k: int| i <= k < lines@.len() ==> (#[trigger] lines@[k])@ == start[k],
            forall|k: int|
                0 <= k < i ==> (#[trigger] lines@[k])@ == turn(
                    start[k],
                    time,
                    counts_after(start, owners@, first, time, limit, k as nat)[owners@[k] as int],
                    limit,
                ).1,
            counts@ == counts_after(start, owners@, first, time, limit, i as nat),
            units@ == units_after(start, owners@, first, time, limit, i as nat),
            forall|owner: int|
                0 <= owner < first.len() ==> first[owner] <= (#[trigger] counts@[owner])
                    <= first[owner] + room(first[owner], limit),
        decreases lines@.len() - i,
    {
        let owner = owners[i] as usize;
        let count = counts[owner];
        let ghost before = lines@[i as int]@;
        let made = lines[i].deliver(time, count, limit);
        proof {
            delivery_fits(
                if count < limit {
                    restart_line(before, time)
                } else {
                    before
                },
                time,
                room(count, limit),
            );
        }
        let got = made.len();
        counts[owner] = count + got as u32;
        let ghost so_far = units@;
        let mut k: usize = 0;
        while k < got
            invariant
                k <= got,
                got == made@.len(),
                units@ == so_far + Seq::new(k as nat, |j: int| (i, made@[j])),
            decreases got - k,
        {
            units.push((i, made[k]));
            k += 1;
            assert(units@ =~= so_far + Seq::new(k as nat, |j: int| (i, made@[j])));
        }
        proof {
            assert(units@ =~= so_far + Seq::new(made@.len(), |j: int| (i as usize, made@[j])));
        }
        i += 1;
    }
    units
}

} // verus!
