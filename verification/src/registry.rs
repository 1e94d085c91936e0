//! The drones the interpreter commands, in a fixed order, and the effect of
//! each instruction on them.
use crate::command::{CommandView, SdkCommand};
use crate::drone::{BarrierPoll, Drone, DroneView, POLL_INTERVAL_MS};
use crate::script::{
    instruction_of, kind_of, strip_cr, target_of, targeted_text, Instruction, InstructionView,
    LineKind,
};
use crate::text::{chars_of, payload_of, same_chars};
use vstd::prelude::*;

verus! {

/// The drones under command, addressed by position.
pub struct Registry {
    drones: Vec<Drone>,
}

/// What the interpreter has to do itself after an instruction was executed.
#[derive(Clone, Copy, Debug, PartialEq, Eq, Structural)]
pub enum Action {
    /// Go on with the next line.
    Continue,
    /// Sleep for this many seconds, then go on.
    Sleep(u64),
    /// Hold a barrier over all drones, then go on.
    AwaitBlocks,
}

/// A barrier in progress: how many drones, in registry order, it has seen
/// with no blocking command outstanding.
pub struct Barrier {
    passed: usize,
}

/// Every drone's counter is exact.
pub open spec fn all_well_formed(drones: Seq<DroneView>) -> bool {
    forall|i: int| 0 <= i < drones.len() ==> (#[trigger] drones[i]).well_formed()
}

/// The counters of the drones that `instr` enqueues a blocking command on
/// can still be raised.
pub open spec fn has_room(drones: Seq<DroneView>, instr: InstructionView) -> bool {
    match instr {
        InstructionView::SendTo(k, c) => (k < drones.len() && c.blocking)
            ==> drones[k as int].block_counter < usize::MAX,
        InstructionView::SendAll(c) => c.blocking ==> forall|i: int|
            0 <= i < drones.len() ==> (#[trigger] drones[i]).block_counter < usize::MAX,
        _ => true,
    }
}

/// The drones after `instr`: a command for one position joins that drone's
/// queue, if the position exists; a command for all joins every queue;
/// nothing else changes anything.
pub open spec fn apply(drones: Seq<DroneView>, instr: InstructionView) -> Seq<DroneView> {
    match instr {
        InstructionView::SendTo(k, c) => if k < drones.len() {
            drones.update(k as int, drones[k as int].enqueue(c))
        } else {
            drones
        },
        InstructionView::SendAll(c) => Seq::new(drones.len(), |i: int| drones[i].enqueue(c)),
        _ => drones,
    }
}

/// What is left for the interpreter to do after `instr`.
pub open spec fn action_of(instr: InstructionView) -> Action {
    match instr {
        InstructionView::Sleep(n) => Action::Sleep(n as u64),
        InstructionView::Barrier => Action::AwaitBlocks,
        _ => Action::Continue,
    }
}

/// The drones after every instruction of a program, in order.
pub open spec fn run_program(drones: Seq<DroneView>, program: Seq<InstructionView>) -> Seq<
    DroneView,
>
    decreases program.len(),
{
    if program.len() == 0 {
        drones
    } else {
        apply(run_program(drones, program.drop_last()), program.last())
    }
}

/// The commands that a program holds for the drone at position `i`, in the
/// order of the program.
pub open spec fn commands_for(program: Seq<InstructionView>, i: nat) -> Seq<CommandView>
    decreases program.len(),
{
    if program.len() == 0 {
        Seq::empty()
    } else {
        let earlier = commands_for(program.drop_last(), i);
        match program.last() {
            InstructionView::SendTo(k, c) => if k == i {
                earlier.push(c)
            } else {
                earlier
            },
            InstructionView::SendAll(c) => earlier.push(c),
            _ => earlier,
        }
    }
}

/// How far a barrier that has passed `from` drones gets on one look at the
/// drones: past every drone, in order, that has nothing outstanding, up to
/// the first that has.
pub open spec fn advance(from: nat, drones: Seq<DroneView>) -> nat
    decreases drones.len() - from,
{
    if from >= drones.len() || drones[from as int].block_counter > 0 {
        from
    } else {
        advance(from + 1, drones)
    }
}

/// How many drones a barrier has passed after looking at each of the given
/// snapshots of the drones in turn.
pub open spec fn passed_after(snapshots: Seq<Seq<DroneView>>) -> nat
    decreases snapshots.len(),
{
    if snapshots.len() == 0 {
        0
    } else {
        advance(passed_after(snapshots.drop_last()), snapshots.last())
    }
}

/// Some snapshot shows the drone at position `i` with its counter at zero.
pub open spec fn seen_drained(snapshots: Seq<Seq<DroneView>>, i: int) -> bool {
    exists|t: int| 0 <= t < snapshots.len() && (#[trigger] snapshots[t])[i].block_counter == 0
}

impl View for Registry {
    type V = Seq<DroneView>;

    closed spec fn view(&self) -> Seq<DroneView> {
        Seq::new(self.drones@.len(), |i: int| self.drones@[i]@)
    }
}

impl Registry {
    /// A registry without drones.
    pub fn new() -> (r: Registry)
        ensures
            r@ == Seq::<DroneView>::empty(),
    {
        let r = Registry { drones: Vec::new() };
        assert(r@ =~= Seq::<DroneView>::empty());
        r
    }

    /// Appends a drone and returns its position.
    pub fn add(&mut self, drone: Drone) -> (index: usize)
        ensures
            index == old(self)@.len(),
            final(self)@ == old(self)@.push(drone@),
    {
        let index = self.drones.len();
        self.drones.push(drone);
        assert(self@ =~= old(self)@.push(drone@));
        index
    }

    /// The number of drones.
    pub fn len(&self) -> (n: usize)
        ensures
            n == self@.len(),
    {
        self.drones.len()
    }

    /// The drone at a position, if there is one.
    pub fn get(&self, index: usize) -> (r: Option<&Drone>)
        ensures
            match r {
                Some(d) => index < self@.len() && d@ == self@[index as int],
                None => index >= self@.len(),
            },
    {
        if index < self.drones.len() {
            Some(&self.drones[index])
        } else {
            None
        }
    }

    /// The position of the first drone with the given identifier.
    pub fn find(&self, id: &str) -> (r: Option<usize>)
        ensures
            match r {
                Some(k) => k < self@.len() && self@[k as int].id == id@ && forall|j: int|
                    0 <= j < k ==> (#[trigger] self@[j]).id != id@,
                None => forall|j: int| 0 <= j < self@.len() ==> (#[trigger] self@[j]).id != id@,
            },
    {
        let wanted = chars_of(id);
        let mut i: usize = 0;
        while i < self.drones.len()
            invariant
                i <= self.drones.len(),
                wanted@ == id@,
                forall|j: int| 0 <= j < i ==> (#[trigger] self@[j]).id != id@,
            decreases self.drones.len() - i,
        {
            let have = chars_of(self.drones[i].id());
            if same_chars(have.as_slice(), wanted.as_slice()) {
                return Some(i);
            }
            i = i + 1;
        }
        None
    }

    /// The identifiers of the drones, in registry order.
    pub fn ids(&self) -> (r: Vec<String>)
        ensures
            r.len() == self@.len(),
            forall|i: int| 0 <= i < r.len() ==> (#[trigger] r@[i])@ == self@[i].id,
    {
        let mut r: Vec<String> = Vec::new();
        let mut i: usize = 0;
        while i < self.drones.len()
            invariant
                i <= self.drones.len(),
                r.len() == i,
                forall|j: int| 0 <= j < i ==> (#[trigger] r@[j])@ == self@[j].id,
            decreases self.drones.len() - i,
        {
            assert(self@[i as int] == self.drones@[i as int]@);
            r.push(self.drones[i].id().to_owned());
            i = i + 1;
        }
        r
    }

    /// Whether every drone's counter is exact.
    pub fn is_well_formed(&self) -> (r: bool)
        ensures
            r == all_well_formed(self@),
    {
        let mut i: usize = 0;
        while i < self.drones.len()
            invariant
                i <= self.drones.len(),
                forall|j: int| 0 <= j < i ==> (#[trigger] self@[j]).well_formed(),
            decreases self.drones.len() - i,
        {
            assert(self@[i as int] == self.drones@[i as int]@);
            if !self.drones[i].is_well_formed() {
                return false;
            }
            i = i + 1;
        }
        true
    }

    /// Whether `execute` can count every blocking command that `instr`
    /// enqueues.
    #[verifier::loop_isolation(false)]
    pub fn has_room(&self, instr: &Instruction) -> (r: bool)
        ensures
            r == has_room(self@, instr@),
    {
        match instr {
            Instruction::SendTo(index, cmd) => {
                if *index < self.drones.len() && cmd.blocking {
                    assert(self@[*index as int] == self.drones@[*index as int]@);
                    self.drones[*index].block_counter() < usize::MAX
                } else {
                    true
                }
            },
            Instruction::SendAll(cmd) => {
                if !cmd.blocking {
                    return true;
                }
                let mut i: usize = 0;
                while i < self.drones.len()
                    invariant
                        i <= self.drones.len(),
                        forall|j: int|
                            0 <= j < i ==> (#[trigger] self@[j]).block_counter < usize::MAX,
                    decreases self.drones.len() - i,
                {
                    assert(self@[i as int] == self.drones@[i as int]@);
                    if self.drones[i].block_counter() == usize::MAX {
                        assert(self@[i as int].block_counter == usize::MAX);
                        return false;
                    }
                    i = i + 1;
                }
                true
            },
            _ => true,
        }
    }

    /// Carries out one instruction as far as the drones are concerned, and
    /// says what is left for the interpreter to do.
    pub fn execute(&mut self, instr: Instruction) -> (action: Action)
        requires
            all_well_formed(old(self)@),
            has_room(old(self)@, instr@),
        ensures
            final(self)@ == apply(old(self)@, instr@),
            all_well_formed(final(self)@),
            action == action_of(instr@),
    {
        match instr {
            Instruction::Nothing => Action::Continue,
            Instruction::Sleep(seconds) => Action::Sleep(seconds),
            Instruction::Barrier => Action::AwaitBlocks,
            Instruction::SendTo(index, cmd) => {
                if index < self.drones.len() {
                    assert(old(self)@[index as int].well_formed());
                    self.drones[index].add_command(cmd);
                    assert(self@ =~= apply(old(self)@, instr@));
                    assert forall|j: int| 0 <= j < self@.len() implies (
                    #[trigger] self@[j]).well_formed() by {
                        if j != index {
                            assert(self@[j] == old(self)@[j]);
                        }
                    }
                }
                Action::Continue
            },
            Instruction::SendAll(cmd) => {
                let n = self.drones.len();
                let mut i: usize = 0;
                while i < n
                    invariant
                        i <= n,
                        n == self@.len(),
                        n == old(self)@.len(),
                        all_well_formed(old(self)@),
                        all_well_formed(self@),
                        cmd.blocking ==> forall|j: int|
                            0 <= j < n ==> (#[trigger] old(self)@[j]).block_counter < usize::MAX,
                        forall|j: int|
                            0 <= j < i ==> #[trigger] self@[j] == old(self)@[j].enqueue(cmd@),
                        forall|j: int| i <= j < n ==> #[trigger] self@[j] == old(self)@[j],
                    decreases n - i,
                {
                    let ghost before = self@;
                    assert(before[i as int] == old(self)@[i as int]);
                    assert(old(self)@[i as int].well_formed());
                    let copy = cmd.clone();
                    self.drones[i].add_command(copy);
                    assert forall|j: int| 0 <= j < n implies #[trigger] self@[j] == if j == i {
                        before[j].enqueue(cmd@)
                    } else {
                        before[j]
                    } by {}
                    assert forall|j: int| 0 <= j < n implies (
                    #[trigger] self@[j]).well_formed() by {
                        if j != i {
                            assert(before[j].well_formed());
                        }
                    }
                    i = i + 1;
                }
                assert(self@ =~= apply(old(self)@, instr@));
                Action::Continue
            },
        }
    }

    /// Takes the head of one drone's queue for transmission.
    pub fn next_to_send(&mut self, index: usize) -> (r: Option<SdkCommand>)
        requires
            all_well_formed(old(self)@),
        ensures
            all_well_formed(final(self)@),
            match r {
                Some(c) => {
                    &&& index < old(self)@.len()
                    &&& old(self)@[index as int].queue.len() > 0
                    &&& c@ == old(self)@[index as int].queue[0]
                    &&& final(self)@ == old(self)@.update(
                        index as int,
                        old(self)@[index as int].take(),
                    )
                },
                None => {
                    &&& final(self)@ == old(self)@
                    &&& index < old(self)@.len() ==> old(self)@[index as int].queue.len() == 0
                },
            },
    {
        if index < self.drones.len() {
            assert(old(self)@[index as int].well_formed());
            let r = self.drones[index].next_to_send();
            assert(self@ =~= match r {
                Some(c) => old(self)@.update(index as int, old(self)@[index as int].take()),
                None => old(self)@,
            });
            r
        } else {
            None
        }
    }

    /// Hands one drone a datagram that arrived for it. A position without a
    /// drone takes nothing in.
    pub fn receive(&mut self, index: usize, frame: &[u8])
        requires
            all_well_formed(old(self)@),
        ensures
            all_well_formed(final(self)@),
            final(self)@ == if index < old(self)@.len() {
                old(self)@.update(index as int, old(self)@[index as int].respond(frame@))
            } else {
                old(self)@
            },
    {
        if index < self.drones.len() {
            assert(old(self)@[index as int].well_formed());
            self.drones[index].receive(frame);
            assert(self@ =~= old(self)@.update(
                index as int,
                old(self)@[index as int].respond(frame@),
            ));
        }
    }
}

impl View for Barrier {
    type V = nat;

    closed spec fn view(&self) -> nat {
        self.passed as nat
    }
}

impl Barrier {
    /// A barrier that has passed no drone yet.
    pub fn new() -> (b: Barrier)
        ensures
            b@ == 0,
    {
        Barrier { passed: 0 }
    }

    /// One look at the drones: passes every drone, in registry order, that
    /// has no blocking command outstanding, and stops at the first that has.
    pub fn poll(&mut self, registry: &Registry) -> (r: BarrierPoll)
        ensures
            final(self)@ == advance(old(self)@, registry@),
            r == if final(self)@ >= registry@.len() {
                BarrierPoll::Drained
            } else {
                BarrierPoll::Wait(POLL_INTERVAL_MS)
            },
    {
        let n = registry.drones.len();
        while self.passed < n
            invariant
                n == registry@.len(),
                advance(self@, registry@) == advance(old(self)@, registry@),
            decreases n - self.passed,
        {
            assert(registry@[self.passed as int] == registry.drones@[self.passed as int]@);
            match registry.drones[self.passed].await_blocks() {
                BarrierPoll::Drained => {
                    self.passed = self.passed + 1;
                },
                BarrierPoll::Wait(millis) => {
                    return BarrierPoll::Wait(millis);
                },
            }
        }
        BarrierPoll::Drained
    }
}

/// One look moves a barrier forward only, past drones that have nothing
/// outstanding, and stops it at a drone that has.
pub proof fn lemma_advance(from: nat, drones: Seq<DroneView>)
    ensures
        from <= advance(from, drones),
        from <= drones.len() ==> advance(from, drones) <= drones.len(),
        forall|i: int|
            from <= i < advance(from, drones) ==> (#[trigger] drones[i]).block_counter == 0,
        advance(from, drones) < drones.len() ==> drones[advance(from, drones) as int].block_counter
            > 0,
    decreases drones.len() - from,
{
    if from >= drones.len() || drones[from as int].block_counter > 0 {
    } else {
        lemma_advance(from + 1, drones);
    }
}

/// A barrier is over only when each drone has been seen, at some look, with
/// its counter at zero: for every drone the barrier has passed there is a
/// snapshot in which that drone had no blocking command outstanding.
pub proof fn lemma_barrier(snapshots: Seq<Seq<DroneView>>, n: nat)
    requires
        forall|t: int| 0 <= t < snapshots.len() ==> (#[trigger] snapshots[t]).len() == n,
    ensures
        passed_after(snapshots) <= n,
        forall|i: int| 0 <= i < passed_after(snapshots) ==> #[trigger] seen_drained(snapshots, i),
    decreases snapshots.len(),
{
    if snapshots.len() > 0 {
        let earlier = snapshots.drop_last();
        let last = snapshots.last();
        assert forall|t: int| 0 <= t < earlier.len() implies (#[trigger] earlier[t]).len() == n by {
            assert(earlier[t] == snapshots[t]);
        }
        lemma_barrier(earlier, n);
        let from = passed_after(earlier);
        lemma_advance(from, last);
        assert forall|i: int| 0 <= i < passed_after(snapshots) implies #[trigger] seen_drained(
            snapshots,
            i,
        ) by {
            if i < from {
                assert(seen_drained(earlier, i));
                let t = choose|t: int|
                    0 <= t < earlier.len() && (#[trigger] earlier[t])[i].block_counter == 0;
                assert(snapshots[t] == earlier[t]);
            } else {
                assert(last[i].block_counter == 0);
                assert(snapshots[snapshots.len() - 1] == last);
            }
        }
    }
}

/// Interpretation order is queue order: a program adds to each drone's
/// queue the commands it holds for that drone, in the order of its lines,
/// behind what was queued before, and touches nothing else of the drone but
/// its counter.
pub proof fn lemma_program_order(drones: Seq<DroneView>, program: Seq<InstructionView>)
    ensures
        run_program(drones, program).len() == drones.len(),
        forall|i: int|
            0 <= i < drones.len() ==> (#[trigger] run_program(drones, program)[i]).queue
                == drones[i].queue + commands_for(program, i as nat),
        forall|i: int|
            0 <= i < drones.len() ==> {
                let after = #[trigger] run_program(drones, program)[i];
                &&& after.id == drones[i].id
                &&& after.last_response == drones[i].last_response
                &&& after.ack == drones[i].ack
                &&& after.in_flight == drones[i].in_flight
            },
    decreases program.len(),
{
    if program.len() == 0 {
        assert forall|i: int| 0 <= i < drones.len() implies (#[trigger] run_program(
            drones,
            program,
        )[i]).queue == drones[i].queue + commands_for(program, i as nat) by {
            assert(drones[i].queue + Seq::<CommandView>::empty() =~= drones[i].queue);
        }
    } else {
        let earlier = program.drop_last();
        lemma_program_order(drones, earlier);
        let before = run_program(drones, earlier);
        let after = run_program(drones, program);
        assert forall|i: int| 0 <= i < drones.len() implies (#[trigger] after[i]).queue
            == drones[i].queue + commands_for(program, i as nat) by {
            let queued = before[i].queue;
            let new = commands_for(earlier, i as nat);
            assert(queued == drones[i].queue + new);
            match program.last() {
                InstructionView::SendTo(k, c) => {
                    if k == i {
                        assert(queued.push(c) =~= drones[i].queue + new.push(c));
                    }
                },
                InstructionView::SendAll(c) => {
                    assert(queued.push(c) =~= drones[i].queue + new.push(c));
                },
                _ => {},
            }
        }
        assert forall|i: int| 0 <= i < drones.len() implies {
            let d = #[trigger] after[i];
            &&& d.id == drones[i].id
            &&& d.last_response == drones[i].last_response
            &&& d.ack == drones[i].ack
            &&& d.in_flight == drones[i].in_flight
        } by {
            assert(before[i].id == drones[i].id);
        }
    }
}

/// A broadcast line puts exactly one command, the normalised line, at the
/// back of the queue of every drone, and changes nothing else.
pub proof fn lemma_broadcast_reaches_every_drone(drones: Seq<DroneView>, line: Seq<char>)
    requires
        kind_of(line) == LineKind::Broadcast,
    ensures
        apply(drones, instruction_of(line)).len() == drones.len(),
        forall|i: int|
            0 <= i < drones.len() ==> #[trigger] apply(drones, instruction_of(line))[i]
                == drones[i].enqueue(
                CommandView {
                    text: payload_of(strip_cr(line)),
                    blocking: strip_cr(line).contains('@'),
                },
            ),
{
}

/// A targeted line puts one command at the back of the queue of the drone
/// it names and leaves every other drone as it was; where it names no drone
/// of the registry, it leaves all of them as they were.
pub proof fn lemma_targeted_reaches_one_drone(drones: Seq<DroneView>, line: Seq<char>)
    requires
        kind_of(line) == LineKind::Targeted,
    ensures
        apply(drones, instruction_of(line)).len() == drones.len(),
        forall|i: int|
            0 <= i < drones.len() ==> #[trigger] apply(drones, instruction_of(line))[i]
                == if target_of(strip_cr(line)) == Some(i as nat) {
                drones[i].enqueue(
                    CommandView {
                        text: targeted_text(strip_cr(line)),
                        blocking: strip_cr(line).contains('@'),
                    },
                )
            } else {
                drones[i]
            },
{
}

/// Comments, blank lines, delays and barriers enqueue nothing.
pub proof fn lemma_other_lines_enqueue_nothing(drones: Seq<DroneView>, line: Seq<char>)
    requires
        kind_of(line) == LineKind::Skip || kind_of(line) == LineKind::Delay || kind_of(line)
            == LineKind::Barrier,
    ensures
        apply(drones, instruction_of(line)) == drones,
{
}

} // verus!
