//! The scoped slot table: one stack of optional values, cut into frames by a
//! stack of frame-start offsets. A slot is addressed by the index of its frame
//! (the depth) and its position within that frame (the id).
use crate::error::ScopeError;
use vstd::prelude::*;

verus! {

/// The mathematical content of a [`NameSpace`].
#[verifier::ext_equal]
pub struct Table<T> {
    /// The slots of all frames, oldest first. `None` marks a slot that was taken.
    pub slots: Seq<Option<T>>,
    /// For each open frame, the number of slots that were there when it was opened.
    pub offsets: Seq<nat>,
}

impl<T> Table<T> {
    /// The table of a fresh evaluation: no slot, and the outermost frame open.
    pub open spec fn fresh() -> Self {
        Table { slots: Seq::empty(), offsets: seq![0nat] }
    }

    /// Frame starts are ordered and none lies beyond the slots.
    pub open spec fn wf(self) -> bool {
        &&& forall|i: int| 0 <= i < self.offsets.len() ==> self.offsets[i] <= self.slots.len()
        &&& forall|i: int, j: int|
            0 <= i <= j < self.offsets.len() ==> self.offsets[i] <= self.offsets[j]
    }

    /// Where the innermost frame starts; `0` when no frame is open.
    pub open spec fn top(self) -> nat {
        if self.offsets.len() == 0 {
            0
        } else {
            self.offsets.last()
        }
    }

    /// Where the frame `depth` ends: at the start of the next frame, or at the
    /// end of the slots for the innermost one.
    pub open spec fn bound(self, depth: nat) -> nat {
        if depth + 1 < self.offsets.len() {
            self.offsets[depth as int + 1]
        } else {
            self.slots.len()
        }
    }

    /// The table after a new frame was opened.
    pub open spec fn open(self) -> Self {
        Table { slots: self.slots, offsets: self.offsets.push(self.slots.len()) }
    }

    /// The table after the innermost frame was closed: its slots are gone.
    pub open spec fn close(self) -> Self {
        if self.offsets.len() == 0 {
            Table { slots: Seq::empty(), offsets: self.offsets }
        } else {
            Table {
                slots: self.slots.take(self.offsets.last() as int),
                offsets: self.offsets.drop_last(),
            }
        }
    }

    /// The table after `item` was appended to the innermost frame.
    pub open spec fn push(self, item: T) -> Self {
        Table { slots: self.slots.push(Some(item)), offsets: self.offsets }
    }

    /// Whether the table has the frames and the slots of `old`, as they were,
    /// below whatever else it has.
    pub open spec fn extends(self, old: Self) -> bool {
        &&& old.offsets.is_prefix_of(self.offsets)
        &&& old.slots.is_prefix_of(self.slots)
    }

    /// Whether the table has the frames of `old`, where they were, and no
    /// fewer slots.
    pub open spec fn outlasts(self, old: Self) -> bool {
        &&& old.offsets.is_prefix_of(self.offsets)
        &&& old.slots.len() <= self.slots.len()
    }

    /// The absolute index of the slot `(depth, id)`.
    pub open spec fn position(self, depth: nat, id: nat) -> Result<nat, ScopeError> {
        if depth >= self.offsets.len() {
            Err(ScopeError::UndefinedDepth)
        } else if self.offsets[depth as int] + id >= self.bound(depth) {
            Err(ScopeError::IllegalId)
        } else {
            Ok(self.offsets[depth as int] + id)
        }
    }

    /// What a read of the slot `(depth, id)` gives.
    pub open spec fn peek(self, depth: nat, id: nat) -> Result<T, ScopeError> {
        match self.position(depth, id) {
            Err(e) => Err(e),
            Ok(pos) => match self.slots[pos as int] {
                None => Err(ScopeError::SlotEmpty),
                Some(v) => Ok(v),
            },
        }
    }

    /// The table after the slot `(depth, id)` was taken: it is empty where it
    /// can be addressed, and nothing else changes.
    pub open spec fn take(self, depth: nat, id: nat) -> Self {
        match self.position(depth, id) {
            Err(_) => self,
            Ok(pos) => Table { slots: self.slots.update(pos as int, None), offsets: self.offsets },
        }
    }

    /// Whether `item` can be returned to the slot `(depth, id)`.
    pub open spec fn accepts(self, depth: nat, id: nat) -> Result<(), ScopeError> {
        match self.position(depth, id) {
            Err(e) => Err(e),
            Ok(pos) => match self.slots[pos as int] {
                None => Ok(()),
                Some(_) => Err(ScopeError::SlotNotEmpty),
            },
        }
    }

    /// The table after `item` was returned to the slot `(depth, id)`: unchanged
    /// where the slot cannot be addressed or still holds a value.
    pub open spec fn put_back(self, depth: nat, id: nat, item: T) -> Self {
        match self.accepts(depth, id) {
            Err(_) => self,
            Ok(_) => Table {
                slots: self.slots.update(self.position(depth, id).unwrap() as int, Some(item)),
                offsets: self.offsets,
            },
        }
    }
}

impl<T> Table<T> {
    /// A slot that can be addressed is one of the slots.
    pub proof fn lemma_position(self, depth: nat, id: nat)
        requires
            self.wf(),
        ensures
            self.position(depth, id) matches Ok(pos) ==> pos < self.slots.len(),
            self.take(depth, id).wf(),
            self.take(depth, id).position(depth, id) == self.position(depth, id),
            forall|item: T| #[trigger] self.put_back(depth, id, item).wf(),
    {
        if depth + 1 < self.offsets.len() {
            assert(self.offsets[depth as int + 1] <= self.slots.len());
        }
    }

    /// Closing a frame right after it was opened gives the table back.
    pub proof fn lemma_open_close(self)
        ensures
            self.open().wf() <==> self.wf(),
            self.open().close() == self,
    {
        let o = self.open();
        assert(o.offsets.drop_last() =~= self.offsets);
        assert(o.slots.take(o.offsets.last() as int) =~= self.slots);
        if self.wf() {
            assert(o.wf());
        }
        if o.wf() {
            assert forall|i: int, j: int| 0 <= i <= j < self.offsets.len() implies self.offsets[i]
                <= self.offsets[j] by {
                assert(o.offsets[i] <= o.offsets[j]);
            }
            assert forall|i: int| 0 <= i < self.offsets.len() implies self.offsets[i]
                <= self.slots.len() by {
                assert(o.offsets[i] <= o.slots.len());
            }
        }
    }

    /// What is registered in the innermost frame is gone when the frame is
    /// closed.
    pub proof fn lemma_push_close(self, item: T)
        requires
            self.wf(),
        ensures
            self.push(item).wf(),
            self.push(item).close() == self.close(),
    {
        let p = self.push(item);
        if self.offsets.len() > 0 {
            assert(self.offsets[self.offsets.len() - 1] <= self.slots.len());
            assert(p.slots.take(p.offsets.last() as int) =~= self.slots.take(
                self.offsets.last() as int,
            ));
        }
    }
}

/// One operation on a table.
pub enum Step<T> {
    /// A frame is opened.
    Open,
    /// The innermost frame is closed.
    Close,
    /// A value is appended to the innermost frame.
    Register(T),
    /// The slot `(depth, id)` is taken.
    Take(nat, nat),
    /// A value is returned to the slot `(depth, id)`.
    PutBack(nat, nat, T),
}

impl<T> Table<T> {
    /// The table after one operation.
    pub open spec fn step(self, step: Step<T>) -> Self {
        match step {
            Step::Open => self.open(),
            Step::Close => self.close(),
            Step::Register(item) => self.push(item),
            Step::Take(depth, id) => self.take(depth, id),
            Step::PutBack(depth, id, item) => self.put_back(depth, id, item),
        }
    }

    /// The table after a sequence of operations, first to last.
    pub open spec fn run(self, steps: Seq<Step<T>>) -> Self
        decreases steps.len(),
    {
        if steps.len() == 0 {
            self
        } else {
            self.run(steps.drop_last()).step(steps.last())
        }
    }
}

/// The number of frames that `steps` open and leave open, or `None` where a
/// `Close` comes with none of these frames open.
pub open spec fn nesting<T>(steps: Seq<Step<T>>) -> Option<nat>
    decreases steps.len(),
{
    if steps.len() == 0 {
        Some(0)
    } else {
        match nesting(steps.drop_last()) {
            None => None,
            Some(open) => match steps.last() {
                Step::Open => Some(open + 1),
                Step::Close => if open == 0 {
                    None
                } else {
                    Some((open - 1) as nat)
                },
                _ => Some(open),
            },
        }
    }
}

impl<T> Table<T> {
    /// Every operation keeps the table well formed.
    pub proof fn lemma_step_wf(self, step: Step<T>)
        requires
            self.wf(),
        ensures
            self.step(step).wf(),
    {
        match step {
            Step::Open => {
                self.lemma_open_close();
            },
            Step::Close => {},
            Step::Register(item) => {
                self.lemma_push_close(item);
            },
            Step::Take(depth, id) => {},
            Step::PutBack(depth, id, item) => {},
        }
    }

    /// While the frames opened by `steps` nest within a frame opened before
    /// them, that frame and all below it stay where they are.
    proof fn lemma_run_keeps_frame(self, steps: Seq<Step<T>>)
        requires
            self.wf(),
            self.offsets.len() > 0,
            nesting(steps) is Some,
        ensures
            self.run(steps).wf(),
            self.run(steps).offsets.len() == self.offsets.len() + nesting(steps).unwrap(),
            self.run(steps).offsets.take(self.offsets.len() as int) == self.offsets,
            self.run(steps).slots.len() >= self.offsets.last(),
        decreases steps.len(),
    {
        if steps.len() == 0 {
            assert(self.offsets.take(self.offsets.len() as int) =~= self.offsets);
            assert(self.offsets[self.offsets.len() - 1] <= self.slots.len());
        } else {
            let before = self.run(steps.drop_last());
            self.lemma_run_keeps_frame(steps.drop_last());
            before.lemma_step_wf(steps.last());
            let after = before.step(steps.last());
            let n = self.offsets.len() as int;
            assert(before.offsets[n - 1] == before.offsets.take(n)[n - 1]);
            assert(after.offsets.take(n) =~= before.offsets.take(n));
            match steps.last() {
                Step::Close => {
                    assert(before.offsets[n - 1] <= before.offsets[before.offsets.len() - 1]);
                },
                _ => {},
            }
        }
    }

    /// Frames nest: when a frame is opened, any operations follow that close
    /// every frame they open, and the frame is closed, then the frames are
    /// those from before the frame was opened and there are as many slots as
    /// then.
    pub proof fn lemma_frames_nest(self, steps: Seq<Step<T>>)
        requires
            self.wf(),
            nesting(steps) == Some(0nat),
        ensures
            self.open().run(steps).close().wf(),
            self.open().run(steps).close().offsets == self.offsets,
            self.open().run(steps).close().slots.len() == self.slots.len(),
    {
        let opened = self.open();
        self.lemma_open_close();
        opened.lemma_run_keeps_frame(steps);
        let inner = opened.run(steps);
        assert(inner.offsets =~= inner.offsets.take(opened.offsets.len() as int));
        inner.lemma_step_wf(Step::Close);
        assert(inner.close().offsets =~= self.offsets);
    }
}

/// A stack of slots shared by all frames of one evaluation run.
#[derive(Clone, Debug, PartialEq, Eq)]
pub struct NameSpace<T> {
    slots: Vec<Option<T>>,
    offsets: Vec<usize>,
}

impl<T> View for NameSpace<T> {
    type V = Table<T>;

    closed spec fn view(&self) -> Table<T> {
        Table { slots: self.slots@, offsets: self.offsets@.map_values(|o: usize| o as nat) }
    }
}

impl<T> NameSpace<T> {
    /// The invariant of the table: see [`Table::wf`].
    pub open spec fn wf(&self) -> bool {
        self@.wf()
    }

    /// A table with no slot and the outermost frame open.
    pub fn new() -> (ns: Self)
        ensures
            ns.wf(),
            ns@ == Table::<T>::fresh(),
    {
        let mut offsets: Vec<usize> = Vec::new();
        offsets.push(0);
        let ns = NameSpace { slots: Vec::new(), offsets };
        assert(ns@.offsets =~= seq![0nat]);
        ns
    }

    /// Resolves `(depth, id)` to an index into the slots.
    fn get_pos(&self, depth: usize, id: usize) -> (r: Result<usize, ScopeError>)
        requires
            self.wf(),
        ensures
            match r {
                Ok(pos) => self@.position(depth as nat, id as nat) == Ok::<nat, ScopeError>(
                    pos as nat,
                ) && pos < self.slots@.len(),
                Err(e) => self@.position(depth as nat, id as nat) == Err::<nat, ScopeError>(e),
            },
    {
        if depth >= self.offsets.len() {
            return Err(ScopeError::UndefinedDepth);
        }
        let offset: usize = self.offsets[depth];
        let next_offset: usize = if depth + 1 < self.offsets.len() {
            self.offsets[depth + 1]
        } else {
            self.slots.len()
        };
        assert(next_offset == self@.bound(depth as nat));
        assert(next_offset <= self.slots@.len());
        if id >= next_offset || offset >= next_offset - id {
            return Err(ScopeError::IllegalId);
        }
        Ok(offset + id)
    }

    /// Where the innermost frame starts.
    fn get_last_offset(&self) -> (r: usize)
        ensures
            r == self@.top(),
    {
        if self.offsets.len() == 0 {
            0
        } else {
            self.offsets[self.offsets.len() - 1]
        }
    }

    /// Opens a frame at the end of the slots and returns its depth.
    pub fn chunk(&mut self) -> (depth: usize)
        requires
            old(self).wf(),
        ensures
            final(self).wf(),
            final(self)@ == old(self)@.open(),
            depth == old(self)@.offsets.len(),
    {
        let len = self.slots.len();
        self.offsets.push(len);
        assert(self@.offsets =~= old(self)@.offsets.push(len as nat));
        self.offsets.len() - 1
    }

    /// Closes the innermost frame and drops the slots registered in it.
    pub fn back(&mut self)
        requires
            old(self).wf(),
        ensures
            final(self).wf(),
            final(self)@ == old(self)@.close(),
    {
        let offset: usize = match self.offsets.pop() {
            Some(o) => o,
            None => 0,
        };
        self.slots.truncate(offset);
        assert(self@.offsets =~= old(self)@.close().offsets);
        assert(self@.slots =~= old(self)@.close().slots);
    }

    /// Appends `item` to the innermost frame and returns its id there.
    pub fn register(&mut self, item: T) -> (id: usize)
        requires
            old(self).wf(),
        ensures
            final(self).wf(),
            final(self)@ == old(self)@.push(item),
            id == old(self)@.slots.len() - old(self)@.top(),
    {
        self.slots.push(Some(item));
        let last = self.get_last_offset();
        assert(self@.offsets == old(self)@.offsets);
        assert(last <= old(self)@.slots.len()) by {
            if old(self)@.offsets.len() > 0 {
                assert(old(self)@.offsets[old(self)@.offsets.len() - 1] <= old(self)@.slots.len());
            }
        }
        self.slots.len() - last - 1
    }

    /// Reads the slot `(depth, id)` and leaves it as it is.
    pub fn get(&self, depth: usize, id: usize) -> (r: Result<&T, ScopeError>)
        requires
            self.wf(),
        ensures
            match r {
                Ok(v) => self@.peek(depth as nat, id as nat) == Ok::<T, ScopeError>(*v),
                Err(e) => self@.peek(depth as nat, id as nat) == Err::<T, ScopeError>(e),
            },
    {
        let pos = match self.get_pos(depth, id) {
            Ok(pos) => pos,
            Err(e) => {
                return Err(e);
            },
        };
        match &self.slots[pos] {
            Some(v) => Ok(v),
            None => Err(ScopeError::SlotEmpty),
        }
    }

    /// Takes the value out of the slot `(depth, id)`, which is empty afterwards.
    pub fn borrow(&mut self, depth: usize, id: usize) -> (r: Result<T, ScopeError>)
        requires
            old(self).wf(),
        ensures
            final(self).wf(),
            r == old(self)@.peek(depth as nat, id as nat),
            final(self)@ == old(self)@.take(depth as nat, id as nat),
    {
        let pos = match self.get_pos(depth, id) {
            Ok(pos) => pos,
            Err(e) => {
                return Err(e);
            },
        };
        let res = self.slots[pos].take();
        assert(self@.slots =~= old(self)@.take(depth as nat, id as nat).slots);
        match res {
            Some(v) => Ok(v),
            None => Err(ScopeError::SlotEmpty),
        }
    }

    /// Returns `item` to the empty slot `(depth, id)`.
    pub fn ret(&mut self, depth: usize, id: usize, item: T) -> (r: Result<(), ScopeError>)
        requires
            old(self).wf(),
        ensures
            final(self).wf(),
            r == old(self)@.accepts(depth as nat, id as nat),
            final(self)@ == old(self)@.put_back(depth as nat, id as nat, item),
    {
        let pos = match self.get_pos(depth, id) {
            Ok(pos) => pos,
            Err(e) => {
                return Err(e);
            },
        };
        if self.slots[pos].is_some() {
            return Err(ScopeError::SlotNotEmpty);
        }
        self.slots[pos] = Some(item);
        assert(self@.slots =~= old(self)@.put_back(depth as nat, id as nat, item).slots);
        Ok(())
    }
}

} // verus!
