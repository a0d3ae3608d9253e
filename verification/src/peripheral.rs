//! Cursor state of peripheral (sensor and actuator) channels, checkpointed at
//! the same boundary as the neural state.

use crate::ids::LeaseTerm;
use vstd::prelude::*;

verus! {

/// The position reached on one peripheral channel, under an authority term.
#[derive(Clone, Copy, Debug, PartialEq, Eq, Structural)]
pub struct PeripheralCursor {
    pub channel: u64,
    pub position: u64,
    pub lease_term: LeaseTerm,
}

/// The cursors of all peripheral channels of a shard.
#[derive(Clone, Debug)]
pub struct PeripheralCursorState {
    pub cursors: Vec<PeripheralCursor>,
}

/// Channels are listed once each, in increasing order.
pub open spec fn cursors_valid(cs: Seq<PeripheralCursor>) -> bool {
    forall|i: int, j: int| 0 <= i < j < cs.len() ==> (#[trigger] cs[i]).channel < (#[trigger] cs[j]).channel
}

impl View for PeripheralCursorState {
    type V = Seq<PeripheralCursor>;

    open spec fn view(&self) -> Seq<PeripheralCursor> {
        self.cursors@
    }
}

impl PeripheralCursorState {
    /// No cursor.
    pub fn empty() -> (s: PeripheralCursorState)
        ensures
            s@ == Seq::<PeripheralCursor>::empty(),
    {
        PeripheralCursorState { cursors: Vec::new() }
    }

    /// A field-for-field copy.
    pub fn copy(&self) -> (s: PeripheralCursorState)
        ensures
            s@ == self@,
    {
        let mut cursors: Vec<PeripheralCursor> = Vec::new();
        let mut i: usize = 0;
        while i < self.cursors.len()
            invariant
                i <= self@.len(),
                cursors@ == self@.subrange(0, i as int),
            decreases self@.len() - i,
        {
            cursors.push(self.cursors[i]);
            i = i + 1;
            assert(cursors@ =~= self@.subrange(0, i as int));
        }
        assert(self@.subrange(0, self@.len() as int) =~= self@);
        PeripheralCursorState { cursors }
    }

    /// Whether every channel is listed once, in increasing order.
    pub fn verify(&self) -> (ok: bool)
        ensures
            ok == cursors_valid(self@),
    {
        let mut i: usize = 1;
        if self.cursors.len() == 0 {
            return true;
        }
        while i < self.cursors.len()
            invariant
                1 <= i <= self@.len(),
                forall|a: int, b: int| 0 <= a < b < i ==> (#[trigger] self@[a]).channel < (
                #[trigger] self@[b]).channel,
            decreases self@.len() - i,
        {
            if self.cursors[i - 1].channel >= self.cursors[i].channel {
                return false;
            }
            proof {
                assert forall|a: int, b: int| 0 <= a < b < i + 1 implies (#[trigger] self@[a]).channel
                    < (#[trigger] self@[b]).channel by {
                    if b == i && a < i - 1 {
                        assert(self@[a].channel < self@[i - 1].channel);
                    }
                }
            }
            i = i + 1;
        }
        true
    }

    /// Places every cursor under `term`.
    pub fn reterm(&mut self, term: LeaseTerm)
        ensures
            final(self)@.len() == old(self)@.len(),
            forall|i: int|
                0 <= i < old(self)@.len() ==> #[trigger] final(self)@[i] == (PeripheralCursor {
                    lease_term: term,
                    ..old(self)@[i]
                }),
    {
        let mut i: usize = 0;
        while i < self.cursors.len()
            invariant
                i <= self@.len(),
                self@.len() == old(self)@.len(),
                forall|j: int|
                    0 <= j < i ==> #[trigger] self@[j] == (PeripheralCursor {
                        lease_term: term,
                        ..old(self)@[j]
                    }),
                forall|j: int| i <= j < self@.len() ==> #[trigger] self@[j] == old(self)@[j],
            decreases self@.len() - i,
        {
            let c = self.cursors[i];
            self.cursors.set(i, PeripheralCursor { lease_term: term, ..c });
            i = i + 1;
        }
    }
}

} // verus!
