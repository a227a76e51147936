//! What happens during a search, for those who watch it.
use crate::blocks::Block;
use vstd::prelude::*;

verus! {

/// What happens during a search.
#[derive(Debug, Clone, Copy, PartialEq, Eq, Structural)]
pub enum Event {
    /// The error maps are about to be computed.
    Initializing,
    /// A pass starts; `number` counts from one.
    Started { number: usize, shift_x: i32, shift_y: i32 },
    /// A block is done.
    BlockDone { pixels: u64 },
    /// The blocks of a phase are done; `phase` counts from one.
    PhaseDone { number: usize, phase: usize },
    /// The pass changed nothing.
    Converged { number: usize },
    /// The search is over.
    Finished,
}

/// A watcher, with the events that were shown to it so far.
pub struct Progress<F: Fn(Event)> {
    show: F,
    shown: Ghost<Seq<Event>>,
}

impl<F: Fn(Event)> View for Progress<F> {
    type V = Seq<Event>;

    closed spec fn view(&self) -> Seq<Event> {
        self.shown@
    }
}

impl<F: Fn(Event)> Progress<F> {
    /// The function that is called with each event.
    pub closed spec fn watcher(self) -> F {
        self.show
    }

    /// Whether the watcher was called with an event, and returned.
    pub open spec fn told(self, event: Event) -> bool {
        self.watcher().ensures((event,), ())
    }

    /// Whether the watcher can be shown any event, and was told of all that count as shown.
    pub open spec fn ready(self) -> bool {
        &&& forall|e: Event| #[trigger] self.watcher().requires((e,))
        &&& forall|k: int| 0 <= k < self@.len() ==> self.told(#[trigger] self@[k])
    }

    /// A watcher that was shown nothing yet.
    pub fn new(show: F) -> (r: Progress<F>)
        requires
            forall|e: Event| #[trigger] show.requires((e,)),
        ensures
            r.ready(),
            r.watcher() == show,
            r@ == Seq::<Event>::empty(),
    {
        Progress { show, shown: Ghost(Seq::empty()) }
    }

    /// Shows an event to the watcher.
    pub fn emit(&mut self, event: Event)
        requires
            old(self).ready(),
        ensures
            old(self).told(event),
            final(self).watcher() == old(self).watcher(),
            final(self).ready(),
            final(self)@ == old(self)@.push(event),
    {
        let ghost seen = self@;
        assert(self.watcher().requires((event,)));
        (self.show)(event);
        self.shown = Ghost(self.shown@.push(event));
        assert forall|k: int| 0 <= k < self@.len() implies self.told(#[trigger] self@[k]) by {
            if k < seen.len() {
                assert(old(self).told(seen[k]));
            }
        }
    }
}

/// What is shown of a block.
pub open spec fn block_event(block: Block) -> Event {
    Event::BlockDone { pixels: block.pixel_count() }
}

/// What is shown of the first `n` blocks of a list.
pub open spec fn block_events(blocks: Seq<Block>, n: nat) -> Seq<Event> {
    Seq::new(n, |k: int| block_event(blocks[k]))
}

/// What is shown of a phase: its blocks, and that they are done. A phase without blocks goes by
/// unseen.
pub open spec fn phase_events(blocks: Seq<Block>, number: usize, phase: int) -> Seq<Event> {
    if blocks.len() == 0 {
        Seq::empty()
    } else {
        block_events(blocks, blocks.len()).push(
            Event::PhaseDone { number, phase: (phase + 1) as usize },
        )
    }
}

} // verus!
