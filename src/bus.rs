use vstd::prelude::*;
use crate::tree::{CanonicalizationEvent, EventView};

verus! {

/// Broadcast of canonicalization events to any number of subscribers.
///
/// Every published event is kept in order; each subscriber reads from its
/// own position, so a slow subscriber never holds back the publisher, and a
/// new subscriber sees only what is published after it joined.
pub struct CanonicalizationBus {
    pub log: Vec<CanonicalizationEvent>,
    pub cursors: Vec<usize>,
}

/// The mathematical content of a `CanonicalizationBus`.
pub ghost struct BusView {
    pub log: Seq<EventView>,
    pub cursors: Seq<usize>,
}

impl View for CanonicalizationBus {
    type V = BusView;

    open spec fn view(&self) -> BusView {
        BusView { log: self.log@.map_values(|e: CanonicalizationEvent| e@), cursors: self.cursors@ }
    }
}

impl CanonicalizationBus {
    /// Every subscriber's position lies within the log.
    pub open spec fn wf(&self) -> bool {
        forall|i: int| 0 <= i < self.cursors@.len() ==> #[trigger] self.cursors@[i] <= self.log@.len()
    }

    /// A bus with no subscribers and no events.
    pub fn new() -> (r: CanonicalizationBus)
        ensures
            r.wf(),
            r@.log == Seq::<EventView>::empty(),
            r@.cursors == Seq::<usize>::empty(),
    {
        let r = CanonicalizationBus { log: Vec::new(), cursors: Vec::new() };
        assert(r@.log =~= Seq::<EventView>::empty());
        r
    }

    /// Adds a subscriber and returns its id; it will see the events that are
    /// published from now on.
    pub fn subscribe(&mut self) -> (r: usize)
        requires
            old(self).wf(),
        ensures
            final(self).wf(),
            r == old(self)@.cursors.len(),
            final(self)@.cursors == old(self)@.cursors.push(old(self)@.log.len() as usize),
            final(self)@.log == old(self)@.log,
    {
        let n = self.cursors.len();
        let at = self.log.len();
        self.cursors.push(at);
        n
    }

    /// Publishes an event to every subscriber.
    pub fn publish(&mut self, event: CanonicalizationEvent)
        requires
            old(self).wf(),
        ensures
            final(self).wf(),
            final(self)@.log == old(self)@.log.push(event@),
            final(self)@.cursors == old(self)@.cursors,
    {
        let ghost e = event@;
        self.log.push(event);
        assert(self@.log =~= old(self)@.log.push(e));
    }

    /// The next event for subscriber `id`, if one has been published since it
    /// last read.
    pub fn try_recv(&mut self, id: usize) -> (r: Option<CanonicalizationEvent>)
        requires
            old(self).wf(),
        ensures
            final(self).wf(),
            final(self)@.log == old(self)@.log,
            if id < old(self)@.cursors.len() && old(self)@.cursors[id as int] < old(
                self,
            )@.log.len() {
                &&& r matches Some(e) && e@ == old(self)@.log[old(self)@.cursors[id as int] as int]
                &&& final(self)@.cursors == old(self)@.cursors.update(
                    id as int,
                    (old(self)@.cursors[id as int] + 1) as usize,
                )
            } else {
                r.is_none() && final(self)@.cursors == old(self)@.cursors
            },
    {
        if id >= self.cursors.len() {
            return None;
        }
        let c = self.cursors[id];
        if c >= self.log.len() {
            return None;
        }
        let e = self.log[c].duplicate();
        self.cursors.set(id, c + 1);
        Some(e)
    }
}

} // verus!
