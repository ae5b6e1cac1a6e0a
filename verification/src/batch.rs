//! Batches of items that a background task writes out.

use vstd::prelude::*;
use vstd::seq_lib::*;

verus! {

/// Items that wait to be written, up to a number at which they are.
pub struct Batcher<T> {
    buf: Vec<T>,
    max: usize,
}

impl<T> View for Batcher<T> {
    type V = Seq<T>;

    closed spec fn view(&self) -> Seq<T> {
        self.buf@
    }
}

/// What waits, and what is to be written, once an item has come in.
pub open spec fn with_item<T>(waiting: Seq<T>, item: T, max: nat) -> (Seq<T>, Option<Seq<T>>) {
    if waiting.len() + 1 >= max {
        (Seq::empty(), Some(waiting.push(item)))
    } else {
        (waiting.push(item), None)
    }
}

/// What is to be written when everything is.
pub open spec fn all_waiting<T>(waiting: Seq<T>) -> Option<Seq<T>> {
    if waiting.len() == 0 {
        None
    } else {
        Some(waiting)
    }
}

/// The items of a batch.
pub open spec fn batch_items<T>(batch: Option<Vec<T>>) -> Option<Seq<T>> {
    match batch {
        Some(v) => Some(v@),
        None => None,
    }
}

impl<T> Batcher<T> {
    #[verifier::type_invariant]
    spec fn below_max(self) -> bool {
        self.buf@.len() < self.max
    }

    /// Number of items at which they are written.
    pub closed spec fn max(self) -> usize {
        self.max
    }

    /// Nothing waits. `max` counts as at least one.
    pub fn new(max: usize) -> (r: Batcher<T>)
        ensures
            r@ == Seq::<T>::empty(),
            r.max() == if max == 0 {
                1
            } else {
                max
            },
    {
        Batcher {
            buf: Vec::new(),
            max: if max == 0 {
                1
            } else {
                max
            },
        }
    }

    /// Takes an item in, and gives the batch to write once there are enough.
    pub fn push(&mut self, item: T) -> (r: Option<Vec<T>>)
        ensures
            old(self)@.len() < old(self).max(),
            (final(self)@, batch_items(r)) == with_item(old(self)@, item, old(self).max() as nat),
            old(self)@.len() + 1 < old(self).max() ==> r is None && final(self)@
                == old(self)@.push(item),
            old(self)@.len() + 1 >= old(self).max() ==> r is Some && r->0@ == old(self)@.push(item)
                && final(self)@.len() == 0,
            final(self).max() == old(self).max(),
    {
        proof {
            use_type_invariant(&*self);
        }
        let mut buf: Vec<T> = Vec::new();
        std::mem::swap(&mut buf, &mut self.buf);
        buf.push(item);
        if buf.len() >= self.max {
            Some(buf)
        } else {
            self.buf = buf;
            None
        }
    }

    /// Gives everything that waits, for a timer that has run out or a channel
    /// that has closed. There is no empty batch.
    pub fn flush(&mut self) -> (r: Option<Vec<T>>)
        ensures
            batch_items(r) == all_waiting(old(self)@),
            r is None <==> old(self)@.len() == 0,
            r matches Some(batch) ==> batch@ == old(self)@,
            final(self)@ == Seq::<T>::empty(),
            final(self).max() == old(self).max(),
    {
        proof {
            use_type_invariant(&*self);
        }
        let mut buf: Vec<T> = Vec::new();
        std::mem::swap(&mut buf, &mut self.buf);
        if buf.len() == 0 {
            None
        } else {
            Some(buf)
        }
    }
}

/// What a batcher meets.
pub enum Event<T> {
    /// An item comes in.
    Item(T),
    /// Everything is to be written.
    Flush,
}

/// The items among some events, in order.
pub open spec fn items<T>(events: Seq<Event<T>>) -> Seq<T>
    decreases events.len(),
{
    if events.len() == 0 {
        Seq::empty()
    } else {
        match events.last() {
            Event::Item(item) => items(events.drop_last()).push(item),
            Event::Flush => items(events.drop_last()),
        }
    }
}

/// What waits after some events, and the batches written until then.
pub open spec fn after_events<T>(events: Seq<Event<T>>, max: nat) -> (Seq<T>, Seq<Seq<T>>)
    decreases events.len(),
{
    if events.len() == 0 {
        (Seq::empty(), Seq::empty())
    } else {
        let (waiting, batches) = after_events(events.drop_last(), max);
        let (left, batch) = match events.last() {
            Event::Item(item) => with_item(waiting, item, max),
            Event::Flush => (Seq::empty(), all_waiting(waiting)),
        };
        match batch {
            Some(b) => (left, batches.push(b)),
            None => (left, batches),
        }
    }
}

/// Every item is written once, in the order in which it came, or waits still.
/// No batch is empty or larger than `max`, fewer items than that wait, and none
/// after a flush.
pub proof fn law_every_item_is_written_once<T>(events: Seq<Event<T>>, max: nat)
    requires
        max >= 1,
    ensures
        ({
            let (waiting, batches) = after_events(events, max);
            &&& batches.flatten() + waiting == items(events)
            &&& waiting.len() < max
            &&& forall|i: int| 0 <= i < batches.len() ==> 1 <= (#[trigger] batches[i]).len() <= max
            &&& events.len() > 0 && events.last() is Flush ==> waiting.len() == 0
        }),
    decreases events.len(),
{
    if events.len() > 0 {
        law_every_item_is_written_once(events.drop_last(), max);
        let (waiting, batches) = after_events(events.drop_last(), max);
        let (left, all) = after_events(events, max);
        let before = items(events.drop_last());
        match events.last() {
            Event::Item(item) => {
                if waiting.len() + 1 >= max {
                    batches.lemma_flatten_push(waiting.push(item));
                }
                assert(all.flatten() + left == before.push(item));
            },
            Event::Flush => {
                if waiting.len() > 0 {
                    batches.lemma_flatten_push(waiting);
                }
                assert(all.flatten() + left == before);
            },
        }
    } else {
        assert(Seq::<Seq<T>>::empty().flatten() + Seq::<T>::empty() == items(events));
    }
}

/// Items wait until there are as many as are written together, and no longer:
/// the batch that an item completes holds those that waited, in order, and then
/// the item. What is flushed is all that waits.
pub proof fn law_batches_are_filled<T>(waiting: Seq<T>, item: T, max: nat)
    ensures
        waiting.len() + 1 < max ==> with_item(waiting, item, max) == (
            waiting.push(item),
            None::<Seq<T>>,
        ),
        waiting.len() + 1 >= max ==> with_item(waiting, item, max) == (
            Seq::<T>::empty(),
            Some(waiting.push(item)),
        ),
        waiting.len() > 0 ==> all_waiting(waiting) == Some(waiting),
        waiting.len() == 0 ==> all_waiting(waiting) == None::<Seq<T>>,
{
}

} // verus!
