//! The queue through which finished scans publish their directories.
//!
//! What is queued is the handle to a directory's node, not a copy of the
//! directory: a receiver reads the node through the handle, and sees what
//! was added to it and below it since the handle was sent.
//!
//! A broker is one value with one owner. Where producers and receivers run
//! on several threads, the caller guards the broker with a lock and wakes
//! waiting receivers after `send` and `close`; what a receiver gets at each
//! turn is decided here.

use vstd::prelude::*;
use crossbeam::sync::MsQueue;
use crate::tree::DirectoryHandle;

verus! {

/// `MsQueue` of crossbeam, a queue that hands out first what came first.
/// Nothing inside it is visible here.
#[verifier::external_type_specification]
#[verifier::external_body]
#[verifier::reject_recursive_types(T)]
pub struct ExMsQueue<T>(MsQueue<T>);

/// What an `MsQueue` of crossbeam holds: the places that the handles lead to
/// which were pushed and not yet popped, the oldest first.
pub uninterp spec fn queued(queue: MsQueue<DirectoryHandle>) -> Seq<int>;

/// `MsQueue::new` of crossbeam: the queue it makes holds nothing.
#[verifier::external_body]
fn queue_new() -> (queue: MsQueue<DirectoryHandle>)
    ensures
        queued(queue) == Seq::<int>::empty(),
{
    MsQueue::new()
}

/// `MsQueue::push` of crossbeam, on a queue that the caller alone holds:
/// the handle is added behind all that wait.
#[verifier::external_body]
fn queue_push(queue: &mut MsQueue<DirectoryHandle>, handle: DirectoryHandle)
    ensures
        queued(*final(queue)) == queued(*old(queue)).push(handle@),
{
    queue.push(handle)
}

/// `MsQueue::try_pop` of crossbeam, on a queue that the caller alone holds:
/// it takes the oldest handle out and returns it, and returns `None` and
/// leaves the queue as it is where nothing waits.
#[verifier::external_body]
fn queue_try_pop(queue: &mut MsQueue<DirectoryHandle>) -> (front: Option<DirectoryHandle>)
    ensures
        queued(*old(queue)).len() == 0 ==> {
            &&& front is None
            &&& queued(*final(queue)) == queued(*old(queue))
        },
        queued(*old(queue)).len() > 0 ==> {
            &&& front matches Some(handle)
            &&& handle@ == queued(*old(queue)).first()
            &&& queued(*final(queue)) == queued(*old(queue)).drop_first()
        },
{
    queue.try_pop()
}

/// Why a receiver got no handle.
#[derive(Debug, Clone, Copy, PartialEq, Eq, Structural)]
pub enum RecvError {
    /// The broker was closed: none will come, and waiting is over.
    Closed,
    /// Nothing is queued yet: the receiver waits and asks again.
    Empty,
}

/// A broker as mathematics sees it.
pub struct BrokerView {
    /// The places of the nodes whose handles wait, the oldest first.
    pub events: Seq<int>,
    /// Whether the broker still takes part in a scan.
    pub receiving_events: bool,
}

impl BrokerView {
    /// A broker at the start of a scan: open, with nothing queued.
    pub open spec fn fresh() -> BrokerView {
        BrokerView { events: Seq::empty(), receiving_events: true }
    }

    /// The broker after the handle to the node at `node` was sent.
    pub open spec fn send(self, node: int) -> BrokerView {
        BrokerView { events: self.events.push(node), ..self }
    }

    /// The broker after it was closed.
    pub open spec fn close(self) -> BrokerView {
        BrokerView { receiving_events: false, ..self }
    }

    /// What a receiver that takes only the newest handle gets.
    pub open spec fn latest(self) -> Option<int> {
        if self.events.len() == 0 {
            None
        } else {
            Some(self.events.last())
        }
    }

    /// The broker after a receiver took the newest handle: the older ones
    /// are gone with it.
    pub open spec fn drained(self) -> BrokerView {
        BrokerView { events: Seq::empty(), ..self }
    }

    /// What a receiver gets at one turn: the end of the scan where the
    /// broker is closed, else the oldest handle, else nothing yet.
    pub open spec fn received(self) -> Result<int, RecvError> {
        if !self.receiving_events {
            Err(RecvError::Closed)
        } else if self.events.len() == 0 {
            Err(RecvError::Empty)
        } else {
            Ok(self.events.first())
        }
    }

    /// The broker after one turn of a receiver.
    pub open spec fn after_receive(self) -> BrokerView {
        if self.received() is Ok {
            BrokerView { events: self.events.drop_first(), ..self }
        } else {
            self
        }
    }
}

/// Once a broker is closed, a receiver's turn ends with `Closed`, whatever is
/// queued, and closing it again changes nothing.
pub proof fn lemma_close_ends_receiving(broker: BrokerView)
    ensures
        broker.close().received() == Err::<int, RecvError>(RecvError::Closed),
        broker.close().after_receive() == broker.close(),
        broker.close().close() == broker.close(),
{
}

/// Handles are received in the order in which they were sent: after a send
/// to an open broker, a receiver gets what waited first, and the handle sent
/// stays queued behind the rest.
pub proof fn lemma_first_sent_first_received(broker: BrokerView, node: int)
    requires
        broker.receiving_events,
    ensures
        broker.events.len() == 0 ==> broker.send(node).received() == Ok::<int, RecvError>(node),
        broker.events.len() > 0 ==> broker.send(node).received() == broker.received(),
        broker.events.len() > 0 ==> broker.send(node).after_receive()
            == broker.after_receive().send(node),
{
    if broker.events.len() > 0 {
        assert(broker.events.push(node).drop_first() =~= broker.events.drop_first().push(node));
    }
}

/// The channel between the scans, which send the handles to the directories
/// they finished, and those who follow the scan.
#[derive(Debug)]
pub struct DirectoryEventBroker {
    events: MsQueue<DirectoryHandle>,
    receiving_events: bool,
}

impl View for DirectoryEventBroker {
    type V = BrokerView;

    closed spec fn view(&self) -> BrokerView {
        BrokerView { events: queued(self.events), receiving_events: self.receiving_events }
    }
}

impl DirectoryEventBroker {
    /// An open broker with nothing queued.
    pub fn new() -> (broker: DirectoryEventBroker)
        ensures
            broker@ == BrokerView::fresh(),
    {
        DirectoryEventBroker { events: queue_new(), receiving_events: true }
    }

    /// Queues `filter_event` behind all that wait. A closed broker queues
    /// it too; no receiver's turn will hand it out.
    pub fn send(&mut self, filter_event: DirectoryHandle)
        ensures
            final(self)@ == old(self)@.send(filter_event@),
    {
        queue_push(&mut self.events, filter_event);
    }

    /// Closes the broker: from now on every receiver's turn ends with
    /// `Closed`.
    pub fn close(&mut self)
        ensures
            final(self)@ == old(self)@.close(),
    {
        self.receiving_events = false;
    }

    /// Takes the newest handle and drops the older ones; `None` where
    /// nothing is queued. Whether the broker is closed plays no part.
    pub fn try_recv(&mut self) -> (event: Option<DirectoryHandle>)
        ensures
            final(self)@ == old(self)@.drained(),
            match event {
                Some(handle) => old(self)@.latest() == Some(handle@),
                None => old(self)@.latest() is None,
            },
    {
        let ghost start = queued(self.events);
        let ghost mut taken: int = 0;
        let mut return_value: Option<DirectoryHandle> = None;
        let mut done = false;
        while !done
            invariant
                self.receiving_events == old(self).receiving_events,
                0 <= taken <= start.len(),
                queued(self.events) == start.skip(taken),
                done ==> taken == start.len(),
                taken == 0 ==> return_value is None,
                taken > 0 ==> (return_value matches Some(handle) && handle@ == start[taken - 1]),
            decreases start.len() - taken + (if done { 0int } else { 1int }),
        {
            match queue_try_pop(&mut self.events) {
                Some(event) => {
                    proof {
                        taken = taken + 1;
                    }
                    return_value = Some(event);
                },
                None => {
                    done = true;
                },
            }
        }
        assert(queued(self.events) =~= Seq::empty());
        return_value
    }

    /// One turn of a receiver: `Closed` where the broker is closed, whatever
    /// is queued; else the oldest handle, which leaves the queue; else
    /// `Empty`, after which a receiver that wants a handle waits until
    /// something was sent or the broker was closed, and takes another turn.
    pub fn recv(&mut self) -> (event: Result<DirectoryHandle, RecvError>)
        ensures
            final(self)@ == old(self)@.after_receive(),
            match event {
                Ok(handle) => old(self)@.received() == Ok::<int, RecvError>(handle@),
                Err(error) => old(self)@.received() == Err::<int, RecvError>(error),
            },
    {
        if !self.receiving_events {
            return Err(RecvError::Closed);
        }
        match queue_try_pop(&mut self.events) {
            Some(event) => Ok(event),
            None => Err(RecvError::Empty),
        }
    }
}

} // verus!
