//! Sending to a client's channel. Every send is recorded in a send log, a
//! piece of ghost state that only the send itself appends to, and returns a
//! record of the endpoint, the message and whether the channel took it.
use vstd::prelude::*;

use tokio::sync::mpsc::UnboundedSender;

use crate::message::Message;
use crate::registry::Endpoint;

verus! {

#[verifier::external_type_specification]
#[verifier::external_body]
#[verifier::reject_recursive_types(T)]
pub struct ExUnboundedSender<T>(UnboundedSender<T>);

/// One send: the session and endpoint addressed, the channel handed the
/// message, and the message.
pub type Sent = (Seq<char>, Endpoint, UnboundedSender<Message>, Message);

/// Every send made so far, in order. It exists for proofs only and costs
/// nothing at run time.
pub struct SendLog {
    entries: Ghost<Seq<Sent>>,
}

impl View for SendLog {
    type V = Seq<Sent>;

    closed spec fn view(&self) -> Seq<Sent> {
        self.entries@
    }
}

impl SendLog {
    pub fn new() -> (r: SendLog)
        ensures
            r@ == Seq::<Sent>::empty(),
    {
        SendLog { entries: Ghost(Seq::empty()) }
    }
}

/// The record of one send to one client's channel.
#[derive(Debug)]
pub struct Delivery {
    endpoint: Endpoint,
    delivered: bool,
    sent: Message,
}

impl Delivery {
    /// The endpoint whose channel was sent to.
    pub closed spec fn spec_endpoint(&self) -> Endpoint {
        self.endpoint
    }

    /// The message handed to the channel.
    pub closed spec fn spec_sent(&self) -> Message {
        self.sent
    }

    /// Whether the channel took the message.
    pub closed spec fn spec_delivered(&self) -> bool {
        self.delivered
    }

    pub fn endpoint(&self) -> (r: Endpoint)
        ensures
            r == self.spec_endpoint(),
    {
        self.endpoint
    }

    pub fn delivered(&self) -> (r: bool)
        ensures
            r == self.spec_delivered(),
    {
        self.delivered
    }

    pub fn sent(&self) -> (r: &Message)
        ensures
            *r == self.spec_sent(),
    {
        &self.sent
    }
}

/// Relies on tokio's `UnboundedSender::send`: it queues `message` on the
/// channel `tx` without waiting, and fails only when the receiving half is
/// closed, which the caller cannot know beforehand; so nothing is promised of
/// `delivered`. The send is appended to the ghost log `log`, which has no
/// run-time content; the record keeps the endpoint and the message.
#[verifier::external_body]
pub(crate) fn send_message(
    log: &mut SendLog,
    session_id: &String,
    endpoint: Endpoint,
    tx: &UnboundedSender<Message>,
    message: Message,
) -> (r: Delivery)
    ensures
        final(log)@ == old(log)@.push((session_id@, endpoint, *tx, message)),
        r.spec_endpoint() == endpoint,
        r.spec_sent() == message,
{
    let delivered = tx.send(message.clone()).is_ok();
    Delivery { endpoint, delivered, sent: message }
}

} // verus!
