//! Messages routed to subscribed clients, their wire form, and the decision
//! taken by a client's dispatch loop for each received message.
use vstd::prelude::*;

use crate::game::GuessScore;

verus! {

/// A message queued for a client. `Shutdown` is internal: it tells the
/// dispatch loop to drain and stop, and has no wire form.
#[derive(Clone, Debug)]
pub enum Message {
    NewGuess { guess_score: GuessScore },
    CorrectGuess { word: String },
    Shutdown,
}

/// What is sent to a client: the messages that have a wire form.
#[derive(Debug)]
pub enum WireEvent {
    NewGuess { guess_score: GuessScore },
    CorrectGuess { word: String },
}

/// What a dispatch loop does with what its queue handed it.
#[derive(Debug)]
pub enum DispatchAction {
    /// Send the event to the client's stream.
    Forward(WireEvent),
    /// Close the queue to new messages and keep draining it.
    CloseQueue,
    /// The queue is closed and empty: end the stream.
    Finish,
}

/// The wire form of a message; the sentinel has none.
pub open spec fn wire_of(m: Message) -> Option<WireEvent> {
    match m {
        Message::NewGuess { guess_score } => Some(WireEvent::NewGuess { guess_score }),
        Message::CorrectGuess { word } => Some(WireEvent::CorrectGuess { word }),
        Message::Shutdown => None,
    }
}

/// The decision for one receive: `None` means the queue is closed and empty.
pub open spec fn dispatch_decision(received: Option<Message>) -> DispatchAction {
    match received {
        None => DispatchAction::Finish,
        Some(m) => match wire_of(m) {
            Some(e) => DispatchAction::Forward(e),
            None => DispatchAction::CloseQueue,
        },
    }
}

/// The events a dispatch loop forwards when its queue hands it `ms` in order.
pub open spec fn forwarded(ms: Seq<Message>) -> Seq<WireEvent>
    decreases ms.len(),
{
    if ms.len() == 0 {
        Seq::empty()
    } else {
        match dispatch_decision(Some(ms.last())) {
            DispatchAction::Forward(e) => forwarded(ms.drop_last()).push(e),
            _ => forwarded(ms.drop_last()),
        }
    }
}

/// `m` announces the scored guess `g`: `CorrectGuess` with the word for a
/// score of one, otherwise `NewGuess` with the same score and word.
pub open spec fn announces(m: Message, g: GuessScore) -> bool {
    if g.score == 1 {
        m matches Message::CorrectGuess { word } && word@ == g.guess@
    } else {
        m matches Message::NewGuess { guess_score } && guess_score.score == g.score
            && guess_score.guess@ == g.guess@
    }
}

pub open spec fn is_sentinel(m: Message) -> bool {
    m is Shutdown
}

impl Message {
    /// The message that announces the scored guess `g` to a session.
    pub fn announcement(g: &GuessScore) -> (r: Message)
        ensures
            announces(r, *g),
    {
        if g.is_correct() {
            Message::CorrectGuess { word: g.guess.clone() }
        } else {
            Message::NewGuess { guess_score: g.duplicate() }
        }
    }

    pub fn is_shutdown(&self) -> (r: bool)
        ensures
            r == is_sentinel(*self),
    {
        matches!(self, Message::Shutdown)
    }

    /// A copy of this message.
    pub fn duplicate(&self) -> (r: Message)
        ensures
            r.same_content(*self),
    {
        match self {
            Message::NewGuess { guess_score } => Message::NewGuess { guess_score: guess_score.duplicate() },
            Message::CorrectGuess { word } => Message::CorrectGuess { word: word.clone() },
            Message::Shutdown => Message::Shutdown,
        }
    }

    /// Same variant, and the same words and scores.
    pub open spec fn same_content(self, other: Message) -> bool {
        match (self, other) {
            (Message::NewGuess { guess_score: a }, Message::NewGuess { guess_score: b }) =>
                a.score == b.score && a.guess@ == b.guess@,
            (Message::CorrectGuess { word: a }, Message::CorrectGuess { word: b }) => a@ == b@,
            (Message::Shutdown, Message::Shutdown) => true,
            _ => false,
        }
    }

    /// The wire form of this message; the sentinel has none.
    pub fn to_wire(self) -> (r: Option<WireEvent>)
        ensures
            r == wire_of(self),
    {
        match self {
            Message::NewGuess { guess_score } => Some(WireEvent::NewGuess { guess_score }),
            Message::CorrectGuess { word } => Some(WireEvent::CorrectGuess { word }),
            Message::Shutdown => None,
        }
    }
}

impl WireEvent {
    /// The event type label of the stream event: the variant's name in
    /// lower camel case.
    pub fn event_type(&self) -> (r: &'static str)
        ensures
            self is NewGuess ==> r@ == "newGuess"@,
            self is CorrectGuess ==> r@ == "correctGuess"@,
    {
        match self {
            WireEvent::NewGuess { .. } => "newGuess",
            WireEvent::CorrectGuess { .. } => "correctGuess",
        }
    }
}

/// What a client's dispatch loop does with one receive from its queue.
pub fn dispatch_step(received: Option<Message>) -> (r: DispatchAction)
    ensures
        r == dispatch_decision(received),
{
    match received {
        None => DispatchAction::Finish,
        Some(m) => match m.to_wire() {
            Some(e) => DispatchAction::Forward(e),
            None => DispatchAction::CloseQueue,
        },
    }
}

/// Draining after shutdown: the sentinel closes the queue and is itself
/// never forwarded, and every message queued before it reaches the stream,
/// in queue order, in its wire form.
pub proof fn law_shutdown_drains_queue(before: Seq<Message>)
    ensures
        dispatch_decision(Some(Message::Shutdown)) == DispatchAction::CloseQueue,
        forwarded(before.push(Message::Shutdown)) == forwarded(before),
        forwarded(before) == before.filter(|m: Message| !is_sentinel(m)).map_values(
            |m: Message| wire_of(m)->Some_0,
        ),
    decreases before.len(),
{
    assert(before.push(Message::Shutdown).drop_last() =~= before);
    let keep = |m: Message| !is_sentinel(m);
    reveal(Seq::filter);
    if before.len() > 0 {
        law_shutdown_drains_queue(before.drop_last());
        let f = before.drop_last().filter(keep);
        if keep(before.last()) {
            assert(before.filter(keep) == f.push(before.last()));
            assert(f.push(before.last()).map_values(|m: Message| wire_of(m)->Some_0) =~= f.map_values(
                |m: Message| wire_of(m)->Some_0,
            ).push(wire_of(before.last())->Some_0));
        } else {
            assert(before.filter(keep) == f);
        }
    } else {
        assert(before.filter(keep) =~= Seq::empty());
        assert(before.filter(keep).map_values(|m: Message| wire_of(m)->Some_0) =~= Seq::empty());
    }
}

} // verus!
