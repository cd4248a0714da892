//! Messages exchanged between the engine and the agents.

use vstd::prelude::*;

verus! {

/// An application-level work item that the simulator has to carry from one
/// agent to another.
#[derive(Debug, Copy, Clone, PartialEq, Eq, Structural)]
pub struct RequestMessage {
    /// Agent at which the request was injected.
    pub from: u32,
    /// Agent that has to receive the request.
    pub to: u32,
    /// Tick at which the request was injected.
    pub start: u32,
    /// Identifier assigned by the engine at injection.
    pub id: u32,
}

/// What an envelope carries: a request, or protocol traffic of type `T`.
#[derive(Debug, PartialEq, Eq)]
pub enum MessageType<T> {
    Request(RequestMessage),
    Comm(T),
}

/// A message in transit.
#[derive(Debug, PartialEq, Eq)]
pub struct Message<T> {
    pub data: MessageType<T>,
    pub from: u32,
    pub to: u32,
}

impl<T: View> View for MessageType<T> {
    type V = MessageType<T::V>;

    /// The same envelope content, with the protocol payload seen through
    /// its own view.
    open spec fn view(&self) -> MessageType<T::V> {
        match self {
            MessageType::Request(request) => MessageType::Request(*request),
            MessageType::Comm(payload) => MessageType::Comm(payload@),
        }
    }
}

/// What an agent was woken with, as its protocol sees it: the content of the
/// envelope, or nothing when it woke without a message.
pub open spec fn event_view<T: View>(event: Option<Message<T>>) -> Option<MessageType<T::V>> {
    match event {
        Some(envelope) => Some(envelope.data@),
        None => None,
    }
}

/// The emissions of an agent, each seen through its view.
pub open spec fn views<T: View>(emissions: Seq<MessageType<T>>) -> Seq<MessageType<T::V>> {
    emissions.map_values(|emission: MessageType<T>| emission@)
}

/// The views of a list of emissions follow the list: one more emission adds
/// its view at the end.
pub proof fn lemma_views_push<T: View>(emissions: Seq<MessageType<T>>, emission: MessageType<T>)
    ensures
        views(emissions.push(emission)) == views(emissions).push(emission@),
{
    assert(views(emissions.push(emission)) =~= views(emissions).push(emission@));
}

} // verus!
