//! Control clients connected to a Wiggles controller, and which of them receive each response.
use vstd::prelude::*;
use vstd::std_specs::convert::FromSpecImpl;
use crate::reactor::{Response, ResponseMessage};

verus! {

pub type ClientId = u32;

/// Metadata attached to commands and optionally attached to responses.
/// Used for filtering response messages as they are sent out to clients.
#[derive(Debug, Copy, Clone, Eq, PartialEq, Structural)]
pub struct ClientData {
    /// The id of the client.
    pub id: ClientId,
    pub filter: ResponseFilter,
}

/// Message metadata indicating the intended response filter for the result of processing this
/// message.
#[derive(Debug, Copy, Clone, Eq, PartialEq, Structural)]
pub enum ResponseFilter {
    /// Response is of general interest.
    All,
    /// Response is only of interest to this client.
    Exclusive,
    /// Response is probably of interest to every client except the originator.  This option
    /// implies that the originator doesn't want talkback on these commands as it is probably
    /// eagerly updating some state locally.
    AllButSelf,
}

/// Options for filtering messages sent out to clients.
#[derive(Debug, Copy, Clone, Eq, PartialEq, Structural)]
pub enum Filter {
    /// Forward message to every client.
    All,
    /// Forward message to just this client.
    One(ClientId),
    /// Forward message to every client except this one.
    AllBut(ClientId),
}

/// The filter that a client's metadata asks for.
pub open spec fn filter_for(data: ClientData) -> Filter {
    match data.filter {
        ResponseFilter::All => Filter::All,
        ResponseFilter::Exclusive => Filter::One(data.id),
        ResponseFilter::AllButSelf => Filter::AllBut(data.id),
    }
}

impl From<ClientData> for Filter {
    fn from(data: ClientData) -> (r: Self) {
        match data.filter {
            ResponseFilter::All => Filter::All,
            ResponseFilter::Exclusive => Filter::One(data.id),
            ResponseFilter::AllButSelf => Filter::AllBut(data.id),
        }
    }
}

impl FromSpecImpl<ClientData> for Filter {
    open spec fn obeys_from_spec() -> bool {
        true
    }

    open spec fn from_spec(data: ClientData) -> Filter {
        filter_for(data)
    }
}

/// Whether a client passes a filter.
pub open spec fn passes(filter: Filter, client: ClientId) -> bool {
    match filter {
        Filter::All => true,
        Filter::One(id) => client == id,
        Filter::AllBut(id) => client != id,
    }
}

/// The clients, in order, that a message sent with this filter goes to.
pub fn recipients(filter: Filter, clients: &[ClientId]) -> (r: Vec<ClientId>)
    ensures
        r@ == clients@.filter(|c: ClientId| passes(filter, c)),
{
    let mut r: Vec<ClientId> = Vec::new();
    let mut i: usize = 0;
    while i < clients.len()
        invariant
            i <= clients@.len(),
            r@ == clients@.take(i as int).filter(|c: ClientId| passes(filter, c)),
        decreases clients@.len() - i,
    {
        let c = clients[i];
        let keep = match filter {
            Filter::All => true,
            Filter::One(id) => c == id,
            Filter::AllBut(id) => c != id,
        };
        proof {
            reveal(Seq::filter);
            assert(clients@.take(i + 1).drop_last() =~= clients@.take(i as int));
            assert(clients@.take(i + 1).last() == c);
        }
        if keep {
            r.push(c);
        }
        i = i + 1;
    }
    assert(clients@.take(i as int) =~= clients@);
    r
}

/// What the response router does with a message: whether it keeps running afterwards, and the
/// filter of the clients that the message goes to.  The Quit message stops the router and goes to
/// every client; any other message goes to the clients that its client data asks for, or to every
/// client when it has none.
pub fn route<R>(msg: &ResponseMessage<R>) -> (r: (bool, Filter))
    ensures
        msg.payload is Quit ==> r == (false, Filter::All),
        !(msg.payload is Quit) ==> r == (true, match msg.client_data {
            Some(data) => filter_for(data),
            None => Filter::All,
        }),
{
    match msg.payload {
        Response::Quit => (false, Filter::All),
        _ => match msg.client_data {
            Some(data) => (true, Filter::from(data)),
            None => (true, Filter::All),
        },
    }
}

} // verus!
