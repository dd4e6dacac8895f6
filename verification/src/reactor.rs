//! The messages of the console server, and the reactor's decisions on them.
//! The reactor runs the console logic, saves and loads shows, and answers administrative
//! commands; the file system and channel work is left to the caller, which reports the outcome
//! of each command for the reactor to turn into response messages.
use vstd::prelude::*;
use crate::clients::ClientData;
use crate::show_library::LoadShow;
use vstd::std_specs::convert::IntoSpec;

verus! {

/// Outer command wrapper for the reactor, exposing administrative commands on top of the internal
/// commands that the console itself provides.
#[derive(Debug, Clone, Eq, PartialEq)]
pub enum Command<T> {
    /// Create a new, empty show.
    NewShow(String),
    /// List all available shows.
    SavedShows,
    /// List all available saves and autosaves.
    AvailableSaves,
    /// Load a show using this spec.
    Load(LoadShow),
    /// Save the current state of the show.
    Save,
    /// Save the current show as a new show with a different name.  This show will become the one
    /// running in the reactor.
    SaveAs(String),
    /// Change the name of the currently-running show.
    Rename(String),
    /// Quit the console, cleanly closing down every running thread.
    Quit,
    /// A message to be passed into the console logic running in the reactor.
    Console(T),
}

/// Message type with client data.
#[derive(Debug, Clone, Eq, PartialEq)]
pub struct CommandWrapper<T> {
    pub client_data: ClientData,
    pub payload: T,
}

/// The message type received by the reactor.
pub type CommandMessage<T> = CommandWrapper<Command<T>>;

/// Outer wrapper for a response from the reactor, exposing messages indicating that
/// administrative actions have occurred, as well as passing on messages from the console logic.
#[derive(Debug, Clone, Eq, PartialEq)]
pub enum Response<T> {
    /// A listing of all available save and autosave files for the running show.
    SavesAvailable { saves: Vec<String>, autosaves: Vec<String> },
    /// Listing of all saved shows for this console.
    ShowsAvailable(Vec<String>),
    /// A new show was loaded, with this name.
    Loaded(String),
    /// The running show's name changed.
    Renamed(String),
    /// The show was saved successfully.
    Saved,
    /// A show library error occurred, as text.
    ShowLibErr(String),
    /// The console is going to quit.
    Quit,
    /// A response emanating from the console itself.
    Console(T),
}

impl<T> Response<T> {
    /// Wrap this response with client data.
    pub fn with_client(self, client_data: ClientData) -> (r: ResponseWrapper<Response<T>>)
        ensures
            r.payload == self,
            r.client_data == Some(client_data),
    {
        ResponseWrapper::with_client(self, client_data)
    }

    /// Wrap this response without client data.
    pub fn no_client(self) -> (r: ResponseWrapper<Response<T>>)
        ensures
            r.payload == self,
            r.client_data is None,
    {
        ResponseWrapper::no_client(self)
    }
}

/// Message type for outgoing messages.  Has optional client data.
#[derive(Debug, Clone, Eq, PartialEq)]
pub struct ResponseWrapper<T> {
    pub client_data: Option<ClientData>,
    pub payload: T,
}

impl<T> ResponseWrapper<T> {
    /// Wrap a message payload without client data.
    pub fn no_client(payload: T) -> (r: Self)
        ensures
            r.payload == payload,
            r.client_data is None,
    {
        ResponseWrapper { payload, client_data: None }
    }

    /// Wrap a message payload with client data.
    pub fn with_client(payload: T, client_data: ClientData) -> (r: Self)
        ensures
            r.payload == payload,
            r.client_data == Some(client_data),
    {
        ResponseWrapper { payload, client_data: Some(client_data) }
    }
}

/// The message type sent out by the reactor.
pub type ResponseMessage<T> = ResponseWrapper<Response<T>>;

/// A collection of response messages, usually zero or one; console logic uses this type to return
/// response messages.
pub struct Messages<T>(pub Vec<T>);

impl<T> View for Messages<T> {
    type V = Seq<T>;

    open spec fn view(&self) -> Seq<T> {
        self.0@
    }
}

impl<T> Messages<T> {
    /// A collection of one message.
    pub fn one(m: T) -> (r: Self)
        ensures
            r@ == seq![m],
    {
        let mut msgs = Vec::new();
        msgs.push(m);
        Messages(msgs)
    }

    /// Empty message collection.
    pub fn none() -> (r: Self)
        ensures
            r@ == Seq::<T>::empty(),
    {
        Messages(Vec::new())
    }

    /// Add a message to this collection.
    pub fn push(&mut self, item: T)
        ensures
            final(self)@ == old(self)@.push(item),
    {
        self.0.push(item);
    }

    /// Convert a message collection whose messages can be interpreted as this type.
    pub fn wrap<M: Into<T>>(msgs: Messages<M>) -> (r: Messages<T>)
        ensures
            r@.len() == msgs@.len(),
            forall|i: int|
                0 <= i < msgs@.len() ==> (M::obeys_into_spec() ==> #[trigger] r@[i]
                    == msgs@[i].into_spec()),
    {
        let Messages(mut v) = msgs;
        let ghost given = v@;
        let mut rest: Vec<M> = Vec::new();
        while v.len() > 0
            invariant
                v@.len() + rest@.len() == given.len(),
                v@ == given.take(v@.len() as int),
                forall|j: int|
                    0 <= j < rest@.len() ==> #[trigger] rest@[j] == given[given.len() - 1 - j],
            decreases v@.len(),
        {
            let m = v.pop().unwrap();
            proof {
                assert(given.take(v@.len() as int) =~= given.take(v@.len() as int + 1).drop_last());
            }
            rest.push(m);
        }
        let mut wrapped: Vec<T> = Vec::new();
        while rest.len() > 0
            invariant
                wrapped@.len() + rest@.len() == given.len(),
                forall|j: int|
                    0 <= j < rest@.len() ==> #[trigger] rest@[j] == given[given.len() - 1 - j],
                forall|i: int|
                    0 <= i < wrapped@.len() ==> (M::obeys_into_spec() ==> #[trigger] wrapped@[i]
                        == given[i].into_spec()),
            decreases rest@.len(),
        {
            let m = rest.pop().unwrap();
            wrapped.push(m.into());
        }
        Messages(wrapped)
    }
}

/// Lift messages coming out of the console up into the reactor response type.
pub fn lift_response_messages<R>(msgs: Messages<ResponseWrapper<R>>) -> (r: Messages<
    ResponseMessage<R>,
>)
    ensures
        r@.len() == msgs@.len(),
        forall|i: int|
            0 <= i < msgs@.len() ==> #[trigger] r@[i] == (ResponseWrapper {
                payload: Response::Console(msgs@[i].payload),
                client_data: msgs@[i].client_data,
            }),
{
    let Messages(mut v) = msgs;
    let ghost given = v@;
    let mut lifted: Vec<ResponseMessage<R>> = Vec::new();
    let mut rest: Vec<ResponseWrapper<R>> = Vec::new();
    // Take the messages off the back, then put them back in order.
    while v.len() > 0
        invariant
            v@.len() + rest@.len() == given.len(),
            v@ == given.take(v@.len() as int),
            forall|j: int| 0 <= j < rest@.len() ==> #[trigger] rest@[j] == given[given.len() - 1 - j],
        decreases v@.len(),
    {
        let m = v.pop().unwrap();
        proof {
            assert(given.take(v@.len() as int) =~= given.take(v@.len() as int + 1).drop_last());
        }
        rest.push(m);
    }
    while rest.len() > 0
        invariant
            lifted@.len() + rest@.len() == given.len(),
            forall|j: int|
                0 <= j < rest@.len() ==> #[trigger] rest@[j] == given[given.len() - 1 - j],
            forall|i: int|
                0 <= i < lifted@.len() ==> #[trigger] lifted@[i] == (ResponseWrapper {
                    payload: Response::Console(given[i].payload),
                    client_data: given[i].client_data,
                }),
        decreases rest@.len(),
    {
        let m = rest.pop().unwrap();
        lifted.push(ResponseWrapper { payload: Response::Console(m.payload), client_data: m.client_data });
    }
    Messages(lifted)
}

/// What came of the outside work that a command called for.
pub enum CommandOutcome<R> {
    /// The console logic handled the command and emitted these messages.
    Console(Messages<ResponseWrapper<R>>),
    /// The reactor was told to quit.
    Quit,
    /// The listings of saves and autosaves of the running show, each None if it could not be
    /// read.
    Saves { saves: Option<Vec<String>>, autosaves: Option<Vec<String>> },
    /// The listing of saved shows, or the error that prevented it.
    Shows(Result<Vec<String>, String>),
    /// The show was saved, or the error that prevented it.
    Saved(Result<(), String>),
    /// The show was saved as a new show with this name, or the error that prevented it.
    SavedAs(String, Result<(), String>),
    /// The running show was renamed to this name, or the error that prevented it.
    Renamed(String, Result<(), String>),
    /// A show, new or loaded, now runs under this name, or the error that prevented it.
    Loaded(Result<String, String>),
}

/// The single response that the reactor sends for an administrative command's outcome, with its
/// routing: answers and errors go back to the client that asked, while changes that every client
/// should see (a show saved under a new name, a show loaded or created, a failed rename, quitting)
/// go out without client data.  The console's own messages and the listing of saves are described
/// by `command_responses` itself.
pub open spec fn admin_response<R>(client: ClientData, outcome: CommandOutcome<R>) -> ResponseMessage<R> {
    match outcome {
        CommandOutcome::Console(_) => arbitrary(),
        CommandOutcome::Quit => ResponseWrapper { payload: Response::Quit, client_data: None },
        CommandOutcome::Saves { .. } => arbitrary(),
        CommandOutcome::Shows(Ok(shows)) => ResponseWrapper {
            payload: Response::ShowsAvailable(shows),
            client_data: Some(client),
        },
        CommandOutcome::Shows(Err(e)) => ResponseWrapper {
            payload: Response::ShowLibErr(e),
            client_data: Some(client),
        },
        CommandOutcome::Saved(Ok(_)) => ResponseWrapper {
            payload: Response::Saved,
            client_data: Some(client),
        },
        CommandOutcome::Saved(Err(e)) => ResponseWrapper {
            payload: Response::ShowLibErr(e),
            client_data: Some(client),
        },
        CommandOutcome::SavedAs(name, Ok(_)) => ResponseWrapper {
            payload: Response::Renamed(name),
            client_data: None,
        },
        CommandOutcome::SavedAs(_, Err(e)) => ResponseWrapper {
            payload: Response::ShowLibErr(e),
            client_data: Some(client),
        },
        CommandOutcome::Renamed(name, Ok(_)) => ResponseWrapper {
            payload: Response::Renamed(name),
            client_data: Some(client),
        },
        CommandOutcome::Renamed(_, Err(e)) => ResponseWrapper {
            payload: Response::ShowLibErr(e),
            client_data: None,
        },
        CommandOutcome::Loaded(Ok(name)) => ResponseWrapper {
            payload: Response::Loaded(name),
            client_data: None,
        },
        CommandOutcome::Loaded(Err(e)) => ResponseWrapper {
            payload: Response::ShowLibErr(e),
            client_data: Some(client),
        },
    }
}

/// The error that the outside work for a command ended in, if it failed.
pub open spec fn outcome_error<R>(outcome: CommandOutcome<R>) -> Option<String> {
    match outcome {
        CommandOutcome::Shows(Err(e)) => Some(e),
        CommandOutcome::Saved(Err(e)) => Some(e),
        CommandOutcome::SavedAs(_, Err(e)) => Some(e),
        CommandOutcome::Renamed(_, Err(e)) => Some(e),
        CommandOutcome::Loaded(Err(e)) => Some(e),
        _ => None,
    }
}

/// Failures are reported as failures, and only failures are: every administrative outcome whose
/// outside work failed is answered with a show library error carrying that failure's message, no
/// outcome that succeeded is answered with an error, and a save is confirmed only when it
/// succeeded.
pub proof fn law_failures_are_reported<R>(client: ClientData, outcome: CommandOutcome<R>)
    requires
        !(outcome is Console),
        !(outcome is Saves),
    ensures
        outcome_error(outcome) matches Some(e) ==> admin_response(client, outcome).payload
            == Response::<R>::ShowLibErr(e),
        outcome_error(outcome) is None ==> !(admin_response(client, outcome).payload is ShowLibErr),
        admin_response(client, outcome).payload is Saved ==> outcome matches CommandOutcome::Saved(
            Ok(_),
        ),
        outcome matches CommandOutcome::Saved(Ok(_)) ==> admin_response(client, outcome).payload
            is Saved,
{
}

/// Whether the reactor keeps running after a command with this outcome: it stops on a quit, and
/// once stopped it stays stopped.
pub fn still_running<R>(running: bool, outcome: &CommandOutcome<R>) -> (r: bool)
    ensures
        r == (running && !(outcome is Quit)),
{
    match outcome {
        CommandOutcome::Quit => false,
        _ => running,
    }
}

/// The names in a listing, or none when it could not be read.
pub open spec fn listing(l: Option<Vec<String>>) -> Seq<String> {
    match l {
        Some(v) => v@,
        None => Seq::empty(),
    }
}

/// Turn the outcome of a command from `client` into the messages that the reactor sends out.
/// The console's own messages are lifted into the reactor's response type; every other outcome
/// gives exactly one response.
pub fn command_responses<R>(client: ClientData, outcome: CommandOutcome<R>) -> (r: Messages<
    ResponseMessage<R>,
>)
    ensures
        match outcome {
            CommandOutcome::Console(msgs) => r@.len() == msgs@.len() && forall|i: int|
                0 <= i < msgs@.len() ==> #[trigger] r@[i] == (ResponseWrapper {
                    payload: Response::Console(msgs@[i].payload),
                    client_data: msgs@[i].client_data,
                }),
            CommandOutcome::Saves { saves, autosaves } => r@.len() == 1 && r@[0].client_data == Some(
                client,
            ) && (r@[0].payload matches Response::SavesAvailable { saves: s, autosaves: a } && s@
                == listing(saves) && a@ == listing(autosaves)),
            _ => r@ == seq![admin_response(client, outcome)],
        },
{
    match outcome {
        CommandOutcome::Console(msgs) => lift_response_messages(msgs),
        CommandOutcome::Quit => Messages::one(ResponseWrapper::no_client(Response::Quit)),
        CommandOutcome::Saves { saves, autosaves } => {
            let saves = match saves {
                Some(s) => s,
                None => Vec::new(),
            };
            let autosaves = match autosaves {
                Some(a) => a,
                None => Vec::new(),
            };
            Messages::one(Response::SavesAvailable { saves, autosaves }.with_client(client))
        },
        CommandOutcome::Shows(Ok(shows)) => Messages::one(
            Response::ShowsAvailable(shows).with_client(client),
        ),
        CommandOutcome::Shows(Err(e)) => Messages::one(Response::ShowLibErr(e).with_client(client)),
        CommandOutcome::Saved(Ok(_)) => Messages::one(Response::Saved.with_client(client)),
        CommandOutcome::Saved(Err(e)) => Messages::one(Response::ShowLibErr(e).with_client(client)),
        CommandOutcome::SavedAs(name, Ok(_)) => Messages::one(Response::Renamed(name).no_client()),
        CommandOutcome::SavedAs(_, Err(e)) => Messages::one(
            Response::ShowLibErr(e).with_client(client),
        ),
        CommandOutcome::Renamed(name, Ok(_)) => Messages::one(
            Response::Renamed(name).with_client(client),
        ),
        CommandOutcome::Renamed(_, Err(e)) => Messages::one(Response::ShowLibErr(e).no_client()),
        CommandOutcome::Loaded(Ok(name)) => Messages::one(Response::Loaded(name).no_client()),
        CommandOutcome::Loaded(Err(e)) => Messages::one(Response::ShowLibErr(e).with_client(client)),
    }
}

} // verus!
