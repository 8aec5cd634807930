//! The lifecycle of a language server connection: which messages are
//! answered in which state, and how the state moves on.
use vstd::prelude::*;

verus! {

/// Where a connection stands.
#[derive(Debug, Clone, Copy, PartialEq, Eq, Structural)]
pub enum LanguageServerState {
    Uninitialized,
    Initializing,
    Initialized,
    ShuttingDown,
}

/// A message from the client, by what the lifecycle needs to know of it.
#[derive(Debug, Clone, Copy, PartialEq, Eq, Structural)]
pub enum Incoming {
    /// A request, and whether it is `initialize` or `shutdown`.
    Request { initialize: bool, shutdown: bool },
    /// A notification, and whether it is `initialized` or `exit`.
    Notification { initialized: bool, exit: bool },
    /// A response to a request of the server.
    Response,
}

/// What to do with a message.
#[derive(Debug, Clone, Copy, PartialEq, Eq, Structural)]
pub enum Action {
    /// Let the server answer the request, and send the answer.
    AnswerRequest,
    /// Let the server handle the notification.
    HandleNotification,
    /// Answer the request with the error that the server is not initialized.
    RefuseUninitialized,
    /// Answer the shutdown request with success.
    AcceptShutdown,
    /// Do nothing.
    Ignore,
    /// End the connection.
    Stop,
    /// End with an error: the message was not expected in this state.
    Unexpected,
    /// The server sends no requests, so a response is not handled.
    Unhandled,
}

/// The next state and the action for a message.
pub open spec fn transition(state: LanguageServerState, message: Incoming) -> (LanguageServerState, Action) {
    match state {
        LanguageServerState::Uninitialized => match message {
            Incoming::Request { initialize: true, .. } => (LanguageServerState::Initializing, Action::AnswerRequest),
            Incoming::Request { .. } => (state, Action::RefuseUninitialized),
            Incoming::Notification { exit: true, .. } => (state, Action::Ignore),
            _ => (state, Action::Unexpected),
        },
        LanguageServerState::Initializing => match message {
            Incoming::Notification { initialized: true, .. } => (
                LanguageServerState::Initialized,
                Action::HandleNotification,
            ),
            _ => (state, Action::Unexpected),
        },
        LanguageServerState::Initialized => match message {
            Incoming::Notification { .. } => (state, Action::HandleNotification),
            Incoming::Request { shutdown: true, .. } => (LanguageServerState::ShuttingDown, Action::AcceptShutdown),
            Incoming::Request { .. } => (state, Action::AnswerRequest),
            Incoming::Response => (state, Action::Unhandled),
        },
        LanguageServerState::ShuttingDown => match message {
            Incoming::Notification { exit: true, .. } => (state, Action::Stop),
            _ => (state, Action::Unexpected),
        },
    }
}

/// The next state and the action for a message: see `transition`.
pub fn handle_message(state: LanguageServerState, message: Incoming) -> (r: (LanguageServerState, Action))
    ensures
        r == transition(state, message),
{
    match state {
        LanguageServerState::Uninitialized => match message {
            Incoming::Request { initialize, .. } => {
                if initialize {
                    (LanguageServerState::Initializing, Action::AnswerRequest)
                } else {
                    (state, Action::RefuseUninitialized)
                }
            },
            Incoming::Notification { exit, .. } => {
                if exit {
                    (state, Action::Ignore)
                } else {
                    (state, Action::Unexpected)
                }
            },
            Incoming::Response => (state, Action::Unexpected),
        },
        LanguageServerState::Initializing => match message {
            Incoming::Notification { initialized, .. } => {
                if initialized {
                    (LanguageServerState::Initialized, Action::HandleNotification)
                } else {
                    (state, Action::Unexpected)
                }
            },
            _ => (state, Action::Unexpected),
        },
        LanguageServerState::Initialized => match message {
            Incoming::Notification { .. } => (state, Action::HandleNotification),
            Incoming::Request { shutdown, .. } => {
                if shutdown {
                    (LanguageServerState::ShuttingDown, Action::AcceptShutdown)
                } else {
                    (state, Action::AnswerRequest)
                }
            },
            Incoming::Response => (state, Action::Unhandled),
        },
        LanguageServerState::ShuttingDown => match message {
            Incoming::Notification { exit, .. } => {
                if exit {
                    (state, Action::Stop)
                } else {
                    (state, Action::Unexpected)
                }
            },
            _ => (state, Action::Unexpected),
        },
    }
}

/// A connection ends only from the state of shutting down: no message
/// stops it before a shutdown request was accepted.
pub proof fn law_stop_only_after_shutdown(state: LanguageServerState, message: Incoming)
    ensures
        transition(state, message).1 == Action::Stop ==> state == LanguageServerState::ShuttingDown,
{
}

/// Requests are answered by the server only once it was asked to
/// initialize, and before it shuts down: in any other state a request is
/// refused, accepted as the shutdown, or unexpected.
pub proof fn law_requests_answered_only_while_running(state: LanguageServerState, message: Incoming)
    ensures
        transition(state, message).1 == Action::AnswerRequest ==> (state
            == LanguageServerState::Initialized || (state == LanguageServerState::Uninitialized
            && message matches Incoming::Request { initialize: true, .. })),
{
}

} // verus!
