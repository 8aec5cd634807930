use mf2_tools::lifecycle::handle_message;
use mf2_tools::lifecycle::Action;
use mf2_tools::lifecycle::Incoming;
use mf2_tools::lifecycle::LanguageServerState as S;

fn request(initialize: bool, shutdown: bool) -> Incoming {
  Incoming::Request { initialize, shutdown }
}

fn notification(initialized: bool, exit: bool) -> Incoming {
  Incoming::Notification { initialized, exit }
}

#[test]
fn runs_through_the_lifecycle() {
  assert_eq!(handle_message(S::Uninitialized, request(true, false)), (S::Initializing, Action::AnswerRequest));
  assert_eq!(handle_message(S::Initializing, notification(true, false)), (S::Initialized, Action::HandleNotification));
  assert_eq!(handle_message(S::Initialized, request(false, false)), (S::Initialized, Action::AnswerRequest));
  assert_eq!(handle_message(S::Initialized, notification(false, false)), (S::Initialized, Action::HandleNotification));
  assert_eq!(handle_message(S::Initialized, request(false, true)), (S::ShuttingDown, Action::AcceptShutdown));
  assert_eq!(handle_message(S::ShuttingDown, notification(false, true)), (S::ShuttingDown, Action::Stop));
}

#[test]
fn refuses_messages_out_of_order() {
  assert_eq!(handle_message(S::Uninitialized, request(false, false)), (S::Uninitialized, Action::RefuseUninitialized));
  assert_eq!(handle_message(S::Uninitialized, notification(false, true)), (S::Uninitialized, Action::Ignore));
  assert_eq!(handle_message(S::Uninitialized, notification(true, false)), (S::Uninitialized, Action::Unexpected));
  assert_eq!(handle_message(S::Initializing, request(false, false)), (S::Initializing, Action::Unexpected));
  assert_eq!(handle_message(S::Initialized, Incoming::Response), (S::Initialized, Action::Unhandled));
  assert_eq!(handle_message(S::ShuttingDown, request(false, false)), (S::ShuttingDown, Action::Unexpected));
}
