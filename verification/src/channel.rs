//! Trusted declarations for the outbound channels the handler sends
//! packets and events through.

use vstd::prelude::*;

verus! {

/// crossbeam's sending half of a channel, held per neighbor and for the
/// controller's event sink.
#[verifier::external_type_specification]
#[verifier::external_body]
#[verifier::reject_recursive_types(T)]
pub struct ExSender<T>(crossbeam_channel::Sender<T>);

/// crossbeam's error for a message that no receiver will ever take; it
/// carries the message back.
#[verifier::external_type_specification]
#[verifier::external_body]
#[verifier::reject_recursive_types(T)]
pub struct ExSendError<T>(crossbeam_channel::SendError<T>);

/// Relies on crossbeam_channel::Sender::send: the message is handed over,
/// or comes back inside the error once every receiver is gone.  Whether a
/// send succeeds depends on the receiving side alone, so nothing is
/// promised of the outcome.
pub assume_specification<T>[ crossbeam_channel::Sender::<T>::send ](
    s: &crossbeam_channel::Sender<T>,
    msg: T,
) -> Result<(), crossbeam_channel::SendError<T>>;

} // verus!
