//! The shared pixel buffer and the channel that hands finished frames out.
use vstd::prelude::*;
use std::sync::mpsc::{Receiver, Sender};
use egui::mutex::Mutex;

verus! {

/// `egui`'s mutex, which guards the pixel buffer that the render threads fill.
#[verifier::external_type_specification]
#[verifier::external_body]
#[verifier::reject_recursive_types(T)]
pub struct ExMutex<T>(Mutex<T>);

/// The sending end of a `std` channel.
#[verifier::external_type_specification]
#[verifier::external_body]
#[verifier::reject_recursive_types(T)]
pub struct ExSender<T>(Sender<T>);

/// The receiving end of a `std` channel.
#[verifier::external_type_specification]
#[verifier::external_body]
#[verifier::reject_recursive_types(T)]
pub struct ExReceiver<T>(Receiver<T>);

/// `egui::mutex::Mutex::new` wraps a value in a fresh mutex.  Nothing is
/// stated of the result: the contents of a mutex are not visible to the
/// verifier, since other threads change them behind a shared reference.
pub assume_specification<T>[ Mutex::<T>::new ](val: T) -> Mutex<T>;

/// `std::sync::mpsc::channel` makes a fresh channel for pixel buffers.  Its
/// two ends are opaque; what travels through them is not stated.
#[verifier::external_body]
pub(crate) fn buffer_channel() -> (Sender<Vec<u8>>, Receiver<Vec<u8>>) {
    std::sync::mpsc::channel()
}

}
