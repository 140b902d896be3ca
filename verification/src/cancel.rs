//! Cancellation of a running chooser: a flag shared between the portal's
//! request object and the thread that waits for the terminal.

use vstd::prelude::*;
use std::sync::Arc;
use std::sync::atomic::AtomicBool;

verus! {

/// A flag that the request's Close call raises and the terminal waiter
/// reads; clones share it.
#[derive(Clone)]
pub struct CancellationToken {
    cancelled: Arc<AtomicBool>,
}

impl CancellationToken {
    /// A token that has not been cancelled. The flag lives in a shared
    /// atomic, which is modelled by identity only, so its value is not stated.
    pub fn new() -> (t: Self) {
        CancellationToken { cancelled: Arc::new(AtomicBool::new(false)) }
    }

    /// Cancels every holder of this token.
    pub fn cancel(&self) {
        self.cancelled.store(true, std::sync::atomic::Ordering::Release);
    }

    /// Whether some holder has cancelled. Other holders may raise the flag
    /// at any moment, so the result is not stated.
    pub fn is_cancelled(&self) -> (b: bool) {
        self.cancelled.load(std::sync::atomic::Ordering::Acquire)
    }
}

/// The portal's Request object of one call: closing it cancels the call.
pub struct PortalRequest {
    pub cancellation: CancellationToken,
}

impl PortalRequest {
    pub fn new(cancellation: CancellationToken) -> (r: Self)
        ensures
            r.cancellation == cancellation,
    {
        PortalRequest { cancellation }
    }

    /// `Request.Close`: cancels the interaction.
    pub fn close(&self) {
        self.cancellation.cancel();
    }
}

} // verus!
