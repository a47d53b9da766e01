//! The [`Transport`] trait: the single seam between the session engine and a
//! platform.
//!
//! A transport moves one encoded request frame to the device and one
//! response into the caller's buffer. Framing, retries and protocol
//! sequencing live above it in [`crate::session`].

use vstd::prelude::*;

verus! {

/// One call of [`Transport::request`], as seen from outside.
pub ghost struct Attempt<E> {
    /// The request frame handed to the transport.
    pub req: Seq<u8>,
    /// The whole receive buffer after the call.
    pub rsp: Seq<u8>,
    /// What the call returned.
    pub res: Result<usize, E>,
}

/// One request/response exchange with the device.
///
/// * `req` holds exactly one encoded frame; it is delivered unmodified.
/// * The response is written to the front of `rsp`; the returned length is
///   how many bytes were placed there.
/// * The response frame may be followed by `0xFF` filler, so a fixed-length
///   transport can fill all of `rsp` and return its length.
/// * `rsp` is sized to the worst-case response for the command in flight.
/// * Blocking for the device is the implementation's business. The session
///   retries failed exchanges a bounded number of times: requests are
///   idempotent by protocol design.
pub trait Transport {
    /// The transport's own error type.
    type Err;

    /// The calls made so far, oldest first. It exists in specifications only
    /// and grows by one entry per call, whatever the call does.
    ///
    /// A verified implementation says where it keeps them. One written
    /// outside the verified code has nothing to write: the default body
    /// stands for no history at all. What a session's contract claims over
    /// such a transport it claims relative to a history kept for it, one
    /// entry per call of `request`.
    closed spec fn log(&self) -> Seq<Attempt<Self::Err>> {
        arbitrary()
    }

    /// Sends `req`, receives into `rsp`, returns the number of response
    /// bytes.
    ///
    /// # Errors
    ///
    /// Implementation-defined; an error ends the current attempt and the
    /// session may call again with the same `req`.
    fn request(&mut self, req: &[u8], rsp: &mut [u8]) -> (r: Result<usize, Self::Err>)
        ensures
            final(rsp)@.len() == old(rsp)@.len(),
            (*final(self)).log() == (*old(self)).log().push(
                Attempt { req: req@, rsp: final(rsp)@, res: r },
            ),
    ;
}

/// A `&mut T` transport forwards to `T`, so that callers can keep ownership.
impl<T: Transport + ?Sized> Transport for &mut T {
    type Err = T::Err;

    open spec fn log(&self) -> Seq<Attempt<Self::Err>> {
        (**self).log()
    }

    fn request(&mut self, req: &[u8], rsp: &mut [u8]) -> (r: Result<usize, Self::Err>) {
        (**self).request(req, rsp)
    }
}

} // verus!
