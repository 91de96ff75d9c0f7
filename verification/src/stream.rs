//! The outbound stream of one subscriber: the sending half of a hyper body
//! channel. The functions here call into hyper and are not verified; none
//! of them promises anything about what hyper returns.

use vstd::prelude::*;

verus! {

/// `hyper::body::Sender`, the sending half of a body channel. Opaque: a
/// value is only carried through and handed to `push_chunk`.
#[verifier::external_type_specification]
#[verifier::external_body]
pub struct ExSender(hyper::body::Sender);

/// `hyper::Body`, the receiving half that backs a streaming response.
/// Opaque: a value is only carried through to the caller.
#[verifier::external_type_specification]
#[verifier::external_body]
pub struct ExBody(hyper::Body);

/// Calls `hyper::body::Sender::try_send_data` with the bytes of `chunk` and
/// reports whether the channel took them. The call never blocks. Whether it
/// succeeds depends on the receiving side, so nothing is claimed about the
/// result.
#[verifier::external_body]
pub(crate) fn push_chunk(sender: &mut hyper::body::Sender, chunk: &str) -> (accepted: bool) {
    sender.try_send_data(hyper::body::Bytes::from(chunk.to_owned())).is_ok()
}

/// Calls `hyper::Body::channel`, which makes a fresh body together with the
/// sender that feeds it. Nothing is claimed about the two halves.
#[verifier::external_body]
pub(crate) fn open_stream() -> (halves: (hyper::body::Sender, hyper::Body)) {
    hyper::Body::channel()
}

} // verus!
