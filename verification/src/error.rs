//! The error type of the host core: every variant carries the precise facts
//! a caller can act on.

use core::convert::Infallible;
use vstd::prelude::*;
use vstd::string::*;

use crate::frame::st_name;
use crate::text::{push_decimal, push_hex_byte};

verus! {

/// Everything that can go wrong in the host core.
///
/// `E` is the transport's error type. Codec and image operations never touch
/// a transport, so they return `Error<Infallible>`, the default, and
/// [`Error::widen`] lifts such an error into any `Error<E>`.
#[derive(Debug, Clone, Copy, PartialEq, Eq)]
pub enum Error<E = Infallible> {
    /// The transport failed; carries the transport's own error.
    Transport(E),
    /// A received byte sequence is not a valid frame.
    BadFrame,
    /// The device answered with a status byte other than OK.
    Device(u8),
    /// The payload does not fit a wire frame.
    PayloadTooLarge {
        /// Length of the offending payload in bytes.
        len: usize,
    },
    /// A caller-provided output buffer is too small.
    BufferTooSmall {
        /// Minimum buffer length in bytes that the call requires.
        needed: usize,
    },
    /// The image does not fit the app region once the footer is reserved.
    ImageTooLarge {
        /// Length of the offending image in bytes.
        len: usize,
        /// Usable capacity of the region in bytes.
        capacity: usize,
    },
    /// The page geometry cannot host a valid image.
    BadGeometry {
        /// Page size in bytes as given by the caller.
        page_size: u16,
        /// Number of app pages as given by the caller.
        app_pages: u16,
    },
    /// A page index at or beyond the number of app pages was requested.
    PageOutOfRange {
        /// The offending page index.
        index: u16,
    },
    /// The device speaks an unknown protocol version.
    ProtocolVersion {
        /// The protocol version the device reported.
        device: u8,
    },
}

/// The same error with another transport error type. `Infallible` has no
/// values, so no transport error is ever widened.
pub open spec fn widened<E>(e: Error<Infallible>) -> Error<E> {
    match e {
        Error::Transport(_) => Error::BadFrame,
        Error::BadFrame => Error::BadFrame,
        Error::Device(st) => Error::Device(st),
        Error::PayloadTooLarge { len } => Error::PayloadTooLarge { len },
        Error::BufferTooSmall { needed } => Error::BufferTooSmall { needed },
        Error::ImageTooLarge { len, capacity } => Error::ImageTooLarge { len, capacity },
        Error::BadGeometry { page_size, app_pages } => Error::BadGeometry { page_size, app_pages },
        Error::PageOutOfRange { index } => Error::PageOutOfRange { index },
        Error::ProtocolVersion { device } => Error::ProtocolVersion { device },
    }
}

impl Error<Infallible> {
    /// Lifts a transport-free error into an `Error<E>` for any `E`.
    #[must_use]
    pub fn widen<E>(self) -> (r: Error<E>)
        ensures
            r == widened::<E>(self),
    {
        match self {
            // `Infallible` has no values, so this arm is never taken.
            Error::Transport(_) => Error::BadFrame,
            Error::BadFrame => Error::BadFrame,
            Error::Device(st) => Error::Device(st),
            Error::PayloadTooLarge { len } => Error::PayloadTooLarge { len },
            Error::BufferTooSmall { needed } => Error::BufferTooSmall { needed },
            Error::ImageTooLarge { len, capacity } => Error::ImageTooLarge { len, capacity },
            Error::BadGeometry { page_size, app_pages } => {
                Error::BadGeometry { page_size, app_pages }
            },
            Error::PageOutOfRange { index } => Error::PageOutOfRange { index },
            Error::ProtocolVersion { device } => Error::ProtocolVersion { device },
        }
    }
}

/// What [`Error::message`] says, given the text of the transport's error.
pub open spec fn message_of<E>(e: Error<E>, transport: Seq<char>) -> Seq<char> {
    match e {
        Error::Transport(_) => "transport error: "@ + transport,
        Error::BadFrame => "malformed frame (length or CRC-8 mismatch)"@,
        Error::Device(st) => "device reported status "@ + crate::text::hex_byte(st) + " ("@
            + crate::frame::st_text(st) + ")"@,
        Error::PayloadTooLarge { len } => "payload of "@ + crate::text::decimal(len as nat)
            + " bytes exceeds the frame limit"@,
        Error::BufferTooSmall { needed } => "output buffer too small, need "@
            + crate::text::decimal(needed as nat) + " bytes"@,
        Error::ImageTooLarge { len, capacity } => "image of "@ + crate::text::decimal(len as nat)
            + " bytes exceeds region capacity of "@ + crate::text::decimal(capacity as nat)
            + " bytes"@,
        Error::BadGeometry { page_size, app_pages } => "unusable geometry: page_size "@
            + crate::text::decimal(page_size as nat) + ", app_pages "@ + crate::text::decimal(
            app_pages as nat,
        ),
        Error::PageOutOfRange { index } => "page index "@ + crate::text::decimal(index as nat)
            + " out of range"@,
        Error::ProtocolVersion { device } => "unsupported device protocol version "@
            + crate::text::decimal(device as nat),
    }
}

impl<E> Error<E> {
    /// The error in words. `transport` is the rendered transport error; it is
    /// used by [`Error::Transport`] alone.
    pub fn message(&self, transport: &str) -> (r: String)
        ensures
            r@ == message_of(*self, transport@),
    {
        let mut out = String::new();
        match self {
            Error::Transport(_) => {
                out.append("transport error: ");
                out.append(transport);
            },
            Error::BadFrame => {
                out.append("malformed frame (length or CRC-8 mismatch)");
            },
            Error::Device(st) => {
                out.append("device reported status ");
                push_hex_byte(&mut out, *st);
                out.append(" (");
                out.append(st_name(*st));
                out.append(")");
            },
            Error::PayloadTooLarge { len } => {
                out.append("payload of ");
                push_decimal(&mut out, *len as u64);
                out.append(" bytes exceeds the frame limit");
            },
            Error::BufferTooSmall { needed } => {
                out.append("output buffer too small, need ");
                push_decimal(&mut out, *needed as u64);
                out.append(" bytes");
            },
            Error::ImageTooLarge { len, capacity } => {
                out.append("image of ");
                push_decimal(&mut out, *len as u64);
                out.append(" bytes exceeds region capacity of ");
                push_decimal(&mut out, *capacity as u64);
                out.append(" bytes");
            },
            Error::BadGeometry { page_size, app_pages } => {
                out.append("unusable geometry: page_size ");
                push_decimal(&mut out, *page_size as u64);
                out.append(", app_pages ");
                push_decimal(&mut out, *app_pages as u64);
            },
            Error::PageOutOfRange { index } => {
                out.append("page index ");
                push_decimal(&mut out, *index as u64);
                out.append(" out of range");
            },
            Error::ProtocolVersion { device } => {
                out.append("unsupported device protocol version ");
                push_decimal(&mut out, *device as u64);
            },
        }
        proof {
            assert(Seq::<char>::empty() + "transport error: "@ =~= "transport error: "@);
            assert(out@ =~= message_of(*self, transport@));
        }
        out
    }
}

/// Each message says the numbers of its error, in base ten.
pub proof fn law_messages_say_the_numbers<E>(e: Error<E>, transport: Seq<char>)
    ensures
        match e {
            Error::PayloadTooLarge { len } => crate::text::says_number(
                message_of(e, transport),
                "payload of "@,
                len as int,
                " bytes exceeds the frame limit"@,
            ),
            Error::BufferTooSmall { needed } => crate::text::says_number(
                message_of(e, transport),
                "output buffer too small, need "@,
                needed as int,
                " bytes"@,
            ),
            Error::PageOutOfRange { index } => crate::text::says_number(
                message_of(e, transport),
                "page index "@,
                index as int,
                " out of range"@,
            ),
            Error::ProtocolVersion { device } => crate::text::says_number(
                message_of(e, transport),
                "unsupported device protocol version "@,
                device as int,
                ""@,
            ),
            Error::ImageTooLarge { len, capacity } => crate::text::says_number(
                message_of(e, transport),
                "image of "@,
                len as int,
                " bytes exceeds region capacity of "@ + crate::text::decimal(capacity as nat)
                    + " bytes"@,
            ),
            Error::BadGeometry { page_size, app_pages } => crate::text::says_number(
                message_of(e, transport),
                "unusable geometry: page_size "@,
                page_size as int,
                ", app_pages "@ + crate::text::decimal(app_pages as nat),
            ),
            Error::Transport(_) => message_of(e, transport) == "transport error: "@ + transport,
            Error::BadFrame => message_of(e, transport)
                == "malformed frame (length or CRC-8 mismatch)"@,
            Error::Device(st) => message_of(e, transport) == "device reported status "@
                + crate::text::hex_byte(st) + (" ("@ + crate::frame::st_text(st) + ")"@),
        },
{
    let m = message_of(e, transport);
    match e {
        Error::PayloadTooLarge { len } => {
            crate::text::lemma_says_number(
                m,
                "payload of "@,
                len as nat,
                " bytes exceeds the frame limit"@,
            );
        },
        Error::BufferTooSmall { needed } => {
            crate::text::lemma_says_number(
                m,
                "output buffer too small, need "@,
                needed as nat,
                " bytes"@,
            );
        },
        Error::PageOutOfRange { index } => {
            crate::text::lemma_says_number(m, "page index "@, index as nat, " out of range"@);
        },
        Error::ProtocolVersion { device } => {
            reveal_strlit("");
            assert(m =~= "unsupported device protocol version "@ + crate::text::decimal(
                device as nat,
            ) + ""@);
            crate::text::lemma_says_number(
                m,
                "unsupported device protocol version "@,
                device as nat,
                ""@,
            );
        },
        Error::ImageTooLarge { len, capacity } => {
            let back = " bytes exceeds region capacity of "@ + crate::text::decimal(capacity as nat)
                + " bytes"@;
            assert(m =~= "image of "@ + crate::text::decimal(len as nat) + back);
            crate::text::lemma_says_number(m, "image of "@, len as nat, back);
        },
        Error::BadGeometry { page_size, app_pages } => {
            let back = ", app_pages "@ + crate::text::decimal(app_pages as nat);
            assert(m =~= "unusable geometry: page_size "@ + crate::text::decimal(page_size as nat)
                + back);
            crate::text::lemma_says_number(
                m,
                "unusable geometry: page_size "@,
                page_size as nat,
                back,
            );
        },
        Error::Device(st) => {
            assert(m =~= "device reported status "@ + crate::text::hex_byte(st) + (" ("@
                + crate::frame::st_text(st) + ")"@));
        },
        _ => {},
    }
}

/// An error means the same with another transport: it reads the same, whatever
/// that transport would have said.
pub proof fn law_widening_keeps_the_error<E>(
    e: Error<Infallible>,
    transport: Seq<char>,
    other: Seq<char>,
)
    requires
        !(e is Transport),
    ensures
        message_of(widened::<E>(e), other) == message_of(e, transport),
        !(widened::<E>(e) is Transport),
        e matches Error::Device(st) ==> widened::<E>(e) == Error::<E>::Device(st),
        e matches Error::BufferTooSmall { needed } ==> widened::<E>(e) == (Error::<
            E,
        >::BufferTooSmall { needed }),
{
}

} // verus!
