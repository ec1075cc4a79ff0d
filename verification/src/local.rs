//! The local attachment protocol. A frame is a JSON document of bounded size
//! preceded by its length, a big-endian `u32`; a client opens with a hello
//! of the protocol's version and its terminal size, and then sends input,
//! mouse events, requests and resizes.
use vstd::prelude::*;
use crate::host::router::MouseEvent;
use crate::text::string_of;

verus! {

/// The protocol's version; a client of another version is turned away.
pub const VERSION: u32 = 2;

/// The largest frame a client may send.
pub const MAX_CLIENT_FRAME: usize = 65536;

/// The most bytes of input one message may carry.
pub const MAX_INPUT_MESSAGE: usize = 4096;

/// Why a frame was not read or written.
#[derive(Clone, Copy, Debug, PartialEq, Eq, Structural)]
pub enum FrameError {
    /// A header announced an empty frame, or one over the limit.
    InvalidLength,
    /// A document to be sent is over the limit.
    ExceedsLimit,
    /// A document to be sent is too long for its length to be written.
    LengthOverflow,
}

impl FrameError {
    /// The message the error is reported with.
    pub fn message(&self) -> (s: String)
        ensures
            s@ == match self {
                FrameError::InvalidLength => "invalid local frame length"@,
                FrameError::ExceedsLimit => "local frame exceeds limit"@,
                FrameError::LengthOverflow => "out of range integral type conversion attempted"@,
            },
    {
        match self {
            FrameError::InvalidLength => string_of("invalid local frame length"),
            FrameError::ExceedsLimit => string_of("local frame exceeds limit"),
            FrameError::LengthOverflow => string_of("out of range integral type conversion attempted"),
        }
    }
}

/// The number four bytes hold, most significant first.
pub open spec fn big_endian(h: Seq<u8>) -> int {
    h[0] * 16777216 + h[1] * 65536 + h[2] * 256 + h[3]
}

/// The four bytes of `n`, most significant first.
pub open spec fn header_bytes(n: nat) -> Seq<u8> {
    seq![
        (n / 16777216) as u8,
        ((n / 65536) % 256) as u8,
        ((n / 256) % 256) as u8,
        (n % 256) as u8,
    ]
}

/// A document as it is sent: its length, then itself.
pub open spec fn framed(payload: Seq<u8>) -> Seq<u8> {
    header_bytes(payload.len()) + payload
}

/// The length a header announces, where it may be read: neither empty nor
/// over `limit`.
pub open spec fn announced(header: Seq<u8>, limit: usize) -> Result<int, FrameError> {
    if big_endian(header) == 0 || big_endian(header) > limit {
        Err(FrameError::InvalidLength)
    } else {
        Ok(big_endian(header))
    }
}

/// The length of the frame that `header` begins, if it may be read.
pub fn frame_length(header: [u8; 4], limit: usize) -> (r: Result<usize, FrameError>)
    ensures
        match r {
            Ok(n) => announced(header@, limit) == Ok::<int, FrameError>(n as int),
            Err(e) => announced(header@, limit) == Err::<int, FrameError>(e),
        },
{
    let length: u32 = (header[0] as u32) * 16777216 + (header[1] as u32) * 65536 + (header[2] as u32)
        * 256 + header[3] as u32;
    if length == 0 || length as usize > limit {
        Err(FrameError::InvalidLength)
    } else {
        Ok(length as usize)
    }
}

/// The frame that carries `payload`, if it is within `limit` and its length
/// can be written.
pub fn frame(payload: &Vec<u8>, limit: usize) -> (r: Result<Vec<u8>, FrameError>)
    ensures
        payload@.len() > limit ==> r == Err::<Vec<u8>, FrameError>(FrameError::ExceedsLimit),
        payload@.len() <= limit && payload@.len() > u32::MAX ==> r == Err::<Vec<u8>, FrameError>(
            FrameError::LengthOverflow,
        ),
        payload@.len() <= limit && payload@.len() <= u32::MAX ==> (r matches Ok(f) && f@
            == framed(payload@)),
{
    if payload.len() > limit {
        return Err(FrameError::ExceedsLimit);
    }
    if payload.len() > 0xffff_ffff {
        return Err(FrameError::LengthOverflow);
    }
    let n: usize = payload.len();
    let mut out: Vec<u8> = Vec::new();
    out.push((n / 16777216) as u8);
    out.push(((n / 65536) % 256) as u8);
    out.push(((n / 256) % 256) as u8);
    out.push((n % 256) as u8);
    let mut k: usize = 0;
    while k < payload.len()
        invariant
            k <= payload.len(),
            out@ == header_bytes(n as nat) + payload@.take(k as int),
            n == payload@.len(),
        decreases payload.len() - k,
    {
        out.push(payload[k]);
        proof {
            assert(payload@.take(k + 1) =~= payload@.take(k as int).push(payload@[k as int]));
        }
        k = k + 1;
    }
    assert(payload@.take(k as int) =~= payload@);
    Ok(out)
}

/// The four bytes of a length give the length back.
pub proof fn lemma_header_round_trip(n: nat)
    requires
        n <= u32::MAX,
    ensures
        header_bytes(n).len() == 4,
        big_endian(header_bytes(n)) == n,
{
    let a = n / 16777216;
    let b = (n / 65536) % 256;
    let c = (n / 256) % 256;
    let d = n % 256;
    assert(a < 256);
    assert(a * 16777216 + b * 65536 + c * 256 + d == n) by (nonlinear_arith)
        requires
            a == n / 16777216,
            b == (n / 65536) % 256,
            c == (n / 256) % 256,
            d == n % 256,
    ;
}

/// What a read gives back of a write: the header of a frame announces the
/// length of the document it carries, and the rest of the frame is that
/// document, wherever the document is not empty and within the limit.
pub proof fn lemma_frame_reads_back(payload: Seq<u8>, limit: usize)
    requires
        0 < payload.len() <= limit,
        payload.len() <= u32::MAX,
    ensures
        framed(payload).len() == payload.len() + 4,
        announced(framed(payload).take(4), limit) == Ok::<int, FrameError>(payload.len() as int),
        framed(payload).skip(4) == payload,
{
    lemma_header_round_trip(payload.len());
    assert(framed(payload).take(4) =~= header_bytes(payload.len()));
    assert(framed(payload).skip(4) =~= payload);
}

/// A message from a client. `R` is the form of a control request.
#[derive(Clone, Debug, PartialEq, Eq)]
pub enum ClientMessage<R> {
    Hello { version: u32, rows: u16, columns: u16 },
    Input { bytes: Vec<u8> },
    PaneInput { bytes: Vec<u8> },
    Mouse { event: MouseEvent },
    Binding { key: u8 },
    Control { request: R },
    CopyView { request: u64, pane: u32, offset: u32 },
    Resize { rows: u16, columns: u16 },
    Detach,
}

impl<R> From<Vec<u8>> for ClientMessage<R> {
    fn from(bytes: Vec<u8>) -> (m: Self) {
        ClientMessage::Input { bytes }
    }
}

impl<R> vstd::std_specs::convert::FromSpecImpl<Vec<u8>> for ClientMessage<R> {
    open spec fn obeys_from_spec() -> bool {
        true
    }

    open spec fn from_spec(v: Vec<u8>) -> Self {
        ClientMessage::Input { bytes: v }
    }
}

/// The terminal size a client's first message opens with, where it is a
/// hello of this protocol's version; a client that opens otherwise is
/// refused with [`incompatible_message`].
pub fn handshake<R>(first: &ClientMessage<R>) -> (r: Option<(u16, u16)>)
    ensures
        r == handshake_spec(first),
{
    match first {
        ClientMessage::Hello { version, rows, columns } => {
            if *version == VERSION {
                Some((*rows, *columns))
            } else {
                None
            }
        },
        _ => None,
    }
}

/// What the host answers a client whose hello it refused.
pub fn incompatible_message() -> (s: String)
    ensures
        s@ == "incompatible local attachment protocol; use matching fux versions or restart the session server after saving your work"@,
{
    string_of(
        "incompatible local attachment protocol; use matching fux versions or restart the session server after saving your work",
    )
}

/// What the host does with a client's message once attached.
#[derive(Clone, Debug, PartialEq, Eq)]
pub enum ViewerAction<R> {
    /// The bytes are input to the focused pane.
    PaneInput { bytes: Vec<u8> },
    /// The event is the client's mouse.
    Mouse { event: MouseEvent },
    /// The client pressed an external binding.
    Binding { key: u8 },
    /// The request is run, and its reply sent after the next state.
    Control { request: R },
    /// A view of a pane's history is sent back.
    CopyView { request: u64, pane: u32, offset: u32 },
    /// The client's terminal has a new size.
    Resize { rows: u16, columns: u16 },
    /// The client leaves.
    Detach,
    /// The message is refused and the connection ends.
    Invalid,
}

/// What the host does with a message from an attached client: input of at
/// most [`MAX_INPUT_MESSAGE`] bytes goes to the pane, a mouse event must
/// name a cell (its one-based column and row above 0), a second hello or
/// anything else out of place ends the connection.
pub fn viewer_action<R>(message: ClientMessage<R>) -> (a: ViewerAction<R>)
    ensures
        a == match message {
            ClientMessage::Input { bytes } => if bytes@.len() <= MAX_INPUT_MESSAGE {
                ViewerAction::PaneInput { bytes }
            } else {
                ViewerAction::Invalid
            },
            ClientMessage::PaneInput { bytes } => if bytes@.len() <= MAX_INPUT_MESSAGE {
                ViewerAction::PaneInput { bytes }
            } else {
                ViewerAction::Invalid
            },
            ClientMessage::Mouse { event } => if event.column > 0 && event.row > 0 {
                ViewerAction::Mouse { event }
            } else {
                ViewerAction::Invalid
            },
            ClientMessage::Binding { key } => ViewerAction::Binding { key },
            ClientMessage::Control { request } => ViewerAction::Control { request },
            ClientMessage::CopyView { request, pane, offset } => ViewerAction::CopyView {
                request,
                pane,
                offset,
            },
            ClientMessage::Resize { rows, columns } => ViewerAction::Resize { rows, columns },
            ClientMessage::Detach => ViewerAction::Detach,
            ClientMessage::Hello { .. } => ViewerAction::Invalid,
        },
{
    match message {
        ClientMessage::Input { bytes } => if bytes.len() <= MAX_INPUT_MESSAGE {
            ViewerAction::PaneInput { bytes }
        } else {
            ViewerAction::Invalid
        },
        ClientMessage::PaneInput { bytes } => if bytes.len() <= MAX_INPUT_MESSAGE {
            ViewerAction::PaneInput { bytes }
        } else {
            ViewerAction::Invalid
        },
        ClientMessage::Mouse { event } => if event.column > 0 && event.row > 0 {
            ViewerAction::Mouse { event }
        } else {
            ViewerAction::Invalid
        },
        ClientMessage::Binding { key } => ViewerAction::Binding { key },
        ClientMessage::Control { request } => ViewerAction::Control { request },
        ClientMessage::CopyView { request, pane, offset } => ViewerAction::CopyView {
            request,
            pane,
            offset,
        },
        ClientMessage::Resize { rows, columns } => ViewerAction::Resize { rows, columns },
        ClientMessage::Detach => ViewerAction::Detach,
        ClientMessage::Hello { .. } => ViewerAction::Invalid,
    }
}

/// What the host says when it refuses a message.
pub fn invalid_message() -> (s: String)
    ensures
        s@ == "invalid local client message"@,
{
    string_of("invalid local client message")
}


/// The answer to a client's request for a view of a pane's history, if
/// there is one. `V` is the form of a pane's view.
#[derive(Clone, Debug, PartialEq, Eq)]
pub struct CopyViewReply<V> {
    pub request: u64,
    pub pane: u32,
    pub view: Option<Box<V>>,
}

/// A message from the server. `S` is the form of a workspace's state, `R`
/// of a control reply, `V` of a pane's view.
#[derive(Clone, Debug, PartialEq, Eq)]
pub enum ServerMessage<S, R, V> {
    Hello { version: u32 },
    State { state: Box<S> },
    Error { message: String },
    Reply { reply: R },
    CopyView { reply: CopyViewReply<V> },
    Exited { code: Option<u32> },
}

/// The server's answer to a client's hello: its own hello, of this
/// protocol's version, where the hello was accepted, and otherwise the
/// error that turns the client away.
pub fn hello_answer<R, S, Q, V>(first: &ClientMessage<R>) -> (m: ServerMessage<S, Q, V>)
    ensures
        handshake_spec(first) is Some ==> (m == ServerMessage::<S, Q, V>::Hello { version: VERSION }),
        handshake_spec(first) is None ==> refuses(m),
{
    match handshake(first) {
        Some(_) => ServerMessage::Hello { version: VERSION },
        None => ServerMessage::Error { message: incompatible_message() },
    }
}

/// Whether a message is the error that turns a client of another version
/// away.
pub open spec fn refuses<S, Q, V>(m: ServerMessage<S, Q, V>) -> bool {
    match m {
        ServerMessage::Error { message } => message@
            == "incompatible local attachment protocol; use matching fux versions or restart the session server after saving your work"@,
        _ => false,
    }
}

/// The terminal size a hello of this protocol's version opens with.
pub open spec fn handshake_spec<R>(first: &ClientMessage<R>) -> Option<(u16, u16)> {
    match first {
        ClientMessage::Hello { version, rows, columns } => if *version == VERSION {
            Some((*rows, *columns))
        } else {
            None
        },
        _ => None,
    }
}

/// What the server sends an attached client after each change: the state;
/// then the reply owed for the client's last request, which the state
/// precedes so that the reply is read after what it did; then, once the
/// workspace is gone, its exit code.
pub fn after_change<S, R, V>(state: S, pending: Option<R>, alive: bool, code: Option<u32>) -> (msgs:
    Vec<ServerMessage<S, R, V>>)
    ensures
        msgs@.len() == 1 + (if pending is Some {
            1int
        } else {
            0
        }) + (if alive {
            0int
        } else {
            1
        }),
        msgs@[0] == (ServerMessage::<S, R, V>::State { state: Box::new(state) }),
        pending matches Some(reply) ==> (msgs@[1] == ServerMessage::<S, R, V>::Reply { reply }),
        !alive ==> (msgs@.last() == ServerMessage::<S, R, V>::Exited { code }),
{
    let mut msgs: Vec<ServerMessage<S, R, V>> = Vec::new();
    msgs.push(ServerMessage::State { state: Box::new(state) });
    if let Some(reply) = pending {
        msgs.push(ServerMessage::Reply { reply });
    }
    if !alive {
        msgs.push(ServerMessage::Exited { code });
    }
    msgs
}

}
