use vstd::prelude::*;

verus! {

/// How long a second instance waits for the running one to acknowledge.
pub const ACK_TIMEOUT_MS: u64 = 500;

/// The four bytes that frame a payload of length `n`, most significant first.
pub open spec fn length_prefix(n: u32) -> Seq<u8> {
    seq![(n >> 24u32) as u8, (n >> 16u32) as u8, (n >> 8u32) as u8, n as u8]
}

/// The length that four prefix bytes announce.
pub open spec fn prefix_value(b0: u8, b1: u8, b2: u8, b3: u8) -> u32 {
    ((b0 as u32) << 24u32) | ((b1 as u32) << 16u32) | ((b2 as u32) << 8u32) | (b3 as u32)
}

/// A payload on the wire: its length in four bytes, then the payload.
pub open spec fn frame_of(payload: Seq<u8>) -> Seq<u8> {
    length_prefix(payload.len() as u32) + payload
}

/// The first frame at the start of `buf`, with the number of bytes it
/// takes, or `None` while `buf` does not hold a whole frame.
pub open spec fn first_frame(buf: Seq<u8>) -> Option<(Seq<u8>, nat)> {
    if buf.len() < 4 {
        None
    } else {
        let n = prefix_value(buf[0], buf[1], buf[2], buf[3]) as nat;
        if buf.len() < 4 + n {
            None
        } else {
            Some((buf.subrange(4, 4 + n as int), 4 + n))
        }
    }
}

/// The acknowledgement a running instance writes back after each message:
/// the ASCII bytes of `received`, with no framing.
pub open spec fn ack_seq() -> Seq<u8> {
    seq![114u8, 101u8, 99u8, 101u8, 105u8, 118u8, 101u8, 100u8]
}

proof fn lemma_prefix_round_trip(n: u32)
    ensures
        prefix_value((n >> 24u32) as u8, (n >> 16u32) as u8, (n >> 8u32) as u8, n as u8) == n,
{
    assert(((((n >> 24u32) as u8) as u32) << 24u32) | ((((n >> 16u32) as u8) as u32) << 16u32)
        | ((((n >> 8u32) as u8) as u32) << 8u32) | ((n as u8) as u32) == n) by (bit_vector);
}

/// Framing a payload and reading the first frame back, whatever follows it
/// on the wire, gives the payload and the frame's exact length.
pub proof fn lemma_frame_round_trip(payload: Seq<u8>, rest: Seq<u8>)
    requires
        payload.len() <= u32::MAX,
    ensures
        first_frame(frame_of(payload) + rest) == Some((payload, 4 + payload.len())),
{
    let n = payload.len() as u32;
    lemma_prefix_round_trip(n);
    let buf = frame_of(payload) + rest;
    assert(buf[0] == (n >> 24u32) as u8);
    assert(buf[1] == (n >> 16u32) as u8);
    assert(buf[2] == (n >> 8u32) as u8);
    assert(buf[3] == n as u8);
    assert(buf.subrange(4, 4 + payload.len() as int) =~= payload);
}

/// Frames `payload` for the wire; `None` when it is too long for a
/// four-byte length.
pub fn encode_frame(payload: &Vec<u8>) -> (r: Option<Vec<u8>>)
    ensures
        match r {
            Some(f) => payload@.len() <= u32::MAX && f@ == frame_of(payload@),
            None => payload@.len() > u32::MAX,
        },
{
    if payload.len() > u32::MAX as usize {
        return None;
    }
    let n = payload.len() as u32;
    let mut out: Vec<u8> = Vec::new();
    out.push((n >> 24u32) as u8);
    out.push((n >> 16u32) as u8);
    out.push((n >> 8u32) as u8);
    out.push(n as u8);
    let mut i: usize = 0;
    while i < payload.len()
        invariant
            n == payload@.len(),
            i <= payload@.len(),
            out@ == length_prefix(n) + payload@.subrange(0, i as int),
        decreases payload@.len() - i,
    {
        out.push(payload[i]);
        proof {
            assert(payload@.subrange(0, i + 1) =~= payload@.subrange(0, i as int).push(payload@[i as int]));
        }
        i = i + 1;
    }
    proof {
        assert(payload@.subrange(0, i as int) =~= payload@);
    }
    Some(out)
}

/// Reads the first frame of `buf`: its payload and the number of bytes it
/// takes; `None` while `buf` does not yet hold a whole frame.
pub fn decode_frame(buf: &Vec<u8>) -> (r: Option<(Vec<u8>, usize)>)
    ensures
        match r {
            Some((p, used)) => first_frame(buf@) == Some((p@, used as nat)),
            None => first_frame(buf@) is None,
        },
{
    if buf.len() < 4 {
        return None;
    }
    let n: u32 = ((buf[0] as u32) << 24u32) | ((buf[1] as u32) << 16u32) | ((buf[2] as u32) << 8u32)
        | (buf[3] as u32);
    let n = n as usize;
    if buf.len() - 4 < n {
        return None;
    }
    let mut payload: Vec<u8> = Vec::new();
    let mut i: usize = 0;
    while i < n
        invariant
            4 + n <= buf.len(),
            i <= n,
            payload@ == buf@.subrange(4, 4 + i as int),
        decreases n - i,
    {
        payload.push(buf[4 + i]);
        proof {
            assert(buf@.subrange(4, 4 + i + 1) =~= buf@.subrange(4, 4 + i as int).push(buf@[4 + i]));
        }
        i = i + 1;
    }
    Some((payload, 4 + n))
}

/// The acknowledgement bytes.
pub fn ack_bytes() -> (r: Vec<u8>)
    ensures
        r@ == ack_seq(),
{
    let r: Vec<u8> = vec![114u8, 101u8, 99u8, 101u8, 105u8, 118u8, 101u8, 100u8];
    assert(r@ =~= ack_seq());
    r
}

/// Whether the bytes read back from a running instance are its
/// acknowledgement.
pub fn is_ack(reply: &[u8]) -> (r: bool)
    ensures
        r == (reply@ == ack_seq()),
{
    let expected = ack_bytes();
    if reply.len() != expected.len() {
        return false;
    }
    let mut i: usize = 0;
    while i < reply.len()
        invariant
            expected@ == ack_seq(),
            reply@.len() == expected@.len(),
            i <= reply@.len(),
            forall|j: int| 0 <= j < i ==> reply@[j] == expected@[j],
        decreases reply@.len() - i,
    {
        if reply[i] != expected[i] {
            return false;
        }
        i = i + 1;
    }
    assert(reply@ =~= ack_seq());
    true
}

/// Where a launch stands in handing its paths to a running instance.
#[derive(Clone, Copy, Debug, PartialEq, Eq, Structural)]
pub enum LaunchState {
    Unknown,
    /// Connected to a running instance; the paths are on their way.
    Probing,
    /// The running instance took the paths; this process ends.
    HandedOff,
    /// No instance was running; this process serves and opens windows.
    RunningAsServer,
    /// The running instance did not acknowledge; this process ends
    /// without a window.
    Failed,
}

/// What happened since the last step.
#[derive(Clone, Copy, Debug, PartialEq, Eq, Structural)]
pub enum LaunchEvent {
    /// The process started; `force_new` when asked for a new instance.
    Started { force_new: bool },
    ConnectFailed,
    Connected,
    /// Bytes came back; `ack` when they are the acknowledgement.
    Replied { ack: bool },
    TimedOut,
    TransportError,
}

/// What the process must do next.
#[derive(Clone, Copy, Debug, PartialEq, Eq, Structural)]
pub enum LaunchAction {
    /// Connect to the channel address.
    Connect,
    /// Clear a stale channel address, bind the listener and open windows.
    StartServer,
    /// Send the paths and wait for the acknowledgement this long.
    SendPaths { timeout_ms: u64 },
    /// End the process without opening a window.
    Exit,
    Nothing,
}

pub open spec fn launch_next(state: LaunchState, event: LaunchEvent) -> (LaunchState, LaunchAction) {
    match (state, event) {
        (LaunchState::Unknown, LaunchEvent::Started { force_new: true }) => (
            LaunchState::RunningAsServer,
            LaunchAction::StartServer,
        ),
        (LaunchState::Unknown, LaunchEvent::Started { force_new: false }) => (
            LaunchState::Unknown,
            LaunchAction::Connect,
        ),
        (LaunchState::Unknown, LaunchEvent::ConnectFailed) => (
            LaunchState::RunningAsServer,
            LaunchAction::StartServer,
        ),
        (LaunchState::Unknown, LaunchEvent::Connected) => (
            LaunchState::Probing,
            LaunchAction::SendPaths { timeout_ms: ACK_TIMEOUT_MS },
        ),
        (LaunchState::Probing, LaunchEvent::Replied { ack: true }) => (
            LaunchState::HandedOff,
            LaunchAction::Exit,
        ),
        (LaunchState::Probing, LaunchEvent::Replied { ack: false })
        | (LaunchState::Probing, LaunchEvent::TimedOut)
        | (LaunchState::Probing, LaunchEvent::TransportError) => (
            LaunchState::Failed,
            LaunchAction::Exit,
        ),
        _ => (state, LaunchAction::Nothing),
    }
}

/// One step of a launch: a failed connect makes this process the server;
/// a successful one sends the paths, and whatever comes of that, the
/// process ends without a window.
pub fn launch_step(state: LaunchState, event: LaunchEvent) -> (r: (LaunchState, LaunchAction))
    ensures
        r == launch_next(state, event),
{
    match (state, event) {
        (LaunchState::Unknown, LaunchEvent::Started { force_new: true }) => (
            LaunchState::RunningAsServer,
            LaunchAction::StartServer,
        ),
        (LaunchState::Unknown, LaunchEvent::Started { force_new: false }) => (
            LaunchState::Unknown,
            LaunchAction::Connect,
        ),
        (LaunchState::Unknown, LaunchEvent::ConnectFailed) => (
            LaunchState::RunningAsServer,
            LaunchAction::StartServer,
        ),
        (LaunchState::Unknown, LaunchEvent::Connected) => (
            LaunchState::Probing,
            LaunchAction::SendPaths { timeout_ms: ACK_TIMEOUT_MS },
        ),
        (LaunchState::Probing, LaunchEvent::Replied { ack: true }) => (
            LaunchState::HandedOff,
            LaunchAction::Exit,
        ),
        (LaunchState::Probing, LaunchEvent::Replied { ack: false })
        | (LaunchState::Probing, LaunchEvent::TimedOut)
        | (LaunchState::Probing, LaunchEvent::TransportError) => (
            LaunchState::Failed,
            LaunchAction::Exit,
        ),
        _ => (state, LaunchAction::Nothing),
    }
}

/// A launch that finds no running instance goes on to serve and open its
/// windows; one that reaches a running instance never does.
pub proof fn lemma_launch_outcomes(event: LaunchEvent)
    ensures
        launch_next(LaunchState::Unknown, LaunchEvent::ConnectFailed) == (
            LaunchState::RunningAsServer,
            LaunchAction::StartServer,
        ),
        launch_next(LaunchState::Probing, event).0 != LaunchState::RunningAsServer,
        launch_next(LaunchState::Probing, event).1 != LaunchAction::StartServer,
{
}

/// What a connection handler of the running instance saw.
#[derive(Clone, Copy, Debug, PartialEq, Eq, Structural)]
pub enum ServerEvent {
    /// A whole message was read; `open_paths` when it asks to open paths.
    Message { open_paths: bool },
    ReadFailed,
    Closed,
}

/// What the handler does about it.
#[derive(Clone, Copy, Debug, PartialEq, Eq, Structural)]
pub enum ServerAction {
    /// Pass the paths on to the windows, then acknowledge.
    ForwardAndAck,
    /// Acknowledge a message that asks for nothing this side handles.
    AckOnly,
    /// Drop the connection.
    Stop,
}

/// Each message read is acknowledged, and forwarded when it asks to open
/// paths; a failed read or a closed stream ends the handler.
pub fn server_step(event: ServerEvent) -> (r: ServerAction)
    ensures
        r == match event {
            ServerEvent::Message { open_paths: true } => ServerAction::ForwardAndAck,
            ServerEvent::Message { open_paths: false } => ServerAction::AckOnly,
            _ => ServerAction::Stop,
        },
{
    match event {
        ServerEvent::Message { open_paths } => {
            if open_paths {
                ServerAction::ForwardAndAck
            } else {
                ServerAction::AckOnly
            }
        },
        _ => ServerAction::Stop,
    }
}

} // verus!
