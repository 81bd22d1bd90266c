//! Protocol vocabulary: transports, plugin roles and Core options.
use vstd::prelude::*;
use crate::limits::{EVENT_QUEUE, MAX_PAYLOAD, MAX_WIRE, MAX_DATAGRAM};

verus! {

/// The protocol spoken between plugins and the Core.
pub const PROTOCOL: &'static str = "log-print/2";

/// The transport between plugins and the Core. TCP is the default.
#[derive(Clone, Copy, Debug, PartialEq, Eq, Structural)]
pub enum TransportKind {
    Tcp,
    Udp,
}

/// A configured plugin is either a producer or a consumer.
#[derive(Clone, Copy, Debug, PartialEq, Eq, Structural)]
pub enum Role {
    Input,
    Output,
}

/// Per-Core buffering and batching limits.
#[derive(Clone, Copy, Debug)]
pub struct CoreOptions {
    pub transport: TransportKind,
    pub buffer_bytes: usize,
    pub buffer_records: usize,
    pub max_payload_bytes: usize,
    pub read_batch_records: usize,
    pub queue_records: usize,
}

impl Default for CoreOptions {
    /// The defaults: TCP, 4 MiB and 4096 records per stream, 64 KiB payloads,
    /// 64-record batches and 64-message queues.
    fn default() -> (o: CoreOptions)
        ensures
            o.transport == TransportKind::Tcp,
            o.buffer_bytes == 4194304,
            o.buffer_records == 4096,
            o.max_payload_bytes == MAX_PAYLOAD,
            o.read_batch_records == 64,
            o.queue_records == EVENT_QUEUE,
            o.in_range(),
    {
        CoreOptions {
            transport: TransportKind::Tcp,
            buffer_bytes: 4194304,
            buffer_records: 4096,
            max_payload_bytes: MAX_PAYLOAD,
            read_batch_records: 64,
            queue_records: EVENT_QUEUE,
        }
    }
}

impl CoreOptions {
    /// The accepted ranges of every limit.
    pub open spec fn in_range(&self) -> bool {
        &&& 1 <= self.buffer_bytes <= 1073741824
        &&& 1 <= self.buffer_records <= 1000000
        &&& 1 <= self.max_payload_bytes <= MAX_PAYLOAD
        &&& 1 <= self.read_batch_records <= 64
        &&& 1 <= self.queue_records <= 1024
    }

    /// Whether every limit lies in its accepted range.
    pub fn check(&self) -> (ok: bool)
        ensures
            ok == self.in_range(),
    {
        1 <= self.buffer_bytes && self.buffer_bytes <= 1073741824
            && 1 <= self.buffer_records && self.buffer_records <= 1000000
            && 1 <= self.max_payload_bytes && self.max_payload_bytes <= MAX_PAYLOAD
            && 1 <= self.read_batch_records && self.read_batch_records <= 64
            && 1 <= self.queue_records && self.queue_records <= 1024
    }
}

/// Nanoseconds since the Unix epoch by the system clock (std's
/// `SystemTime::now`, measured from `UNIX_EPOCH`), 0 for a clock set before it.
/// Nothing is stated of the value: it is the time.
#[verifier::external_body]
fn system_nanos() -> u128 {
    std::time::SystemTime::now().duration_since(std::time::UNIX_EPOCH).unwrap_or_default().as_nanos()
}

/// A nanosecond count narrowed to `u64`, saturating.
pub fn clamp_nanos(n: u128) -> (r: u64)
    ensures
        r == if n > u64::MAX { u64::MAX as int } else { n as int },
{
    if n > 18446744073709551615u128 {
        18446744073709551615u64
    } else {
        n as u64
    }
}

/// The current time in nanoseconds since the Unix epoch, saturating at `u64::MAX`.
pub fn now_ns() -> u64 {
    clamp_nanos(system_nanos())
}

/// A transport name other than `tcp` or `udp`.
#[derive(Clone, Copy, Debug, PartialEq, Eq)]
pub struct UnknownTransport;

impl UnknownTransport {
    /// What the refusal says.
    pub fn message(&self) -> (m: &'static str)
        ensures
            m@ == "transport must be tcp or udp"@,
    {
        "transport must be tcp or udp"
    }
}

impl TransportKind {
    /// The configuration spelling: `tcp` or `udp`.
    pub fn name(&self) -> (s: &'static str)
        ensures
            s@ == match self {
                TransportKind::Tcp => "tcp"@,
                TransportKind::Udp => "udp"@,
            },
    {
        match self {
            TransportKind::Tcp => "tcp",
            TransportKind::Udp => "udp",
        }
    }

    /// Parses `tcp` or `udp`; anything else is refused.
    pub fn parse(s: &str) -> (r: Result<TransportKind, UnknownTransport>)
        ensures
            r == if s@ == "tcp"@ {
                Ok(TransportKind::Tcp)
            } else if s@ == "udp"@ {
                Ok(TransportKind::Udp)
            } else {
                Err(UnknownTransport)
            },
    {
        if crate::text::text_eq(s, "tcp") {
            Ok(TransportKind::Tcp)
        } else if crate::text::text_eq(s, "udp") {
            Ok(TransportKind::Udp)
        } else {
            Err(UnknownTransport)
        }
    }

    /// The largest encoded reply the Core sends on this transport.
    pub fn reply_budget(&self) -> (n: usize)
        ensures
            n == match self {
                TransportKind::Tcp => MAX_WIRE - 1,
                TransportKind::Udp => MAX_DATAGRAM as int,
            },
    {
        match self {
            TransportKind::Tcp => MAX_WIRE - 1,
            TransportKind::Udp => MAX_DATAGRAM,
        }
    }
}

/// Why a frame or datagram is refused.
#[derive(Clone, Copy, Debug, PartialEq, Eq)]
pub enum FrameError {
    /// A frame, newline included, would exceed `MAX_WIRE`.
    FrameTooLarge,
    /// The stream ended inside a frame.
    TruncatedFrame,
    /// An encoded message exceeds `MAX_DATAGRAM`.
    DatagramTooLarge,
}

/// What one chunk of input does to the frame being read.
#[derive(Clone, Debug, PartialEq, Eq)]
pub enum FrameStep {
    /// The chunk was consumed; the frame continues.
    More,
    /// A complete frame, newline included.
    Frame(Vec<u8>),
}

/// The length of the prefix of `chunk` up to and including its first newline,
/// or all of it.
pub open spec fn line_prefix(chunk: Seq<u8>) -> int {
    if exists|i: int| 0 <= i < chunk.len() && chunk[i] == 10 {
        (choose|i: int| 0 <= i < chunk.len() && chunk[i] == 10 && forall|j: int| 0 <= j < i ==> chunk[j] != 10) + 1
    } else {
        chunk.len() as int
    }
}

/// Splits a byte stream into newline-terminated frames of at most `MAX_WIRE`
/// bytes, refusing an oversized frame as soon as it is seen.
pub struct FrameReader {
    frame: Vec<u8>,
}

impl FrameReader {
    pub closed spec fn partial(&self) -> Seq<u8> {
        self.frame@
    }

    /// A reader with no partial frame.
    pub fn new() -> (r: FrameReader)
        ensures
            r.partial().len() == 0,
    {
        FrameReader { frame: Vec::new() }
    }

    /// Takes the next chunk of input. Returns how many bytes of `chunk` were
    /// consumed and what they completed; refuses a frame that would pass
    /// `MAX_WIRE`, leaving the chunk unconsumed.
    pub fn push(&mut self, chunk: &[u8]) -> (r: Result<(usize, FrameStep), FrameError>)
        requires
            chunk@.len() > 0,
            old(self).partial().len() <= MAX_WIRE,
        ensures
            ({
                let n = line_prefix(chunk@);
                let taken = old(self).partial() + chunk@.take(n);
                if old(self).partial().len() + n > MAX_WIRE {
                    r == Err::<(usize, FrameStep), FrameError>(FrameError::FrameTooLarge)
                        && final(self).partial() == old(self).partial()
                } else if chunk@[n - 1] == 10 {
                    &&& r matches Ok((c, FrameStep::Frame(f))) && c == n && f@ == taken
                    &&& final(self).partial().len() == 0
                } else {
                    &&& r matches Ok((c, FrameStep::More)) && c == n
                    &&& final(self).partial() == taken
                }
            }),
            final(self).partial().len() <= MAX_WIRE,
    {
        let mut n: usize = 0;
        while n < chunk.len() && chunk[n] != 10
            invariant
                n <= chunk@.len(),
                forall|j: int| 0 <= j < n ==> chunk@[j] != 10,
            decreases chunk.len() - n,
        {
            n += 1;
        }
        proof {
            if n < chunk@.len() {
                assert(chunk@[n as int] == 10);
                let c = choose|i: int| 0 <= i < chunk@.len() && chunk@[i] == 10 && forall|j: int| 0 <= j < i ==> chunk@[j] != 10;
                assert(0 <= n < chunk@.len() && chunk@[n as int] == 10 && forall|j: int| 0 <= j < n ==> chunk@[j] != 10);
                if c < n {
                    assert(chunk@[c] != 10);
                } else if c > n {
                    assert(chunk@[n as int] != 10);
                }
            }
        }
        let n = if n < chunk.len() { n + 1 } else { n };
        if n > MAX_WIRE || self.frame.len() > MAX_WIRE - n {
            return Err(FrameError::FrameTooLarge);
        }
        let done = chunk[n - 1] == 10;
        let ghost before = self.frame@;
        let mut i: usize = 0;
        while i < n
            invariant
                n <= chunk@.len(),
                i <= n,
                self.frame@ == before + chunk@.take(i as int),
            decreases n - i,
        {
            self.frame.push(chunk[i]);
            assert(chunk@.take(i as int + 1) =~= chunk@.take(i as int).push(chunk@[i as int]));
            i += 1;
        }
        if done {
            let mut f: Vec<u8> = Vec::new();
            std::mem::swap(&mut f, &mut self.frame);
            Ok((n, FrameStep::Frame(f)))
        } else {
            Ok((n, FrameStep::More))
        }
    }

    /// The input ended: nothing pending is a clean end, else the last frame was
    /// cut short.
    pub fn finish(&self) -> (r: Result<(), FrameError>)
        ensures
            r is Ok <==> self.partial().len() == 0,
            r is Err ==> r == Err::<(), FrameError>(FrameError::TruncatedFrame),
    {
        if self.frame.len() == 0 {
            Ok(())
        } else {
            Err(FrameError::TruncatedFrame)
        }
    }
}

/// An encoded message as one stream frame: the bytes and a newline, unless the
/// frame would exceed `MAX_WIRE`.
pub fn frame_line(bytes: Vec<u8>) -> (r: Result<Vec<u8>, FrameError>)
    ensures
        bytes@.len() + 1 > MAX_WIRE ==> r == Err::<Vec<u8>, FrameError>(FrameError::FrameTooLarge),
        bytes@.len() + 1 <= MAX_WIRE ==> (r matches Ok(f) && f@ == bytes@.push(10)),
{
    if bytes.len() >= MAX_WIRE {
        return Err(FrameError::FrameTooLarge);
    }
    let mut f = bytes;
    f.push(10);
    Ok(f)
}

/// An encoded message as one datagram, unless it exceeds `MAX_DATAGRAM`.
pub fn datagram(bytes: Vec<u8>) -> (r: Result<Vec<u8>, FrameError>)
    ensures
        bytes@.len() > MAX_DATAGRAM ==> r == Err::<Vec<u8>, FrameError>(FrameError::DatagramTooLarge),
        bytes@.len() <= MAX_DATAGRAM ==> (r matches Ok(d) && d@ == bytes@),
{
    if bytes.len() > MAX_DATAGRAM {
        return Err(FrameError::DatagramTooLarge);
    }
    Ok(bytes)
}

/// The greeting that opens a connection to the Core.
#[derive(Clone, Debug)]
pub struct Hello {
    pub protocol: String,
    pub plugin: String,
    pub token: String,
    /// An event connection carries one subscription instead of operations.
    pub events: bool,
}

/// What a plugin's event channel delivers.
#[derive(Clone, Debug)]
pub enum Event {
    Record(crate::record::Record),
    Gap { stream: String, epoch: String, from: u64, to: u64, reason: String },
    Disconnected { stream: String, reason: String },
}

/// TCP admission and UDP local transmission are deliberately distinct outcomes.
#[derive(Clone, Debug)]
pub enum PublishOutcome {
    Accepted(Box<crate::record::Record>),
    LocalSent,
}


/// The first message a plugin reads after its greeting, as plain values: a
/// response (with its request id, its error if any, and from its result the
/// `protocol`, the own stream's `id` and `alias`, and the `reads` when they
/// are a list of texts), or any other message.
#[derive(Clone, Debug)]
pub struct WelcomeReply {
    pub is_response: bool,
    pub id: u64,
    /// The error's code and message.
    pub error: Option<(String, String)>,
    pub protocol: Option<String>,
    pub stream_id: Option<String>,
    pub stream_alias: Option<String>,
    pub reads: Option<Vec<String>>,
}

/// Why a plugin's registration failed.
#[derive(Clone, Debug, PartialEq, Eq)]
pub enum WelcomeError {
    /// The Core refused it with this error code and message.
    Refused { code: String, message: String },
    /// The reply is no welcome of this protocol.
    InvalidWelcome,
}

/// What a registered plugin knows: its own stream, what it reads, and the
/// aliases it resolves (its stream's identity and alias, both to the identity).
#[derive(Clone, Debug)]
pub struct Session {
    pub own_stream: Option<String>,
    pub read_streams: Vec<String>,
    pub aliases: Vec<(String, String)>,
}

/// The welcome is accepted: a response to the greeting (request 0) without
/// error whose result names this protocol.
pub open spec fn welcome_accepted(w: WelcomeReply) -> bool {
    &&& w.is_response
    &&& w.id == 0
    &&& w.error is None
    &&& w.protocol matches Some(p) && p@ == PROTOCOL@
}

/// Decides a plugin's registration from the Core's first reply.
pub fn accept_welcome(w: WelcomeReply) -> (r: Result<Session, WelcomeError>)
    ensures
        welcome_accepted(w) ==> (r matches Ok(s) && {
            &&& crate::record::opt_text(s.own_stream) == crate::record::opt_text(w.stream_id)
            &&& s.read_streams@.map_values(|t: String| t@) == match w.reads {
                Some(v) => v@.map_values(|t: String| t@),
                None => Seq::empty(),
            }
            &&& s.aliases@.map_values(|e: (String, String)| (e.0@, e.1@)) == match (w.stream_id, w.stream_alias) {
                (Some(i), Some(a)) => if a@ == i@ { seq![(i@, i@)] } else { seq![(i@, i@), (a@, i@)] },
                (Some(i), None) => seq![(i@, i@)],
                _ => Seq::empty(),
            }
        }),
        !welcome_accepted(w) && w.is_response && w.error is Some ==> (r matches Err(WelcomeError::Refused { code, message })
            && w.error matches Some(e) && code@ == e.0@ && message@ == e.1@),
        !welcome_accepted(w) && !(w.is_response && w.error is Some) ==> r == Err::<Session, WelcomeError>(WelcomeError::InvalidWelcome),
{
    let ghost sid = w.stream_id;
    let ghost sal = w.stream_alias;
    let accepted = w.is_response && w.id == 0 && w.error.is_none() && match &w.protocol {
        Some(p) => crate::text::text_eq(p.as_str(), PROTOCOL),
        None => false,
    };
    if !accepted {
        if w.is_response {
            if let Some((code, message)) = w.error {
                return Err(WelcomeError::Refused { code, message });
            }
        }
        return Err(WelcomeError::InvalidWelcome);
    }
    let read_streams = match w.reads {
        Some(v) => v,
        None => Vec::new(),
    };
    let mut aliases: Vec<(String, String)> = Vec::new();
    if let Some(id) = &w.stream_id {
        aliases.push((id.clone(), id.clone()));
        if let Some(alias) = &w.stream_alias {
            if !crate::text::text_eq(alias.as_str(), id.as_str()) {
                aliases.push((alias.clone(), id.clone()));
            }
        }
    }
    proof {
        assert(read_streams@.map_values(|t: String| t@) == match w.reads {
            Some(v) => v@.map_values(|t: String| t@),
            None => Seq::<Seq<char>>::empty(),
        }) by {
            if w.reads is None {
                assert(read_streams@.map_values(|t: String| t@) =~= Seq::<Seq<char>>::empty());
            }
        }
        let av = aliases@.map_values(|e: (String, String)| (e.0@, e.1@));
        match (sid, sal) {
            (Some(i), Some(a)) => if a@ == i@ {
                assert(av =~= seq![(i@, i@)]);
            } else {
                assert(av =~= seq![(i@, i@), (a@, i@)]);
            },
            (Some(i), None) => {
                assert(av =~= seq![(i@, i@)]);
            },
            _ => {
                assert(av =~= Seq::<(Seq<char>, Seq<char>)>::empty());
            },
        }
    }
    Ok(Session { own_stream: w.stream_id, read_streams, aliases })
}

} // verus!
