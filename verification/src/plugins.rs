//! Rules of the bundled plugins: their configurations, the raw display
//! format, shell quoting for tmux commands and the answers to Core controls.
use vstd::prelude::*;
use vstd::utf8::encode_utf8;
use vstd::string::StrSliceExecFns;
use crate::config::{texts, distinct_texts, distinct};
use crate::limits::{MAX_PAYLOAD, RangeError, bounded};
use crate::record::{Record, opt_text};
use crate::text::{append_str, push_char, append_decimal, decimal, append_bytes};

verus! {

/// Why a plugin configuration is refused.
#[derive(Debug, Clone, PartialEq, Eq)]
pub enum PluginConfigError {
    /// "spawn mode requires command"
    MissingCommand,
    /// "tmux_target and tmux_socket are only valid in tmux mode"
    TmuxOutsideTmux,
    /// "tmux mode requires tmux_target (a pane or unambiguous target)"
    MissingTmuxTarget,
    /// "tmux mode does not start or modify a target program"
    TmuxWithProgram,
    /// A numeric setting out of range.
    Range(RangeError),
    /// "shutdown_ms must be 10..=10000"
    ShutdownMs,
    /// "path required"
    MissingPath,
    /// "poll_ms must be 1..=60000"
    PollMs,
    /// "streams must be nonempty, unique names or IDs"
    Streams,
    /// "port and stream required"
    MissingPortOrStream,
    /// "invalid data_bits/stop_bits/parity"
    SerialFraming,
    /// "path and stream required"
    MissingPathOrStream,
}

/// How the program input captures output.
#[derive(Clone, Copy, Debug, PartialEq, Eq)]
pub enum ProgramMode {
    Spawn,
    Tmux,
}

/// The configuration of the program input.
#[derive(Clone, Debug)]
pub struct ProgramConfig {
    pub mode: ProgramMode,
    pub command: String,
    pub args: Vec<String>,
    pub cwd: Option<String>,
    /// Environment variables, sorted by name.
    pub env: Vec<(String, String)>,
    pub chunk_bytes: usize,
    pub shutdown_ms: u64,
    pub tmux_target: Option<String>,
    pub tmux_socket: Option<String>,
}

impl Default for ProgramConfig {
    /// Spawn mode, no command, 4096-byte chunks, 2 s to shut down.
    fn default() -> (c: ProgramConfig)
        ensures
            c.mode == ProgramMode::Spawn,
            c.command@.len() == 0,
            c.args@.len() == 0,
            c.cwd is None,
            c.env@.len() == 0,
            c.chunk_bytes == 4096,
            c.shutdown_ms == 2000,
            c.tmux_target is None,
            c.tmux_socket is None,
    {
        ProgramConfig {
            mode: ProgramMode::Spawn,
            command: String::new(),
            args: Vec::new(),
            cwd: None,
            env: Vec::new(),
            chunk_bytes: 4096,
            shutdown_ms: 2000,
            tmux_target: None,
            tmux_socket: None,
        }
    }
}

/// The range check of a named numeric setting, as `bounded` makes it.
pub open spec fn range_fault(name: Seq<char>, value: usize, min: usize, max: usize) -> Option<(Seq<char>, usize, usize)> {
    if min <= value <= max { None } else { Some((name, min, max)) }
}

impl ProgramConfig {
    /// The first mode-specific rule the configuration breaks.
    pub open spec fn mode_fault(&self) -> Option<PluginConfigError> {
        match self.mode {
            ProgramMode::Spawn => if self.command@.len() == 0 {
                Some(PluginConfigError::MissingCommand)
            } else if self.tmux_target is Some || self.tmux_socket is Some {
                Some(PluginConfigError::TmuxOutsideTmux)
            } else {
                None
            },
            ProgramMode::Tmux => if self.tmux_target is None || self.tmux_target->0@.len() == 0 {
                Some(PluginConfigError::MissingTmuxTarget)
            } else if self.command@.len() != 0 || self.args@.len() != 0 || self.cwd is Some || self.env@.len() != 0 {
                Some(PluginConfigError::TmuxWithProgram)
            } else {
                None
            },
        }
    }

    /// Checks the configuration.
    pub fn check(&self) -> (r: Result<(), PluginConfigError>)
        ensures
            self.mode_fault() matches Some(e) ==> r == Err::<(), PluginConfigError>(e),
            self.mode_fault() is None && !(1 <= self.chunk_bytes <= MAX_PAYLOAD) ==> (r matches Err(PluginConfigError::Range(e))
                && e.name@ == "chunk_bytes"@ && e.min == 1 && e.max == MAX_PAYLOAD),
            self.mode_fault() is None && 1 <= self.chunk_bytes <= MAX_PAYLOAD && !(10 <= self.shutdown_ms <= 10000)
                ==> r == Err::<(), PluginConfigError>(PluginConfigError::ShutdownMs),
            self.mode_fault() is None && 1 <= self.chunk_bytes <= MAX_PAYLOAD && 10 <= self.shutdown_ms <= 10000 ==> r is Ok,
    {
        match self.mode {
            ProgramMode::Spawn => {
                if self.command.as_str().is_empty() {
                    return Err(PluginConfigError::MissingCommand);
                }
                if self.tmux_target.is_some() || self.tmux_socket.is_some() {
                    return Err(PluginConfigError::TmuxOutsideTmux);
                }
            },
            ProgramMode::Tmux => {
                let missing = match &self.tmux_target {
                    Some(t) => t.as_str().is_empty(),
                    None => true,
                };
                if missing {
                    return Err(PluginConfigError::MissingTmuxTarget);
                }
                if !self.command.as_str().is_empty() || self.args.len() != 0 || self.cwd.is_some() || self.env.len() != 0 {
                    return Err(PluginConfigError::TmuxWithProgram);
                }
            },
        }
        match bounded("chunk_bytes", self.chunk_bytes, 1, MAX_PAYLOAD) {
            Err(e) => return Err(PluginConfigError::Range(e)),
            Ok(()) => {},
        }
        if !(10 <= self.shutdown_ms && self.shutdown_ms <= 10000) {
            return Err(PluginConfigError::ShutdownMs);
        }
        Ok(())
    }
}

/// How the file input reads its file.
#[derive(Clone, Copy, Debug, PartialEq, Eq)]
pub enum FileMode {
    Follow,
    Static,
}

/// The configuration of the file input.
#[derive(Clone, Debug)]
pub struct FileInputConfig {
    pub path: String,
    pub mode: FileMode,
    pub from_start: bool,
    pub chunk_bytes: usize,
    pub poll_ms: u64,
}

impl Default for FileInputConfig {
    /// Follow mode from the end, 4096-byte chunks, polled every 50 ms.
    fn default() -> (c: FileInputConfig)
        ensures
            c.path@.len() == 0,
            c.mode == FileMode::Follow,
            !c.from_start,
            c.chunk_bytes == 4096,
            c.poll_ms == 50,
    {
        FileInputConfig { path: String::new(), mode: FileMode::Follow, from_start: false, chunk_bytes: 4096, poll_ms: 50 }
    }
}

impl FileInputConfig {
    /// Checks the path, the chunk size and the polling interval, in that order.
    pub fn check(&self) -> (r: Result<(), PluginConfigError>)
        ensures
            self.path@.len() == 0 ==> r == Err::<(), PluginConfigError>(PluginConfigError::MissingPath),
            self.path@.len() != 0 && !(1 <= self.chunk_bytes <= MAX_PAYLOAD) ==> (r matches Err(PluginConfigError::Range(e))
                && e.name@ == "chunk_bytes"@ && e.min == 1 && e.max == MAX_PAYLOAD),
            self.path@.len() != 0 && 1 <= self.chunk_bytes <= MAX_PAYLOAD && !(1 <= self.poll_ms <= 60000)
                ==> r == Err::<(), PluginConfigError>(PluginConfigError::PollMs),
            self.path@.len() != 0 && 1 <= self.chunk_bytes <= MAX_PAYLOAD && 1 <= self.poll_ms <= 60000 ==> r is Ok,
    {
        if self.path.as_str().is_empty() {
            return Err(PluginConfigError::MissingPath);
        }
        match bounded("chunk_bytes", self.chunk_bytes, 1, MAX_PAYLOAD) {
            Err(e) => return Err(PluginConfigError::Range(e)),
            Ok(()) => {},
        }
        if !(1 <= self.poll_ms && self.poll_ms <= 60000) {
            return Err(PluginConfigError::PollMs);
        }
        Ok(())
    }
}

/// The configuration of the raw display output.
#[derive(Clone, Debug)]
pub struct RawConfig {
    pub streams: Vec<String>,
    /// A metadata line before each record. Payload bytes remain unchanged.
    pub annotate: bool,
}

impl RawConfig {
    /// Stream names must be nonempty and unique.
    pub fn check(&self) -> (r: Result<(), PluginConfigError>)
        ensures
            r is Ok <==> distinct_texts(texts(self.streams@))
                && forall|i: int| 0 <= i < self.streams@.len() ==> #[trigger] texts(self.streams@)[i].len() != 0,
            r is Err ==> r == Err::<(), PluginConfigError>(PluginConfigError::Streams),
    {
        let mut i: usize = 0;
        while i < self.streams.len()
            invariant
                i <= self.streams@.len(),
                forall|j: int| 0 <= j < i ==> #[trigger] texts(self.streams@)[j].len() != 0,
            decreases self.streams.len() - i,
        {
            assert(texts(self.streams@)[i as int] == self.streams@[i as int]@);
            if self.streams[i].as_str().is_empty() {
                return Err(PluginConfigError::Streams);
            }
            i += 1;
        }
        if !distinct(&self.streams) {
            return Err(PluginConfigError::Streams);
        }
        Ok(())
    }
}

/// The annotation line of the raw display: `\n[{stream} #{seq} channel={channel}]\n`,
/// the channel `default` when there is none.
pub open spec fn annotation(r: crate::record::RecordView) -> Seq<char> {
    let channel = match r.channel {
        Some(c) => c,
        None => "default"@,
    };
    "\n["@ + r.stream + " #"@ + decimal(r.seq as nat) + " channel="@ + channel + "]\n"@
}

/// The bytes the raw display writes for `record`: the payload, after an
/// annotation line when annotating.
pub fn display(record: &Record, annotate: bool) -> (bytes: Vec<u8>)
    ensures
        bytes@ == if annotate { encode_utf8(annotation(record@)) + record@.payload } else { record@.payload },
{
    let mut bytes: Vec<u8> = Vec::new();
    if annotate {
        let mut line = String::new();
        append_str(&mut line, "\n[");
        append_str(&mut line, record.stream.as_str());
        append_str(&mut line, " #");
        append_decimal(&mut line, record.seq);
        append_str(&mut line, " channel=");
        match &record.channel {
            Some(c) => append_str(&mut line, c.as_str()),
            None => append_str(&mut line, "default"),
        }
        append_str(&mut line, "]\n");
        append_bytes(&mut bytes, line.as_str().as_bytes());
        assert(line@ =~= annotation(record@));
    }
    append_bytes(&mut bytes, record.payload.as_slice());
    proof {
        if !annotate {
            assert(bytes@ =~= record@.payload);
        }
    }
    bytes
}

/// `s` with each single quote written `'\''`.
pub open spec fn quote_body(s: Seq<char>) -> Seq<char>
    decreases s.len(),
{
    if s.len() == 0 {
        Seq::empty()
    } else {
        quote_body(s.drop_last()) + if s.last() == '\'' { "'\\''"@ } else { seq![s.last()] }
    }
}

/// `s` as one single-quoted shell word: every character stands for itself.
pub fn shell_quote(s: &str) -> (q: String)
    ensures
        q@ == "'"@ + quote_body(s@) + "'"@,
{
    let mut q = String::new();
    append_str(&mut q, "'");
    let n = s.unicode_len();
    let mut i: usize = 0;
    while i < n
        invariant
            n == s@.len(),
            i <= n,
            q@ == "'"@ + quote_body(s@.take(i as int)),
        decreases n - i,
    {
        let c = s.get_char(i);
        proof {
            assert(s@.take(i as int + 1).drop_last() =~= s@.take(i as int));
        }
        if c == '\'' {
            append_str(&mut q, "'\\''");
        } else {
            push_char(&mut q, c);
        }
        proof {
            assert(s@.take(i as int + 1).last() == c);
        }
        i += 1;
    }
    assert(s@.take(n as int) =~= s@);
    append_str(&mut q, "'");
    q
}

/// A plugin's answer to a Core control.
#[derive(Clone, Copy, Debug, PartialEq, Eq)]
pub enum ControlAnswer {
    /// `shutdown`: the plugin is stopping; stopping is not completion.
    Stopping,
    /// `config.get`: the effective startup snapshot, nothing dynamic, and a
    /// restart needed for changes.
    Snapshot,
    /// `config.patch`: refused with `restart_required`.
    RestartRequired,
    /// Anything else: refused with `invalid_control`.
    Unsupported,
}

/// How a plugin answers the control `method`.
pub fn control_answer(method: &str) -> (a: ControlAnswer)
    ensures
        a == if method@ == "shutdown"@ {
            ControlAnswer::Stopping
        } else if method@ == "config.get"@ {
            ControlAnswer::Snapshot
        } else if method@ == "config.patch"@ {
            ControlAnswer::RestartRequired
        } else {
            ControlAnswer::Unsupported
        },
{
    if crate::text::text_eq(method, "shutdown") {
        ControlAnswer::Stopping
    } else if crate::text::text_eq(method, "config.get") {
        ControlAnswer::Snapshot
    } else if crate::text::text_eq(method, "config.patch") {
        ControlAnswer::RestartRequired
    } else {
        ControlAnswer::Unsupported
    }
}

impl ControlAnswer {
    /// The refusal the plugin replies with, as (fault code, message): none for
    /// `shutdown` and `config.get`, which are answered.
    pub fn refusal(&self, method: &str) -> (r: Option<(String, String)>)
        ensures
            match self {
                ControlAnswer::RestartRequired => r matches Some((c, m)) && c@ == "restart_required"@
                    && m@ == "configuration is a startup snapshot; restart the main process to apply changes"@,
                ControlAnswer::Unsupported => r matches Some((c, m)) && c@ == "invalid_control"@
                    && m@ == "unsupported control "@ + method@,
                _ => r is None,
            },
    {
        match self {
            ControlAnswer::RestartRequired => Some((
                "restart_required".to_owned(),
                "configuration is a startup snapshot; restart the main process to apply changes".to_owned(),
            )),
            ControlAnswer::Unsupported => {
                let mut m = "unsupported control ".to_owned();
                crate::text::append_str(&mut m, method);
                Some(("invalid_control".to_owned(), m))
            },
            _ => None,
        }
    }

    /// The flags of an answered control: for `shutdown`, `stopping` and
    /// `completed` (stopping is not completion); for `config.get`,
    /// `restart_required`, its `dynamic_fields` being empty.
    pub fn flags(&self) -> (r: Vec<(&'static str, bool)>)
        ensures
            match self {
                ControlAnswer::Stopping => r@.len() == 2 && r@[0].0@ == "stopping"@ && r@[0].1
                    && r@[1].0@ == "completed"@ && !r@[1].1,
                ControlAnswer::Snapshot => r@.len() == 1 && r@[0].0@ == "restart_required"@ && r@[0].1,
                _ => r@.len() == 0,
            },
    {
        match self {
            ControlAnswer::Stopping => vec![("stopping", true), ("completed", false)],
            ControlAnswer::Snapshot => vec![("restart_required", true)],
            _ => Vec::new(),
        }
    }
}

/// The configuration of the serial-port input.
#[derive(Clone, Debug)]
pub struct SerialConfig {
    pub port: String,
    pub stream: String,
    pub baud: u32,
    pub data_bits: u8,
    pub stop_bits: u8,
    /// `none`, `odd` or `even`.
    pub parity: String,
    pub chunk_bytes: usize,
}

impl Default for SerialConfig {
    /// No port, stream `serial`, 115200 baud 8N1, 4096-byte chunks.
    fn default() -> (c: SerialConfig)
        ensures
            c.port@.len() == 0,
            c.stream@ == "serial"@,
            c.baud == 115200,
            c.data_bits == 8,
            c.stop_bits == 1,
            c.parity@ == "none"@,
            c.chunk_bytes == 4096,
    {
        SerialConfig {
            port: String::new(),
            stream: "serial".to_owned(),
            baud: 115200,
            data_bits: 8,
            stop_bits: 1,
            parity: "none".to_owned(),
            chunk_bytes: 4096,
        }
    }
}

impl SerialConfig {
    /// Whether the framing settings are valid: 5 to 8 data bits, 1 or 2 stop
    /// bits and a known parity.
    pub open spec fn framing_ok(&self) -> bool {
        &&& 5 <= self.data_bits <= 8
        &&& 1 <= self.stop_bits <= 2
        &&& (self.parity@ == "none"@ || self.parity@ == "odd"@ || self.parity@ == "even"@)
    }

    /// Checks the port and stream, the baud rate, the chunk size and the framing, in that order.
    pub fn check(&self) -> (r: Result<(), PluginConfigError>)
        ensures
            (self.port@.len() == 0 || self.stream@.len() == 0) ==> r == Err::<(), PluginConfigError>(
                PluginConfigError::MissingPortOrStream,
            ),
            self.port@.len() != 0 && self.stream@.len() != 0 && !(50 <= self.baud <= 4000000) ==> (r matches Err(
                PluginConfigError::Range(e),
            ) && e.name@ == "baud"@ && e.min == 50 && e.max == 4000000),
            self.port@.len() != 0 && self.stream@.len() != 0 && 50 <= self.baud <= 4000000 && !(1
                <= self.chunk_bytes <= MAX_PAYLOAD) ==> (r matches Err(PluginConfigError::Range(e)) && e.name@
                == "chunk_bytes"@ && e.min == 1 && e.max == MAX_PAYLOAD),
            self.port@.len() != 0 && self.stream@.len() != 0 && 50 <= self.baud <= 4000000 && 1 <= self.chunk_bytes
                <= MAX_PAYLOAD ==> r == (if self.framing_ok() {
                Ok(())
            } else {
                Err::<(), PluginConfigError>(PluginConfigError::SerialFraming)
            }),
    {
        if self.port.as_str().is_empty() || self.stream.as_str().is_empty() {
            return Err(PluginConfigError::MissingPortOrStream);
        }
        match bounded("baud", self.baud as usize, 50, 4000000) {
            Err(e) => return Err(PluginConfigError::Range(e)),
            Ok(()) => {},
        }
        match bounded("chunk_bytes", self.chunk_bytes, 1, MAX_PAYLOAD) {
            Err(e) => return Err(PluginConfigError::Range(e)),
            Ok(()) => {},
        }
        proof {
            reveal_strlit("none");
            reveal_strlit("odd");
            reveal_strlit("even");
        }
        let parity = self.parity.as_str();
        let known = crate::text::text_eq(parity, "none") || crate::text::text_eq(parity, "odd")
            || crate::text::text_eq(parity, "even");
        if !(5 <= self.data_bits && self.data_bits <= 8) || !(1 <= self.stop_bits && self.stop_bits <= 2) || !known {
            return Err(PluginConfigError::SerialFraming);
        }
        Ok(())
    }
}

/// The configuration of the file-tailing input: it reads a file from its end
/// (or its start) and polls for growth.
#[derive(Clone, Debug)]
pub struct TailConfig {
    pub path: String,
    pub stream: String,
    pub from_start: bool,
    pub chunk_bytes: usize,
    pub poll_ms: u64,
}

impl Default for TailConfig {
    /// No path, stream `file`, from the end, 4096-byte chunks, polled every 50 ms.
    fn default() -> (c: TailConfig)
        ensures
            c.path@.len() == 0,
            c.stream@ == "file"@,
            !c.from_start,
            c.chunk_bytes == 4096,
            c.poll_ms == 50,
    {
        TailConfig { path: String::new(), stream: "file".to_owned(), from_start: false, chunk_bytes: 4096, poll_ms: 50 }
    }
}

impl TailConfig {
    /// Checks the path and stream, the chunk size and the polling interval, in that order.
    pub fn check(&self) -> (r: Result<(), PluginConfigError>)
        ensures
            (self.path@.len() == 0 || self.stream@.len() == 0) ==> r == Err::<(), PluginConfigError>(
                PluginConfigError::MissingPathOrStream,
            ),
            self.path@.len() != 0 && self.stream@.len() != 0 && !(1 <= self.chunk_bytes <= MAX_PAYLOAD) ==> (r matches Err(
                PluginConfigError::Range(e),
            ) && e.name@ == "chunk_bytes"@ && e.min == 1 && e.max == MAX_PAYLOAD),
            self.path@.len() != 0 && self.stream@.len() != 0 && 1 <= self.chunk_bytes <= MAX_PAYLOAD && !(1
                <= (self.poll_ms as usize) <= 60000) ==> (r matches Err(PluginConfigError::Range(e)) && e.name@ == "poll_ms"@
                && e.min == 1 && e.max == 60000),
            self.path@.len() != 0 && self.stream@.len() != 0 && 1 <= self.chunk_bytes <= MAX_PAYLOAD && 1 <= (self.poll_ms as usize)
                <= 60000 ==> r is Ok,
    {
        if self.path.as_str().is_empty() || self.stream.as_str().is_empty() {
            return Err(PluginConfigError::MissingPathOrStream);
        }
        match bounded("chunk_bytes", self.chunk_bytes, 1, MAX_PAYLOAD) {
            Err(e) => return Err(PluginConfigError::Range(e)),
            Ok(()) => {},
        }
        match bounded("poll_ms", self.poll_ms as usize, 1, 60000) {
            Err(e) => return Err(PluginConfigError::Range(e)),
            Ok(()) => {},
        }
        Ok(())
    }
}

} // verus!
