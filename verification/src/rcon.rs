use vstd::prelude::*;
use vstd::string::StringSliceAdditionalSpecFns;
use vstd::bytes::{spec_u32_to_le_bytes, spec_u32_from_le_bytes, u32_to_le_bytes, u32_from_le_bytes};

verus! {

/// Errors of the protocol layer.
#[derive(Debug)]
pub enum RconError {
    /// The received length prefix is outside the sane window.
    InvalidLength(i32),
    /// The received payload is too short to hold id, type and terminator.
    ShortPacket,
    /// The server rejected the password.
    AuthFailed,
    /// The command exceeds the wire ceiling.
    CommandTooLong(usize),
    /// An I/O failure, described by the caller.
    Io(String),
}

/// Packet type tag for authentication requests.
pub const TYPE_AUTH: i32 = 3;

/// Packet type tag for commands and their responses.
pub const TYPE_COMMAND: i32 = 2;

/// Packet type tag for auxiliary response fragments.
pub const TYPE_AUX: i32 = 0;

/// Commands longer than this many bytes are rejected before sending.
pub const MAX_COMMAND_BYTES: usize = 1413;

/// Smallest admissible length-prefix value: id, type and terminator plus a
/// margin, as the remote sends it.
pub const MIN_PACKET_LEN: i32 = 10;

/// Largest admissible length-prefix value.
pub const MAX_PACKET_LEN: i32 = 1048576;

/// A decoded protocol packet.
pub struct RconPacket {
    pub id: i32,
    pub kind: i32,
    pub body: Vec<u8>,
}

/// Little-endian encoding of a 32-bit signed value, via its bit pattern.
pub open spec fn spec_le32(x: i32) -> Seq<u8> {
    spec_u32_to_le_bytes(x as u32)
}

/// The full wire frame for one packet: length prefix covering everything
/// after itself, then id, type, body, and two zero bytes.
pub open spec fn spec_encode_packet(id: i32, kind: i32, body: Seq<u8>) -> Seq<u8> {
    spec_le32((body.len() + 10) as i32) + spec_le32(id) + spec_le32(kind) + body + seq![0u8, 0u8]
}

fn le32(x: i32) -> (r: Vec<u8>)
    ensures
        r@ == spec_le32(x),
        r@.len() == 4,
{
    u32_to_le_bytes(x as u32)
}

fn read_le32(b: &Vec<u8>, at: usize) -> (r: i32)
    requires
        at + 4 <= b@.len(),
    ensures
        r as u32 == spec_u32_from_le_bytes(b@.subrange(at as int, at + 4)),
{
    let n = b.len();
    let mut w: Vec<u8> = Vec::new();
    w.push(b[at]);
    w.push(b[at + 1]);
    w.push(b[at + 2]);
    w.push(b[at + 3]);
    proof {
        assert(w@ =~= b@.subrange(at as int, at + 4));
    }
    let x = u32_from_le_bytes(w.as_slice());
    proof {
        assert(((x as i32) as u32) == x) by (bit_vector);
    }
    x as i32
}

/// Encode one packet for the wire; see `spec_encode_packet`. The length
/// ceiling is a machine limit: the length prefix is a 32-bit signed value.
pub fn encode_packet(id: i32, kind: i32, body: &[u8]) -> (r: Vec<u8>)
    requires
        body@.len() + 10 <= i32::MAX,
    ensures
        r@ == spec_encode_packet(id, kind, body@),
{
    let blen = body.len();
    let mut out = le32((blen + 10) as i32);
    let mut idb = le32(id);
    let mut kindb = le32(kind);
    out.append(&mut idb);
    out.append(&mut kindb);
    out.extend_from_slice(body);
    proof {
        assert(out@ =~= spec_le32((body@.len() + 10) as i32) + spec_le32(id) + spec_le32(kind)
            + body@);
    }
    out.push(0);
    out.push(0);
    proof {
        assert(out@ =~= spec_encode_packet(id, kind, body@));
    }
    out
}

/// The value carried by a 4-byte length prefix.
pub open spec fn spec_prefix_value(b: Seq<u8>) -> i32 {
    spec_u32_from_le_bytes(b) as i32
}

/// Parse and validate the 4-byte length prefix. Returns the number of bytes
/// to read next; a value outside `MIN_PACKET_LEN ..= MAX_PACKET_LEN` is a
/// framing error.
pub fn parse_packet_length(b: &Vec<u8>) -> (r: Result<usize, RconError>)
    requires
        b@.len() == 4,
    ensures
        ({
            let v = spec_prefix_value(b@);
            match r {
                Ok(l) => MIN_PACKET_LEN <= v <= MAX_PACKET_LEN && l == v,
                Err(e) => !(MIN_PACKET_LEN <= v <= MAX_PACKET_LEN) && (e matches
                    RconError::InvalidLength(w) && w == v),
            }
        }),
{
    proof {
        assert(b@.subrange(0, 4) =~= b@);
    }
    let v = read_le32(b, 0);
    proof {
        assert(((v as u32) as i32) == v) by (bit_vector);
    }
    if 10 <= v && v <= 1048576 {
        Ok(v as usize)
    } else {
        Err(RconError::InvalidLength(v))
    }
}

/// Parse the payload that follows the length prefix: id, type, body, and
/// the two trailing zero bytes, which are dropped. Payloads shorter than
/// ten bytes are rejected.
pub fn parse_packet_payload(rest: &Vec<u8>) -> (r: Result<RconPacket, RconError>)
    ensures
        match r {
            Ok(p) => {
                &&& rest@.len() >= 10
                &&& p.id as u32 == spec_u32_from_le_bytes(rest@.subrange(0, 4))
                &&& p.kind as u32 == spec_u32_from_le_bytes(rest@.subrange(4, 8))
                &&& p.body@ == rest@.subrange(8, rest@.len() - 2)
            },
            Err(e) => rest@.len() < 10 && (e is ShortPacket),
        },
{
    let n = rest.len();
    if n < 10 {
        return Err(RconError::ShortPacket);
    }
    let id = read_le32(rest, 0);
    let kind = read_le32(rest, 4);
    let mut body: Vec<u8> = Vec::new();
    let end = n - 2;
    let mut i: usize = 8;
    while i < end
        invariant
            8 <= i <= end,
            end == rest@.len() - 2,
            rest@.len() >= 10,
            body@ =~= rest@.subrange(8, i as int),
        decreases end - i,
    {
        proof {
            assert(rest@.subrange(8, i + 1) =~= rest@.subrange(8, i as int).push(
                rest@[i as int],
            ));
        }
        body.push(rest[i]);
        i = i + 1;
    }
    Ok(RconPacket { id, kind, body })
}

/// Round trip: decoding the frame produced by `encode_packet` yields the
/// same id, type and body.
pub proof fn lemma_packet_round_trip(id: i32, kind: i32, body: Seq<u8>)
    requires
        body.len() + 10 <= i32::MAX,
    ensures
        ({
            let frame = spec_encode_packet(id, kind, body);
            let rest = frame.subrange(4, frame.len() as int);
            &&& frame.len() == body.len() + 14
            &&& spec_prefix_value(frame.subrange(0, 4)) == body.len() + 10
            &&& spec_u32_from_le_bytes(rest.subrange(0, 4)) == id as u32
            &&& spec_u32_from_le_bytes(rest.subrange(4, 8)) == kind as u32
            &&& rest.subrange(8, rest.len() - 2) == body
        }),
{
    let frame = spec_encode_packet(id, kind, body);
    let rest = frame.subrange(4, frame.len() as int);
    vstd::bytes::lemma_auto_spec_u32_to_from_le_bytes();
    assert(frame.subrange(0, 4) =~= spec_le32((body.len() + 10) as i32));
    assert(rest.subrange(0, 4) =~= spec_le32(id));
    assert(rest.subrange(4, 8) =~= spec_le32(kind));
    assert(rest.subrange(8, rest.len() - 2) =~= body);
    let v = (body.len() + 10) as i32;
    assert(spec_u32_from_le_bytes(spec_u32_to_le_bytes(v as u32)) == v as u32);
    assert((v as u32) as i32 == v) by (bit_vector);
    assert(v as int == body.len() + 10);
    assert(spec_u32_from_le_bytes(spec_u32_to_le_bytes(id as u32)) == id as u32);
    assert(spec_u32_from_le_bytes(spec_u32_to_le_bytes(kind as u32)) == kind as u32);
}

// ---------------------------------------------------------------------------
// Authentication handshake
// ---------------------------------------------------------------------------

/// What to do with one packet read while authenticating.
pub enum AuthStep {
    /// Not the authentication response; keep reading.
    Continue,
    /// The server rejected the credentials.
    Failed,
    /// Authentication confirmed; the connection is ready.
    Ready,
}

/// Decide on one packet read during the handshake: a command-type packet
/// with id `-1` means rejected credentials, one echoing our request id
/// completes the handshake, anything else is skipped.
pub fn auth_response_step(kind: i32, id: i32, auth_id: i32) -> (r: AuthStep)
    ensures
        kind == TYPE_COMMAND && id == -1 ==> r is Failed,
        kind == TYPE_COMMAND && id != -1 && id == auth_id ==> r is Ready,
        kind == TYPE_COMMAND && id != -1 && id != auth_id ==> r is Continue,
        kind != TYPE_COMMAND ==> r is Continue,
{
    if kind == TYPE_COMMAND {
        if id == -1 {
            AuthStep::Failed
        } else if id == auth_id {
            AuthStep::Ready
        } else {
            AuthStep::Continue
        }
    } else {
        AuthStep::Continue
    }
}

/// Whether a packet of this type contributes its body to the response text
/// being reassembled.
pub fn response_carries_payload(kind: i32) -> (r: bool)
    ensures
        r == (kind == TYPE_AUX || kind == TYPE_COMMAND),
{
    kind == TYPE_AUX || kind == TYPE_COMMAND
}

/// Whether a command may be sent at all.
pub fn command_fits(command: &str) -> (r: bool)
    ensures
        r == (command.spec_bytes().len() <= MAX_COMMAND_BYTES),
{
    let bytes = command.as_bytes();
    bytes.len() <= MAX_COMMAND_BYTES
}

// ---------------------------------------------------------------------------
// Connection lifecycle
// ---------------------------------------------------------------------------

/// The state of one command execution attempt: whether a live connection is
/// held, how many attempts were used, and the last error seen.
pub struct CommandSession {
    pub connected: bool,
    pub attempts: u8,
    pub last_error: Option<String>,
}

/// What the driver should do next for this command.
pub enum SessionAction {
    /// Open and authenticate a connection.
    Connect,
    /// Send the command on the live connection.
    Send,
    /// Both attempts are spent: surface the last error.
    GiveUp,
}

impl CommandSession {
    /// Start a command execution with or without a live connection.
    pub fn start(connected: bool) -> (r: CommandSession)
        ensures
            r.connected == connected,
            r.attempts == 0,
            r.last_error is None,
    {
        CommandSession { connected, attempts: 0, last_error: None }
    }

    /// The next step: give up after two attempts, otherwise connect first
    /// and send once connected.
    pub fn next_action(&self) -> (r: SessionAction)
        ensures
            self.attempts >= 2 ==> r is GiveUp,
            self.attempts < 2 && !self.connected ==> r is Connect,
            self.attempts < 2 && self.connected ==> r is Send,
    {
        if self.attempts >= 2 {
            SessionAction::GiveUp
        } else if !self.connected {
            SessionAction::Connect
        } else {
            SessionAction::Send
        }
    }

    /// A connection attempt succeeded.
    pub fn on_connect_ok(&mut self)
        ensures
            final(self).connected,
            final(self).attempts == old(self).attempts,
            final(self).last_error == old(self).last_error,
    {
        self.connected = true;
    }

    /// A connection attempt failed: the attempt is spent and the error kept.
    pub fn on_connect_err(&mut self, error: String)
        requires
            old(self).attempts < 2,
        ensures
            !final(self).connected,
            final(self).attempts == old(self).attempts + 1,
            final(self).last_error == Some(error),
    {
        self.connected = false;
        self.attempts = self.attempts + 1;
        self.last_error = Some(error);
    }

    /// Sending failed: the connection is dropped, the attempt spent, and
    /// the error kept.
    pub fn on_send_err(&mut self, error: String)
        requires
            old(self).attempts < 2,
        ensures
            !final(self).connected,
            final(self).attempts == old(self).attempts + 1,
            final(self).last_error == Some(error),
    {
        self.connected = false;
        self.attempts = self.attempts + 1;
        self.last_error = Some(error);
    }

    /// The error to surface when giving up.
    pub fn surface_error(self) -> (r: String)
        ensures
            self.last_error matches Some(e) ==> r == e,
    {
        match self.last_error {
            Some(e) => e,
            None => crate::text::chars_to_string(
                &vec!['u', 'n', 'k', 'n', 'o', 'w', 'n'],
            ),
        }
    }
}

} // verus!
