//! The wire codec: pure translation between raw bytes and typed
//! [`Command`] / [`CommandResponse`] values.
//!
//! A request frame is a single opcode byte followed by a payload; a response
//! frame is a single status byte followed by a payload.  Keys and values are
//! UTF-8 text.  Decoding either yields a fully formed command or reports a
//! typed [`DecodeError`]; it never panics and never partially applies a
//! command.

use vstd::prelude::*;

verus! {

use vstd::seq_lib::*;
use vstd::slice::{slice_index_get, slice_subrange, slice_to_vec};
use vstd::string::StrSliceExecFns;
use vstd::utf8::{
    char_is_scalar, char_u32_cast, decode_utf8, encode_scalar, encode_utf8, has_width_1_encoding,
    has_width_2_encoding, has_width_3_encoding, leading_byte_width_1, valid_utf8,
};

/// Opcode for GET: retrieve the value stored under a key.
pub const GET: u8 = 48;

/// Opcode for SET: insert or overwrite the value stored under a key.
pub const SET: u8 = 49;

/// Opcode for DELETE: remove a key and report its previous value.
pub const DELETE: u8 = 50;

/// Opcode for EXISTS: report whether a key is present.
pub const EXISTS: u8 = 51;

/// Opcode for KEYS: list every key currently present.
pub const KEYS: u8 = 52;

/// The separator between the key and the value in a SET payload.
pub const SPACE: u8 = 32;

/// Status byte of a successful response; the payload carries the result.
pub const SUCCESS: u8 = 48;

/// Status byte of a response reporting a fault local to the request.
pub const INTERNAL_ERROR: u8 = 49;

/// Status byte of a response for GET or DELETE on an absent key.
pub const NOT_FOUND: u8 = 50;

/// A fully formed request, produced only by [`decode`].
#[derive(Debug, PartialEq, Eq)]
pub enum Command {
    Get(String),
    Put(String, String),
    Delete(String),
    Exists(String),
    Keys,
}

/// The mathematical value of a [`Command`]: the same shape over character
/// sequences.
pub enum CommandModel {
    Get(Seq<char>),
    Put(Seq<char>, Seq<char>),
    Delete(Seq<char>),
    Exists(Seq<char>),
    Keys,
}

impl View for Command {
    type V = CommandModel;

    open spec fn view(&self) -> CommandModel {
        match self {
            Command::Get(k) => CommandModel::Get(k@),
            Command::Put(k, v) => CommandModel::Put(k@, v@),
            Command::Delete(k) => CommandModel::Delete(k@),
            Command::Exists(k) => CommandModel::Exists(k@),
            Command::Keys => CommandModel::Keys,
        }
    }
}

/// Why a frame was rejected: an opcode outside the recognized set, or a
/// payload that does not fit the shape its opcode demands.
#[derive(Clone, Copy, PartialEq, Eq, Structural, Debug)]
pub enum DecodeError {
    /// The opcode byte is outside the recognized set.
    InvalidCommand,
    /// The payload is not valid UTF-8, is missing a required key, or (for
    /// SET) is missing the value or the separating space.
    MalformedFrame,
}

/// The outcome of dispatching a command, produced only by the dispatch step.
#[derive(Debug, PartialEq, Eq)]
pub enum CommandResponse {
    Success(Vec<u8>),
    InternalError(Vec<u8>),
    NotFound,
}

/// The mathematical value of a [`CommandResponse`].
pub enum ResponseModel {
    Success(Seq<u8>),
    InternalError(Seq<u8>),
    NotFound,
}

impl View for CommandResponse {
    type V = ResponseModel;

    open spec fn view(&self) -> ResponseModel {
        match self {
            CommandResponse::Success(p) => ResponseModel::Success(p@),
            CommandResponse::InternalError(p) => ResponseModel::InternalError(p@),
            CommandResponse::NotFound => ResponseModel::NotFound,
        }
    }
}

/// True when the byte is one of the recognized opcodes.
pub open spec fn spec_is_valid_command(command: u8) -> bool {
    GET <= command <= KEYS
}

/// Reports whether a byte is a recognized opcode.
pub fn is_valid_command(command: u8) -> (r: bool)
    ensures
        r == spec_is_valid_command(command),
{
    command >= GET && command <= KEYS
}

/// What decoding a single-key payload (GET, DELETE, EXISTS) yields: the
/// payload decoded as UTF-8, or a malformed-frame fault when it is empty or
/// not valid UTF-8.
pub open spec fn spec_decode_key(payload: Seq<u8>) -> Result<Seq<char>, DecodeError> {
    if payload.len() == 0 || !valid_utf8(payload) {
        Err(DecodeError::MalformedFrame)
    } else {
        Ok(decode_utf8(payload))
    }
}

/// What decoding a SET payload yields: the payload split at its first space
/// byte into a key and a value, each non-empty valid UTF-8; anything else is
/// a malformed-frame fault.  Only the first space splits, so a value may
/// itself contain spaces.  A space is a single byte in UTF-8 and never part
/// of another character's encoding, so splitting the bytes at the first
/// space byte agrees with splitting the decoded text at the first space.
pub open spec fn spec_decode_set(payload: Seq<u8>) -> Result<CommandModel, DecodeError> {
    match payload.index_of_first(SPACE) {
        None => Err(DecodeError::MalformedFrame),
        Some(i) => {
            let key = payload.subrange(0, i);
            let value = payload.subrange(i + 1, payload.len() as int);
            if key.len() == 0 || value.len() == 0 || !valid_utf8(key) || !valid_utf8(value) {
                Err(DecodeError::MalformedFrame)
            } else {
                Ok(CommandModel::Put(decode_utf8(key), decode_utf8(value)))
            }
        },
    }
}

/// What decoding a whole frame yields, for every frame of at least one byte.
pub open spec fn spec_decode(frame: Seq<u8>) -> Result<CommandModel, DecodeError>
    recommends
        frame.len() >= 1,
{
    let op = frame[0];
    let payload = frame.subrange(1, frame.len() as int);
    if op == GET {
        match spec_decode_key(payload) {
            Ok(k) => Ok(CommandModel::Get(k)),
            Err(e) => Err(e),
        }
    } else if op == SET {
        spec_decode_set(payload)
    } else if op == DELETE {
        match spec_decode_key(payload) {
            Ok(k) => Ok(CommandModel::Delete(k)),
            Err(e) => Err(e),
        }
    } else if op == EXISTS {
        match spec_decode_key(payload) {
            Ok(k) => Ok(CommandModel::Exists(k)),
            Err(e) => Err(e),
        }
    } else if op == KEYS {
        if payload.len() == 0 {
            Ok(CommandModel::Keys)
        } else {
            Err(DecodeError::MalformedFrame)
        }
    } else {
        Err(DecodeError::InvalidCommand)
    }
}

/// Relies on `std::str::from_utf8`: it returns `Ok` exactly when the bytes
/// are a valid UTF-8 encoding, and the resulting string is those bytes
/// decoded.
#[verifier::external_body]
fn utf8_to_string(bytes: &[u8]) -> (r: Option<String>)
    ensures
        r is Some <==> valid_utf8(bytes@),
        r matches Some(s) ==> s@ == decode_utf8(bytes@),
{
    match std::str::from_utf8(bytes) {
        Ok(s) => Some(s.to_string()),
        Err(_) => None,
    }
}

/// Decodes a single-key payload, reporting a malformed frame when it is
/// empty or not valid UTF-8.
fn decode_key(payload: &[u8]) -> (r: Result<String, DecodeError>)
    ensures
        match r {
            Ok(k) => spec_decode_key(payload@) == Ok::<Seq<char>, DecodeError>(k@),
            Err(e) => spec_decode_key(payload@) == Err::<Seq<char>, DecodeError>(e),
        },
{
    if payload.len() == 0 {
        return Err(DecodeError::MalformedFrame);
    }
    match utf8_to_string(payload) {
        Some(k) => Ok(k),
        None => Err(DecodeError::MalformedFrame),
    }
}

/// Finds the first space byte of the payload, the position where a SET
/// payload splits into key and value.
fn find_space(payload: &[u8]) -> (r: Option<usize>)
    ensures
        match r {
            Some(i) => {
                &&& i < payload@.len()
                &&& payload@[i as int] == SPACE
                &&& forall|j: int| 0 <= j < i ==> payload@[j] != SPACE
                &&& payload@.index_of_first(SPACE) == Some(i as int)
            },
            None => {
                &&& forall|j: int| 0 <= j < payload@.len() ==> payload@[j] != SPACE
                &&& payload@.index_of_first(SPACE) == None::<int>
            },
        },
{
    let n = payload.len();
    let mut i: usize = 0;
    while i < n
        invariant
            n == payload@.len(),
            i <= n,
            forall|j: int| 0 <= j < i ==> payload@[j] != SPACE,
        decreases n - i,
    {
        if *slice_index_get(payload, i) == SPACE {
            proof {
                payload@.index_of_first_ensures(SPACE);
            }
            return Some(i);
        }
        i += 1;
    }
    proof {
        payload@.index_of_first_ensures(SPACE);
    }
    None
}

/// Decodes a SET payload into its key and value.
fn decode_set(payload: &[u8]) -> (r: Result<Command, DecodeError>)
    ensures
        match r {
            Ok(c) => spec_decode_set(payload@) == Ok::<CommandModel, DecodeError>(c@),
            Err(e) => spec_decode_set(payload@) == Err::<CommandModel, DecodeError>(e),
        },
{
    let i = match find_space(payload) {
        None => {
            return Err(DecodeError::MalformedFrame);
        },
        Some(i) => i,
    };
    let n = payload.len();
    if i == 0 || i + 1 == n {
        return Err(DecodeError::MalformedFrame);
    }
    let key_bytes = slice_subrange(payload, 0, i);
    let value_bytes = slice_subrange(payload, i + 1, n);
    let key = match utf8_to_string(key_bytes) {
        None => {
            return Err(DecodeError::MalformedFrame);
        },
        Some(k) => k,
    };
    let value = match utf8_to_string(value_bytes) {
        None => {
            return Err(DecodeError::MalformedFrame);
        },
        Some(v) => v,
    };
    Ok(Command::Put(key, value))
}

/// Decodes one frame: the first `size` bytes of `buffer`, a read of at least
/// one byte.  Either a fully formed command comes back, or the typed fault
/// that the frame earns; nothing is partially applied.
pub fn decode(buffer: &[u8], size: usize) -> (r: Result<Command, DecodeError>)
    requires
        1 <= size <= buffer@.len(),
    ensures
        match r {
            Ok(c) => spec_decode(buffer@.take(size as int)) == Ok::<CommandModel, DecodeError>(c@),
            Err(e) => spec_decode(buffer@.take(size as int)) == Err::<CommandModel, DecodeError>(e),
        },
{
    let ghost frame = buffer@.take(size as int);
    let op = *slice_index_get(buffer, 0);
    let payload = slice_subrange(buffer, 1, size);
    proof {
        assert(frame[0] == op);
        assert(payload@ =~= frame.subrange(1, frame.len() as int));
    }
    if op == GET {
        match decode_key(payload) {
            Ok(k) => Ok(Command::Get(k)),
            Err(e) => Err(e),
        }
    } else if op == SET {
        decode_set(payload)
    } else if op == DELETE {
        match decode_key(payload) {
            Ok(k) => Ok(Command::Delete(k)),
            Err(e) => Err(e),
        }
    } else if op == EXISTS {
        match decode_key(payload) {
            Ok(k) => Ok(Command::Exists(k)),
            Err(e) => Err(e),
        }
    } else if op == KEYS {
        if size == 1 {
            Ok(Command::Keys)
        } else {
            Err(DecodeError::MalformedFrame)
        }
    } else {
        Err(DecodeError::InvalidCommand)
    }
}

/// What encoding a response yields: its status byte followed by its payload.
pub open spec fn spec_encode_response(r: ResponseModel) -> Seq<u8> {
    match r {
        ResponseModel::Success(p) => seq![SUCCESS] + p,
        ResponseModel::InternalError(p) => seq![INTERNAL_ERROR] + p,
        ResponseModel::NotFound => seq![NOT_FOUND],
    }
}

impl CommandResponse {
    /// Encodes the response for the wire: the status byte, then the payload.
    pub fn into_bytes(&self) -> (r: Vec<u8>)
        ensures
            r@ == spec_encode_response(self@),
    {
        match self {
            CommandResponse::Success(p) => {
                let mut bytes: Vec<u8> = Vec::new();
                bytes.push(SUCCESS);
                let mut tail = slice_to_vec(p.as_slice());
                bytes.append(&mut tail);
                proof {
                    assert(bytes@ =~= seq![SUCCESS] + p@);
                }
                bytes
            },
            CommandResponse::InternalError(p) => {
                let mut bytes: Vec<u8> = Vec::new();
                bytes.push(INTERNAL_ERROR);
                let mut tail = slice_to_vec(p.as_slice());
                bytes.append(&mut tail);
                proof {
                    assert(bytes@ =~= seq![INTERNAL_ERROR] + p@);
                }
                bytes
            },
            CommandResponse::NotFound => {
                let mut bytes: Vec<u8> = Vec::new();
                bytes.push(NOT_FOUND);
                proof {
                    assert(bytes@ =~= seq![NOT_FOUND]);
                }
                bytes
            },
        }
    }
}

/// What encoding a request yields: the opcode byte, then the key (and for
/// SET, a space and the value) as UTF-8 bytes.
pub open spec fn spec_encode_request(c: CommandModel) -> Seq<u8> {
    match c {
        CommandModel::Get(k) => seq![GET] + encode_utf8(k),
        CommandModel::Put(k, v) => seq![SET] + encode_utf8(k) + seq![SPACE] + encode_utf8(v),
        CommandModel::Delete(k) => seq![DELETE] + encode_utf8(k),
        CommandModel::Exists(k) => seq![EXISTS] + encode_utf8(k),
        CommandModel::Keys => seq![KEYS],
    }
}

/// Appends the UTF-8 bytes of a string to a byte vector.
fn push_str_bytes(out: &mut Vec<u8>, s: &String)
    ensures
        final(out)@ == old(out)@ + encode_utf8(s@),
{
    let mut tail = s.as_str().as_bytes_vec();
    out.append(&mut tail);
}

/// Encodes a command as a request frame, the inverse of [`decode`].
pub fn encode_request(c: &Command) -> (r: Vec<u8>)
    ensures
        r@ == spec_encode_request(c@),
{
    let mut out: Vec<u8> = Vec::new();
    match c {
        Command::Get(k) => {
            out.push(GET);
            push_str_bytes(&mut out, k);
            proof {
                assert(out@ =~= seq![GET] + encode_utf8(k@));
            }
        },
        Command::Put(k, v) => {
            out.push(SET);
            push_str_bytes(&mut out, k);
            out.push(SPACE);
            push_str_bytes(&mut out, v);
            proof {
                assert(out@ =~= seq![SET] + encode_utf8(k@) + seq![SPACE] + encode_utf8(v@));
            }
        },
        Command::Delete(k) => {
            out.push(DELETE);
            push_str_bytes(&mut out, k);
            proof {
                assert(out@ =~= seq![DELETE] + encode_utf8(k@));
            }
        },
        Command::Exists(k) => {
            out.push(EXISTS);
            push_str_bytes(&mut out, k);
            proof {
                assert(out@ =~= seq![EXISTS] + encode_utf8(k@));
            }
        },
        Command::Keys => {
            out.push(KEYS);
            proof {
                assert(out@ =~= seq![KEYS]);
            }
        },
    }
    out
}

/// True of the commands that [`encode_request`] can frame so that [`decode`]
/// recovers them: keys are non-empty, a SET value is non-empty, and a SET
/// key carries no space, since the first space is what splits the payload.
pub open spec fn wf_command(c: CommandModel) -> bool {
    match c {
        CommandModel::Get(k) => k.len() > 0,
        CommandModel::Put(k, v) => {
            &&& k.len() > 0
            &&& v.len() > 0
            &&& forall|i: int| 0 <= i < k.len() ==> k[i] != ' '
        },
        CommandModel::Delete(k) => k.len() > 0,
        CommandModel::Exists(k) => k.len() > 0,
        CommandModel::Keys => true,
    }
}

/// The UTF-8 encoding of a character other than the space is free of the
/// space byte.
proof fn lemma_encode_scalar_no_space(c: char)
    requires
        c != ' ',
    ensures
        forall|i: int|
            0 <= i < encode_scalar(c as u32).len() ==> #[trigger] encode_scalar(c as u32)[i] != SPACE,
{
    char_is_scalar(c);
    let s = c as u32;
    assert(' ' as u32 == 32);
    if s == 32 {
        char_u32_cast(c, s);
        char_u32_cast(' ', 32);
        assert(false);
    }
    if has_width_1_encoding(s) {
        assert(s & 0x7f == s) by (bit_vector)
            requires
                s <= 0x7f,
        ;
        assert(leading_byte_width_1(s) != SPACE);
    } else if has_width_2_encoding(s) {
        let x: u8 = ((s >> 6) & 0x1F) as u8;
        let y: u8 = (s & 0x3F) as u8;
        assert(0xC0u8 | x != 32u8) by (bit_vector);
        assert(0x80u8 | y != 32u8) by (bit_vector);
    } else if has_width_3_encoding(s) {
        let x: u8 = ((s >> 12) & 0x0F) as u8;
        let y: u8 = ((s >> 6) & 0x3F) as u8;
        let z: u8 = (s & 0x3F) as u8;
        assert(0xE0u8 | x != 32u8) by (bit_vector);
        assert(0x80u8 | y != 32u8) by (bit_vector);
        assert(0x80u8 | z != 32u8) by (bit_vector);
    } else {
        let w: u8 = ((s >> 18) & 0x7) as u8;
        let x: u8 = ((s >> 12) & 0x3F) as u8;
        let y: u8 = ((s >> 6) & 0x3F) as u8;
        let z: u8 = (s & 0x3F) as u8;
        assert(0xF0u8 | w != 32u8) by (bit_vector);
        assert(0x80u8 | x != 32u8) by (bit_vector);
        assert(0x80u8 | y != 32u8) by (bit_vector);
        assert(0x80u8 | z != 32u8) by (bit_vector);
    }
}

/// The UTF-8 encoding of a character sequence without spaces is free of the
/// space byte.
proof fn lemma_encode_utf8_no_space(chars: Seq<char>)
    requires
        forall|i: int| 0 <= i < chars.len() ==> chars[i] != ' ',
    ensures
        forall|i: int| 0 <= i < encode_utf8(chars).len() ==> #[trigger] encode_utf8(chars)[i] != SPACE,
    decreases chars.len(),
{
    if chars.len() > 0 {
        lemma_encode_scalar_no_space(chars[0]);
        lemma_encode_utf8_no_space(chars.drop_first());
        let head = encode_scalar(chars[0] as u32);
        let rest = encode_utf8(chars.drop_first());
        assert forall|i: int| 0 <= i < encode_utf8(chars).len() implies encode_utf8(chars)[i]
            != SPACE by {
            if i < head.len() {
                assert(encode_utf8(chars)[i] == head[i]);
            } else {
                assert(encode_utf8(chars)[i] == rest[i - head.len()]);
            }
        }
    }
}

/// The UTF-8 encoding of a non-empty character sequence is non-empty.
proof fn lemma_encode_utf8_nonempty(chars: Seq<char>)
    requires
        chars.len() > 0,
    ensures
        encode_utf8(chars).len() > 0,
{
    char_is_scalar(chars[0]);
    assert(encode_scalar(chars[0] as u32).len() > 0);
}

/// The round trip through the wire: decoding the frame that encodes a
/// well-formed command yields exactly that command.
pub proof fn lemma_decode_encode_request(c: CommandModel)
    requires
        wf_command(c),
    ensures
        spec_decode(spec_encode_request(c)) == Ok::<CommandModel, DecodeError>(c),
{
    broadcast use vstd::utf8::encode_utf8_valid_utf8, vstd::utf8::encode_utf8_decode_utf8;

    let frame = spec_encode_request(c);
    match c {
        CommandModel::Get(k) => {
            lemma_encode_utf8_nonempty(k);
            assert(frame.subrange(1, frame.len() as int) =~= encode_utf8(k));
        },
        CommandModel::Put(k, v) => {
            let ek = encode_utf8(k);
            let ev = encode_utf8(v);
            lemma_encode_utf8_nonempty(k);
            lemma_encode_utf8_nonempty(v);
            lemma_encode_utf8_no_space(k);
            let payload = frame.subrange(1, frame.len() as int);
            assert(payload =~= ek + seq![SPACE] + ev);
            assert(payload[ek.len() as int] == SPACE);
            payload.index_of_first_ensures(SPACE);
            match payload.index_of_first(SPACE) {
                None => {
                    assert(payload.contains(SPACE));
                },
                Some(i) => {
                    assert(payload[i] == SPACE);
                    if i < ek.len() {
                        assert(payload[i] == ek[i]);
                        assert(false);
                    }
                    if i > ek.len() {
                        assert(payload[ek.len() as int] != SPACE);
                        assert(false);
                    }
                    assert(payload.subrange(0, i) =~= ek);
                    assert(payload.subrange(i + 1, payload.len() as int) =~= ev);
                },
            }
        },
        CommandModel::Delete(k) => {
            lemma_encode_utf8_nonempty(k);
            assert(frame.subrange(1, frame.len() as int) =~= encode_utf8(k));
        },
        CommandModel::Exists(k) => {
            lemma_encode_utf8_nonempty(k);
            assert(frame.subrange(1, frame.len() as int) =~= encode_utf8(k));
        },
        CommandModel::Keys => {
            assert(frame.subrange(1, frame.len() as int) =~= Seq::<u8>::empty());
        },
    }
}

} // verus!
