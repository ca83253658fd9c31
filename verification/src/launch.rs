//! The fixed records a holder exchanges with the process that launched it:
//! the launch record, the launch results it reports, and the acknowledgement
//! of an instrumented child.
use crate::bytes::{le16, le32, nonzero, push_u16, push_u32, read_u16, read_u32, u16_le, u32_le};
use crate::session::machine::{sha256, spec_sha256};
use crate::wire::{put_wide, wide, WireError, WIDE_MAX};
use vstd::prelude::*;

verus! {

/// The nine bytes that open a launch record.
pub open spec fn launch_magic() -> Seq<u8> {
    seq![0x4du8, 0x4f, 0x4f, 0x52, 0x4c, 0x43, 0x48, 0x33, 0x01]
}

/// A launch record: 32 bytes, the magic, three zero bytes, a generation of
/// at least 2 and a nonzero 16-byte nonce; it names the generation.
pub open spec fn spec_decode_launch_record(s: Seq<u8>) -> Option<u32> {
    if s.len() == 32 && s.subrange(0, 9) == launch_magic() && s[9] == 0 && s[10] == 0 && s[11] == 0
        && u32_le(s.subrange(12, 16)) >= 2 && nonzero(s.subrange(16, 32)) {
        Some(u32_le(s.subrange(12, 16)))
    } else {
        None
    }
}

pub fn decode_launch_record(bytes: &[u8]) -> (r: Option<u32>)
    ensures
        r == spec_decode_launch_record(bytes@),
{
    if bytes.len() != 32 {
        return None;
    }
    let magic = bytes[0] == 0x4d && bytes[1] == 0x4f && bytes[2] == 0x4f && bytes[3] == 0x52 && bytes[4]
        == 0x4c && bytes[5] == 0x43 && bytes[6] == 0x48 && bytes[7] == 0x33 && bytes[8] == 0x01;
    proof {
        if magic {
            assert(bytes@.subrange(0, 9) =~= launch_magic());
        } else {
            assert(bytes@.subrange(0, 9) != launch_magic()) by {
                if bytes@.subrange(0, 9) == launch_magic() {
                    assert(bytes@.subrange(0, 9)[0] == bytes@[0]);
                    assert(bytes@.subrange(0, 9)[1] == bytes@[1]);
                    assert(bytes@.subrange(0, 9)[2] == bytes@[2]);
                    assert(bytes@.subrange(0, 9)[3] == bytes@[3]);
                    assert(bytes@.subrange(0, 9)[4] == bytes@[4]);
                    assert(bytes@.subrange(0, 9)[5] == bytes@[5]);
                    assert(bytes@.subrange(0, 9)[6] == bytes@[6]);
                    assert(bytes@.subrange(0, 9)[7] == bytes@[7]);
                    assert(bytes@.subrange(0, 9)[8] == bytes@[8]);
                }
            }
        }
    }
    let generation = read_u32(bytes, 12);
    if magic && bytes[9] == 0 && bytes[10] == 0 && bytes[11] == 0 && generation >= 2
        && crate::bytes::any_nonzero(&bytes[16..32]) {
        Some(generation)
    } else {
        None
    }
}

/// Every byte is a digit or a lowercase letter a to f.
pub open spec fn spec_lowercase_hex(s: Seq<u8>) -> bool {
    forall|i: int| 0 <= i < s.len() ==> (0x30 <= #[trigger] s[i] <= 0x39 || 0x61 <= s[i] <= 0x66)
}

pub fn lowercase_hex(bytes: &[u8]) -> (r: bool)
    ensures
        r == spec_lowercase_hex(bytes@),
{
    let mut i: usize = 0;
    while i < bytes.len()
        invariant
            i <= bytes@.len(),
            forall|j: int| 0 <= j < i ==> (0x30 <= #[trigger] bytes@[j] <= 0x39 || 0x61 <= bytes@[j]
                <= 0x66),
        decreases bytes.len() - i,
    {
        let b = bytes[i];
        if !((0x30 <= b && b <= 0x39) || (0x61 <= b && b <= 0x66)) {
            return false;
        }
        i = i + 1;
    }
    true
}

/// A launch result: a nonzero generation, and running (1) or ready (2)
/// with result 0, or failed (3) with a nonzero result.
pub open spec fn spec_valid_launch(state: u8, result: u16, generation: u32) -> bool {
    generation != 0 && (((state == 1 || state == 2) && result == 0) || (state == 3 && result != 0))
}

pub fn valid_launch(state: u8, result: u16, generation: u32) -> (r: bool)
    ensures
        r == spec_valid_launch(state, result, generation),
{
    generation != 0 && (((state == 1 || state == 2) && result == 0) || (state == 3 && result != 0))
}

/// The 12 bytes of a launch result.
pub open spec fn launch_result_layout(state: u8, result: u16, generation: u32) -> Seq<u8> {
    seq![0x4du8, 0x4f, 0x52, 0x52, 0x01, state] + le16(result) + le32(generation)
}

pub fn launch_result(state: u8, result: u16, generation: u32) -> (r: Option<[u8; 12]>)
    ensures
        r is Some <==> spec_valid_launch(state, result, generation),
        r matches Some(v) ==> v@ == launch_result_layout(state, result, generation),
{
    if !valid_launch(state, result, generation) {
        return None;
    }
    let mut out: Vec<u8> = Vec::new();
    out.push(0x4d);
    out.push(0x4f);
    out.push(0x52);
    out.push(0x52);
    out.push(0x01);
    out.push(state);
    push_u16(&mut out, result);
    push_u32(&mut out, generation);
    assert(out@ =~= launch_result_layout(state, result, generation));
    let bytes: [u8; 12] = [
        out[0],
        out[1],
        out[2],
        out[3],
        out[4],
        out[5],
        out[6],
        out[7],
        out[8],
        out[9],
        out[10],
        out[11],
    ];
    assert(bytes@ =~= out@);
    Some(bytes)
}

/// A launch result read back: 12 bytes with the magic and a valid state,
/// result and generation.
pub open spec fn spec_decode_launch_result(s: Seq<u8>) -> Option<(u8, u16, u32)> {
    if s.len() == 12 && s[0] == 0x4d && s[1] == 0x4f && s[2] == 0x52 && s[3] == 0x52 && s[4] == 0x01
        && spec_valid_launch(s[5], u16_le(s.subrange(6, 8)), u32_le(s.subrange(8, 12))) {
        Some((s[5], u16_le(s.subrange(6, 8)), u32_le(s.subrange(8, 12))))
    } else {
        None
    }
}

pub fn decode_launch_result(bytes: &[u8]) -> (r: Option<(u8, u16, u32)>)
    ensures
        r == spec_decode_launch_result(bytes@),
{
    if bytes.len() != 12 || !(bytes[0] == 0x4d && bytes[1] == 0x4f && bytes[2] == 0x52 && bytes[3]
        == 0x52 && bytes[4] == 0x01) {
        return None;
    }
    let state = bytes[5];
    let result = read_u16(bytes, 6);
    let generation = read_u32(bytes, 8);
    if valid_launch(state, result, generation) {
        Some((state, result, generation))
    } else {
        None
    }
}

/// Reading a launch result that was written gives it back.
pub proof fn lemma_launch_result_roundtrip(state: u8, result: u16, generation: u32)
    requires
        spec_valid_launch(state, result, generation),
    ensures
        spec_decode_launch_result(launch_result_layout(state, result, generation)) == Some(
            (state, result, generation),
        ),
{
    let s = launch_result_layout(state, result, generation);
    crate::bytes::lemma_le16(result);
    crate::bytes::lemma_le32(generation);
    assert(s.subrange(6, 8) =~= le16(result));
    assert(s.subrange(8, 12) =~= le32(generation));
}

/// Why waiting for a launch failed: the holder went away before reporting,
/// or reported something that is not a valid launch result in order.
#[derive(Clone, Copy, Debug, PartialEq, Eq, Structural)]
pub enum LaunchError {
    Failed,
    Invalid,
}

/// What the first launch result says: the holder adopted a generation and
/// is running, it already finished with a result, or it reported nonsense.
#[derive(Clone, Copy, Debug, PartialEq, Eq, Structural)]
pub enum FirstLaunch {
    Adopted(u32),
    Finished(u16, u32),
    Refused(LaunchError),
}

/// The first result read: running with result 0 adopts its generation; a
/// failure finishes; anything else, or a failed read, is an error.
pub fn first_launch(read: Result<(u8, u16, u32), LaunchError>) -> (r: FirstLaunch)
    ensures
        r == match read {
            Ok((1, 0, generation)) => FirstLaunch::Adopted(generation),
            Ok((3, result, generation)) => FirstLaunch::Finished(result, generation),
            Ok(_) => FirstLaunch::Refused(LaunchError::Invalid),
            Err(e) => FirstLaunch::Refused(e),
        },
{
    match read {
        Ok((1, 0, generation)) => FirstLaunch::Adopted(generation),
        Ok((3, result, generation)) => FirstLaunch::Finished(result, generation),
        Ok(_) => FirstLaunch::Refused(LaunchError::Invalid),
        Err(e) => FirstLaunch::Refused(e),
    }
}

/// The result after adoption: ready under the same generation succeeds; a
/// failure under it finishes with its result; a failed read still succeeds
/// when the session turns out to be published; anything else is an error.
pub fn second_launch(generation: u32, read: Result<(u8, u16, u32), LaunchError>, published: bool) -> (r:
    Result<(u16, u32), LaunchError>)
    ensures
        r == match read {
            Ok((2, 0, same)) if same == generation => Ok::<(u16, u32), LaunchError>((0u16, generation)),
            Ok((3, result, same)) if same == generation && result != 0 => Ok((result, generation)),
            Ok(_) => Err(LaunchError::Invalid),
            Err(e) => if published {
                Ok((0u16, generation))
            } else {
                Err(e)
            },
        },
{
    match read {
        Ok((2, 0, same)) if same == generation => Ok((0, generation)),
        Ok((3, result, same)) if same == generation && result != 0 => Ok((result, generation)),
        Ok(_) => Err(LaunchError::Invalid),
        Err(e) => if published {
            Ok((0, generation))
        } else {
            Err(e)
        },
    }
}

/// The 36 bytes an instrumented child acknowledges with.
pub open spec fn instrument_layout(generation: u32, pid: u32, nonce: Seq<u8>) -> Seq<u8> {
    seq![0x4du8, 0x4f, 0x4f, 0x52, 0x49, 0x4e, 0x53, 0x33, 1, 0, 0, 0] + le32(generation) + le32(pid)
        + nonce
}

/// Why an instrumentation acknowledgement could not be made or checked.
#[derive(Clone, Copy, Debug, PartialEq, Eq, Structural)]
pub enum InstrumentError {
    ZeroIdentity,
    Invalid,
}

pub fn instrument_ack(generation: u32, pid: u32, nonce: [u8; 16]) -> (r: Result<Vec<u8>, InstrumentError>)
    ensures
        generation == 0 || pid == 0 ==> r == Err::<Vec<u8>, InstrumentError>(
            InstrumentError::ZeroIdentity,
        ),
        generation != 0 && pid != 0 ==> (r matches Ok(v) && v@ == instrument_layout(
            generation,
            pid,
            nonce@,
        )),
{
    if generation == 0 || pid == 0 {
        return Err(InstrumentError::ZeroIdentity);
    }
    let mut out: Vec<u8> = Vec::new();
    out.push(0x4d);
    out.push(0x4f);
    out.push(0x4f);
    out.push(0x52);
    out.push(0x49);
    out.push(0x4e);
    out.push(0x53);
    out.push(0x33);
    out.push(1);
    out.push(0);
    out.push(0);
    out.push(0);
    push_u32(&mut out, generation);
    push_u32(&mut out, pid);
    crate::bytes::push_all(&mut out, &nonce);
    assert(out@ =~= instrument_layout(generation, pid, nonce@));
    Ok(out)
}

/// The acknowledgement must have ended the stream and be exactly the one the
/// child owes; a zero generation or pid cannot be acknowledged at all.
pub fn validate_instrument_ack(bytes: &[u8], eof: bool, generation: u32, pid: u32, nonce: [u8; 16]) -> (r:
    Result<(), InstrumentError>)
    ensures
        !eof ==> r == Err::<(), InstrumentError>(InstrumentError::Invalid),
        eof && (generation == 0 || pid == 0) ==> r == Err::<(), InstrumentError>(
            InstrumentError::ZeroIdentity,
        ),
        eof && generation != 0 && pid != 0 ==> (r is Ok <==> bytes@ == instrument_layout(
            generation,
            pid,
            nonce@,
        )),
        r is Err && eof && generation != 0 && pid != 0 ==> r == Err::<(), InstrumentError>(
            InstrumentError::Invalid,
        ),
{
    if !eof {
        return Err(InstrumentError::Invalid);
    }
    let expected = instrument_ack(generation, pid, nonce)?;
    if crate::bytes::same_bytes(bytes, expected.as_slice()) {
        Ok(())
    } else {
        Err(InstrumentError::Invalid)
    }
}


/// A lowercase hexadecimal digit.
pub open spec fn lower_digit(v: u8) -> u8 {
    if v < 10 {
        (0x30 + v) as u8
    } else {
        (0x57 + v) as u8
    }
}

/// Each byte as two lowercase hexadecimal digits.
pub open spec fn lower_hex_text(s: Seq<u8>) -> Seq<u8>
    decreases s.len(),
{
    if s.len() == 0 {
        Seq::empty()
    } else {
        lower_hex_text(s.drop_last()) + seq![lower_digit(s.last() / 16), lower_digit(s.last() % 16)]
    }
}

fn push_lower_hex(out: &mut Vec<u8>, bytes: &[u8])
    ensures
        final(out)@ == old(out)@ + lower_hex_text(bytes@),
{
    let ghost start = out@;
    let mut i: usize = 0;
    while i < bytes.len()
        invariant
            i <= bytes@.len(),
            out@ == start + lower_hex_text(bytes@.take(i as int)),
        decreases bytes.len() - i,
    {
        let b = bytes[i];
        let high = b / 16;
        let low = b % 16;
        out.push(if high < 10 { 0x30 + high } else { 0x57 + high });
        out.push(if low < 10 { 0x30 + low } else { 0x57 + low });
        proof {
            assert(bytes@.take(i + 1).drop_last() =~= bytes@.take(i as int));
            assert(bytes@.take(i + 1).last() == b);
        }
        i = i + 1;
        assert(out@ =~= start + lower_hex_text(bytes@.take(i as int)));
    }
    assert(bytes@.take(bytes@.len() as int) =~= bytes@);
}

/// The name of the staging file that binds an instrumented child to a
/// holder: the SHA-256 of the holder's identity (as a wide field), wire
/// generation and incarnation, in lowercase hexadecimal, then
/// `.instrument`.
pub open spec fn stage_name(identity: Seq<u8>, generation: u32, incarnation: Seq<u8>) -> Seq<u8> {
    lower_hex_text(spec_sha256(wide(identity) + le32(generation) + incarnation)) + seq![
        0x2eu8, 0x69, 0x6e, 0x73, 0x74, 0x72, 0x75, 0x6d, 0x65, 0x6e, 0x74
    ]
}

pub fn instrument_stage_name(identity: &[u8], generation: u32, incarnation: [u8; 16]) -> (r: Result<
    Vec<u8>,
    WireError,
>)
    ensures
        identity@.len() <= WIDE_MAX ==> (r matches Ok(v) && v@ == stage_name(identity@, generation, incarnation@)),
        identity@.len() > WIDE_MAX ==> r == Err::<Vec<u8>, WireError>(WireError::OversizedMessage),
{
    let mut bound: Vec<u8> = Vec::new();
    put_wide(&mut bound, identity)?;
    push_u32(&mut bound, generation);
    crate::bytes::push_all(&mut bound, &incarnation);
    let digest = sha256(bound.as_slice());
    let mut out: Vec<u8> = Vec::new();
    push_lower_hex(&mut out, &digest);
    let ghost hex = out@;
    out.push(0x2e);
    out.push(0x69);
    out.push(0x6e);
    out.push(0x73);
    out.push(0x74);
    out.push(0x72);
    out.push(0x75);
    out.push(0x6d);
    out.push(0x65);
    out.push(0x6e);
    out.push(0x74);
    proof {
        assert(bound@ =~= wide(identity@) + le32(generation) + incarnation@);
        assert(out@ =~= stage_name(identity@, generation, incarnation@));
    }
    Ok(out)
}

} // verus!
