//! What a supervisor and its workers say to each other: how it is framed, and
//! what a drawing job may ask for.

use crate::bytes::{copy_bytes, push_bytes, utf8};
use crate::pdf::{on_page, Region};
use crate::text::{among, chars_of, decimal_text, owned, push_decimal, push_str};
use vstd::bytes::{
    lemma_auto_spec_u32_to_from_le_bytes, spec_u32_from_le_bytes, spec_u32_to_le_bytes,
    u32_from_le_bytes, u32_to_le_bytes,
};
use vstd::prelude::*;
use vstd::slice::slice_subrange;

verus! {

/// Changed whenever the wire format is. A worker that does not answer with the
/// same version is not trusted.
pub const PROTOCOL_VERSION: u32 = 8;

/// The largest message.
pub const MAX_MESSAGE_BYTES: u32 = 83_886_080;

/// The largest attachment.
pub const MAX_ATTACHMENT_BYTES: u64 = 67_108_864;

/// The largest shared region.
pub const MAX_REGION_BYTES: u64 = 1_073_741_824;

/// Frames up to this size travel inside the response.
pub const INLINE_FRAME_BYTES: u64 = 8_388_608;

/// How many bytes of such frames one worker may owe at a time.
pub const MAX_INLINE_IN_FLIGHT_BYTES: u64 = 33_554_432;

/// Why a message could not be moved.
#[derive(Debug, Clone, PartialEq, Eq)]
pub enum ProtocolError {
    /// The other side is gone, in the middle of a message or between two.
    Closed,
    TooLarge { bytes: u32, limit: u32 },
    Malformed(String),
    Io(String),
}

/// Why a message could not be moved, as a value.
pub enum ProtocolFault {
    Closed,
    TooLarge(u32, u32),
    Malformed(Seq<char>),
    Io(Seq<char>),
}

impl View for ProtocolError {
    type V = ProtocolFault;

    open spec fn view(&self) -> ProtocolFault {
        match self {
            ProtocolError::Closed => ProtocolFault::Closed,
            ProtocolError::TooLarge { bytes, limit } => ProtocolFault::TooLarge(*bytes, *limit),
            ProtocolError::Malformed(reason) => ProtocolFault::Malformed(reason@),
            ProtocolError::Io(reason) => ProtocolFault::Io(reason@),
        }
    }
}

/// Names a request for its whole life.
#[derive(Debug, Clone, Copy, PartialEq, Eq, PartialOrd, Ord, Hash, Structural)]
pub struct RequestId(pub u64);

/// What is drawn first.
#[derive(Debug, Clone, Copy, PartialEq, Eq, PartialOrd, Ord, Hash, Structural)]
pub enum Priority {
    /// The page that the audience sees.
    Audience,
    /// The page that the presenter sees.
    Presenter,
    /// The next page.
    Next,
    /// The pages beside it.
    Adjacent,
    /// Notes and small pictures.
    Ancillary,
}

/// A page that a worker is to draw.
#[derive(Debug, Clone, PartialEq, Eq)]
pub struct RenderJob {
    pub id: RequestId,
    pub generation: u64,
    pub document: u64,
    pub page: usize,
    pub region: Region,
    pub width: u32,
    pub height: u32,
    pub priority: Priority,
    /// Are the document's own annotations drawn into the frame?
    pub with_annotations: bool,
    /// The shared region that the frame is written into.
    pub region_name: String,
}

/// How many bytes the frame of a job takes.
pub open spec fn frame_bytes(job: RenderJob) -> int {
    job.width * job.height * 4
}

/// Does the name of a region hold something that a path is made of?
pub open spec fn names_a_path(name: Seq<char>) -> bool {
    name.contains('/') || name.contains('\\') || name.contains('\0')
}

/// What is wrong with a job, if anything. A frame that travels in the response
/// needs no region, and its name is not looked at.
pub open spec fn job_fault(job: RenderJob) -> Option<Seq<char>> {
    if job.width == 0 || job.height == 0 {
        Some("zero-sized render"@)
    } else if frame_bytes(job) > MAX_REGION_BYTES {
        Some(
            "render "@ + decimal_text(job.width as nat) + "×"@ + decimal_text(job.height as nat)
                + " exceeds the shared-memory limit"@,
        )
    } else if !on_page(job.region) {
        Some("region outside the page"@)
    } else if frame_bytes(job) <= INLINE_FRAME_BYTES {
        None
    } else if job.region_name@.len() == 0 || utf8(job.region_name@).len() > 256 {
        Some("bad shared-memory name"@)
    } else if names_a_path(job.region_name@) {
        Some("shared-memory name must not contain path separators"@)
    } else {
        None
    }
}

/// Does a name hold something that a path is made of?
pub(crate) fn path_like(name: &str) -> (like: bool)
    ensures
        like == names_a_path(name@),
{
    let chars = chars_of(name);
    among(chars.as_slice(), '/') || among(chars.as_slice(), '\\') || among(chars.as_slice(), '\0')
}

impl RenderJob {
    /// How many bytes the frame takes.
    pub fn byte_len(&self) -> (bytes: u64)
        requires
            frame_bytes(*self) <= u64::MAX,
        ensures
            bytes == frame_bytes(*self),
    {
        assert(0 <= self.width * self.height) by (nonlinear_arith)
            requires
                0 <= self.width,
                0 <= self.height,
        ;
        self.width as u64 * self.height as u64 * 4
    }

    fn wide_len(&self) -> (bytes: u128)
        ensures
            bytes == frame_bytes(*self),
    {
        assert(0 <= self.width * self.height <= 0xffff_ffff * 0xffff_ffff) by (nonlinear_arith)
            requires
                0 <= self.width <= 0xffff_ffff,
                0 <= self.height <= 0xffff_ffff,
        ;
        self.width as u128 * self.height as u128 * 4
    }

    /// Does the frame travel inside the response? Both sides take this from the
    /// job, so that they cannot disagree.
    pub fn is_inline(&self) -> (inside: bool)
        ensures
            inside == (frame_bytes(*self) <= INLINE_FRAME_BYTES),
    {
        self.wide_len() <= INLINE_FRAME_BYTES as u128
    }

    /// Refuses what must not be drawn, before any memory is mapped.
    pub fn validate(&self) -> (checked: Result<(), ProtocolError>)
        ensures
            match checked {
                Ok(()) => job_fault(*self) is None,
                Err(error) => match job_fault(*self) {
                    Some(reason) => error@ == ProtocolFault::Malformed(reason),
                    None => false,
                },
            },
    {
        if self.width == 0 || self.height == 0 {
            return Err(ProtocolError::Malformed(owned("zero-sized render")));
        }
        if self.wide_len() > MAX_REGION_BYTES as u128 {
            let mut reason = owned("render ");
            push_decimal(&mut reason, self.width as u64);
            push_str(&mut reason, "×");
            push_decimal(&mut reason, self.height as u64);
            push_str(&mut reason, " exceeds the shared-memory limit");
            return Err(ProtocolError::Malformed(reason));
        }
        if !self.region.is_valid() {
            return Err(ProtocolError::Malformed(owned("region outside the page")));
        }
        if self.is_inline() {
            return Ok(());
        }
        let name = self.region_name.as_str();
        if chars_of(name).len() == 0 || name.as_bytes().len() > 256 {
            return Err(ProtocolError::Malformed(owned("bad shared-memory name")));
        }
        if path_like(name) {
            return Err(
                ProtocolError::Malformed(
                    owned("shared-memory name must not contain path separators"),
                ),
            );
        }
        Ok(())
    }
}

/// A job that is accepted asks for a frame that fits a region, and either needs
/// no region or names one that is no path.
pub proof fn law_accepted_jobs_are_safe(job: RenderJob)
    requires
        job_fault(job) is None,
    ensures
        0 < frame_bytes(job) <= MAX_REGION_BYTES,
        on_page(job.region),
        frame_bytes(job) <= INLINE_FRAME_BYTES || (0 < job.region_name@.len() && !names_a_path(
            job.region_name@,
        )),
{
    assert(job.width * job.height > 0) by (nonlinear_arith)
        requires
            job.width > 0,
            job.height > 0,
    ;
}

/// A message as it travels: how long it is, low byte first, and then its bytes.
pub open spec fn framed(payload: Seq<u8>) -> Seq<u8> {
    spec_u32_to_le_bytes(payload.len() as u32) + payload
}

/// What comes of reading a message from the start of these bytes: the message
/// and what is behind it, or why there is none.
pub open spec fn unframed(bytes: Seq<u8>) -> Result<(Seq<u8>, Seq<u8>), ProtocolFault> {
    if bytes.len() < 4 {
        Err(ProtocolFault::Closed)
    } else {
        let length = spec_u32_from_le_bytes(bytes.take(4));
        if length > MAX_MESSAGE_BYTES {
            Err(ProtocolFault::TooLarge(length, MAX_MESSAGE_BYTES))
        } else if bytes.len() - 4 < length {
            Err(ProtocolFault::Closed)
        } else {
            Ok((bytes.subrange(4, 4 + length as int), bytes.skip(4 + length as int)))
        }
    }
}

/// A length as far as the header of a message can tell it.
pub open spec fn counted(length: nat) -> u32 {
    if length > u32::MAX {
        u32::MAX
    } else {
        length as u32
    }
}

/// Frames a message, unless it is too large.
pub fn write_message(payload: &[u8]) -> (bytes: Result<Vec<u8>, ProtocolError>)
    ensures
        match bytes {
            Ok(out) => payload@.len() <= MAX_MESSAGE_BYTES && out@ == framed(payload@),
            Err(error) => payload@.len() > MAX_MESSAGE_BYTES && error@ == ProtocolFault::TooLarge(
                counted(payload@.len()),
                MAX_MESSAGE_BYTES,
            ),
        },
{
    let length: u32 = if payload.len() as u64 > u32::MAX as u64 {
        u32::MAX
    } else {
        payload.len() as u32
    };
    if length > MAX_MESSAGE_BYTES {
        return Err(ProtocolError::TooLarge { bytes: length, limit: MAX_MESSAGE_BYTES });
    }
    let mut out = u32_to_le_bytes(length);
    push_bytes(&mut out, payload);
    Ok(out)
}

/// How long the message is that these four bytes announce, unless it is too
/// long to be true. Nothing has been allocated for it yet.
pub fn announced_length(header: &[u8]) -> (length: Result<u32, ProtocolError>)
    requires
        header@.len() == 4,
    ensures
        match length {
            Ok(found) => found == spec_u32_from_le_bytes(header@) && found <= MAX_MESSAGE_BYTES,
            Err(error) => spec_u32_from_le_bytes(header@) > MAX_MESSAGE_BYTES && error@
                == ProtocolFault::TooLarge(spec_u32_from_le_bytes(header@), MAX_MESSAGE_BYTES),
        },
{
    let length: u32 = u32_from_le_bytes(header);
    if length > MAX_MESSAGE_BYTES {
        Err(ProtocolError::TooLarge { bytes: length, limit: MAX_MESSAGE_BYTES })
    } else {
        Ok(length)
    }
}

/// Reads a message from the start of these bytes; gives back what is behind it
/// too.
pub fn read_message(bytes: &[u8]) -> (read: Result<(Vec<u8>, Vec<u8>), ProtocolError>)
    ensures
        match read {
            Ok((payload, rest)) => unframed(bytes@) == Ok::<(Seq<u8>, Seq<u8>), ProtocolFault>(
                (payload@, rest@),
            ),
            Err(error) => unframed(bytes@) == Err::<(Seq<u8>, Seq<u8>), ProtocolFault>(error@),
        },
{
    let length: usize = bytes.len();
    if length < 4 {
        return Err(ProtocolError::Closed);
    }
    let header = slice_subrange(bytes, 0, 4);
    assert(header@ =~= bytes@.take(4));
    let announced: u32 = match announced_length(header) {
        Ok(announced) => announced,
        Err(error) => {
            return Err(error);
        },
    };
    if length - 4 < announced as usize {
        return Err(ProtocolError::Closed);
    }
    let end: usize = 4 + announced as usize;
    let payload = copy_bytes(slice_subrange(bytes, 4, end));
    let rest = copy_bytes(slice_subrange(bytes, end, length));
    assert(rest@ =~= bytes@.skip(end as int));
    Ok((payload, rest))
}

/// What is written is read back, whatever follows it.
pub proof fn law_messages_round_trip(payload: Seq<u8>, rest: Seq<u8>)
    requires
        payload.len() <= MAX_MESSAGE_BYTES,
    ensures
        unframed(framed(payload) + rest) == Ok::<(Seq<u8>, Seq<u8>), ProtocolFault>(
            (payload, rest),
        ),
{
    lemma_auto_spec_u32_to_from_le_bytes();
    let length = payload.len() as u32;
    let all = framed(payload) + rest;
    assert(all.take(4) =~= spec_u32_to_le_bytes(length));
    assert(all.subrange(4, 4 + length as int) =~= payload);
    assert(all.skip(4 + length as int) =~= rest);
}

/// No message that is cut short is taken for a whole one.
pub proof fn law_cut_messages_are_not_read(payload: Seq<u8>, n: int)
    requires
        payload.len() <= MAX_MESSAGE_BYTES,
        0 <= n < framed(payload).len(),
    ensures
        unframed(framed(payload).take(n)) == Err::<(Seq<u8>, Seq<u8>), ProtocolFault>(
            ProtocolFault::Closed,
        ),
{
    lemma_auto_spec_u32_to_from_le_bytes();
    let length = payload.len() as u32;
    let cut = framed(payload).take(n);
    if n >= 4 {
        assert(cut.take(4) =~= spec_u32_to_le_bytes(length));
    }
}

/// A job is accepted wherever its frame has a size and fits into a region, the part
/// that it asks for lies on the page, and the region that a large frame needs has a
/// name that leads nowhere.
pub proof fn law_safe_jobs_are_accepted(job: RenderJob)
    requires
        0 < frame_bytes(job) <= MAX_REGION_BYTES,
        on_page(job.region),
        frame_bytes(job) <= INLINE_FRAME_BYTES || (0 < job.region_name@.len() && utf8(
            job.region_name@,
        ).len() <= 256 && !names_a_path(job.region_name@)),
    ensures
        job_fault(job) is None,
{
    assert(job.width > 0 && job.height > 0) by (nonlinear_arith)
        requires
            job.width * job.height * 4 > 0,
    ;
}

} // verus!
