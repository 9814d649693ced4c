//! Keys and frames of the stage protocol.
//!
//! A message travels as a frame: its length in four bytes, the most significant first, and the
//! message behind them.

use vstd::prelude::*;

use crate::text::{decimal, decimal_of};

verus! {

/// The longest message that is read.
pub const MAX_FRAME: usize = 16 * 1024 * 1024;

/// What can be wrong with a frame.
#[derive(Debug, Clone, Copy, PartialEq, Eq, Structural)]
pub enum FrameError {
    /// The message is longer than [`MAX_FRAME`].
    TooLarge,
}

/// The key under which the providers of a stage are found.
pub fn stage_key(stage_id: usize) -> (key: String)
    ensures
        key@ == "hopper-stage-"@ + decimal_of(stage_id as nat),
{
    let mut key: String = "hopper-stage-".to_owned();
    key.append(decimal(stage_id as u64).as_str());
    key
}

/// The four bytes of a length, the most significant first.
pub open spec fn header_of(len: u32) -> Seq<u8> {
    seq![
        (len / 0x100_0000) as u8,
        (len / 0x1_0000 % 0x100) as u8,
        (len / 0x100 % 0x100) as u8,
        (len % 0x100) as u8,
    ]
}

/// The length that four bytes spell.
pub open spec fn length_of(header: Seq<u8>) -> nat {
    (header[0] * 0x100_0000 + header[1] * 0x1_0000 + header[2] * 0x100 + header[3]) as nat
}

/// The frame of a message.
pub open spec fn framed(message: Seq<u8>) -> Seq<u8> {
    header_of(message.len() as u32) + message
}

/// Length-prefixed framing of the stage protocol.
#[derive(Debug, Clone, Copy)]
pub struct StageCodec;

impl StageCodec {
    /// The frame of a message. The length is written modulo 2^32.
    pub fn frame(&self, message: &[u8]) -> (frame: Vec<u8>)
        ensures
            frame@ == framed(message@),
    {
        #[verifier::truncate]
        let len: u32 = message.len() as u32;
        let mut frame: Vec<u8> = Vec::new();
        frame.push((len / 0x100_0000) as u8);
        frame.push((len / 0x1_0000 % 0x100) as u8);
        frame.push((len / 0x100 % 0x100) as u8);
        frame.push((len % 0x100) as u8);
        assert(frame@ =~= header_of(len));
        let mut i: usize = 0;
        while i < message.len()
            invariant
                i <= message@.len(),
                frame@ == header_of(len) + message@.take(i as int),
            decreases message@.len() - i,
        {
            frame.push(message[i]);
            assert(frame@ =~= header_of(len) + message@.take(i + 1));
            i = i + 1;
        }
        assert(message@.take(i as int) =~= message@);
        frame
    }

    /// How many bytes follow a frame's header.
    pub fn frame_length(&self, header: [u8; 4]) -> (out: Result<usize, FrameError>)
        ensures
            out is Ok <==> length_of(header@) <= MAX_FRAME,
            out matches Ok(n) ==> n == length_of(header@),
            out matches Err(e) ==> e == FrameError::TooLarge,
    {
        let n: u32 = header[0] as u32 * 0x100_0000 + header[1] as u32 * 0x1_0000 + header[2] as u32
            * 0x100 + header[3] as u32;
        if n as usize > MAX_FRAME {
            Err(FrameError::TooLarge)
        } else {
            Ok(n as usize)
        }
    }
}

/// A message that is not too long comes out of its frame as it went in.
pub proof fn messages_survive_framing(message: Seq<u8>)
    requires
        message.len() <= MAX_FRAME,
    ensures
        length_of(framed(message).take(4)) == message.len(),
        framed(message).skip(4) == message,
{
    let len = message.len() as u32;
    assert(framed(message).take(4) =~= header_of(len));
    assert(framed(message).skip(4) =~= message);
}

/// The first four bytes of a frame are the length of its message, the most significant first.
pub proof fn frames_begin_with_their_length(message: Seq<u8>)
    requires
        message.len() <= u32::MAX,
    ensures
        framed(message).len() == 4 + message.len(),
        framed(message)[0] * 0x100_0000 + framed(message)[1] * 0x1_0000 + framed(message)[2] * 0x100
            + framed(message)[3] == message.len(),
        forall|i: int| 0 <= i < message.len() ==> framed(message)[4 + i] == #[trigger] message[i],
{
    let len = message.len() as u32;
    assert(framed(message)[0] == header_of(len)[0] && framed(message)[1] == header_of(len)[1]
        && framed(message)[2] == header_of(len)[2] && framed(message)[3] == header_of(len)[3]);
}

} // verus!
