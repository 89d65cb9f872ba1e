//! Stretches of bytes behind their length.

use vstd::prelude::*;
use vstd::slice::slice_subrange;

use crate::bytes;

verus! {

/// A stretch of bytes behind its length in four bytes.
pub open spec fn frame_bytes(content: Seq<u8>) -> Seq<u8> {
    bytes::le_bytes(content.len(), 4) + content
}

/// The content of the frame at the start of `data`, if the whole frame is there.
pub open spec fn parse_frame(data: Seq<u8>) -> Option<Seq<u8>> {
    let end = 4 + bytes::u32_at(data, 0);
    if data.len() < 4 || data.len() < end {
        None
    } else {
        Some(data.subrange(4, end))
    }
}

/// Appends `content` in a frame.
pub fn push_frame(out: &mut Vec<u8>, content: &[u8])
    ensures
        final(out)@ == old(out)@ + frame_bytes(content@),
{
    let ghost before = out@;
    bytes::push_le(out, content.len() as u64, 4);
    bytes::push_bytes(out, content);
    assert(out@ =~= before + frame_bytes(content@));
}

/// The content of the frame at offset `at`, if the whole frame is there.
pub fn read_frame(data: &[u8], at: usize) -> (result: Option<&[u8]>)
    requires
        at <= data.len(),
    ensures
        match result {
            Some(content) => parse_frame(data@.skip(at as int)) == Some(content@) && at + 4
                + content@.len() <= data.len(),
            None => parse_frame(data@.skip(at as int)) is None,
        },
{
    let ghost rest = data@.skip(at as int);
    if data.len() - at < 4 {
        return None;
    }
    let len: u32 = bytes::read_u32(data, at);
    proof {
        assert(rest.subrange(0, 4) =~= data@.subrange(at as int, at + 4));
    }
    if ((data.len() - at - 4) as u64) < len as u64 {
        return None;
    }
    let start: usize = at + 4;
    let end: usize = start + len as usize;
    proof {
        assert(rest.subrange(4, 4 + len) =~= data@.subrange(start as int, end as int));
    }
    Some(slice_subrange(data, start, end))
}

/// A frame whose length fits in four bytes is read back as it was written, whatever follows it.
pub proof fn lemma_frame_is_read_back(content: Seq<u8>, rest: Seq<u8>)
    requires
        content.len() <= u32::MAX,
    ensures
        frame_bytes(content).len() == 4 + content.len(),
        parse_frame(frame_bytes(content) + rest) == Some(content),
{
    broadcast use bytes::lemma_le_bytes_len;

    let data = frame_bytes(content) + rest;
    bytes::lemma_u32_stored(data, 0, content.len() as u32);
    assert(data.subrange(4, 4 + content.len() as int) =~= content);
}

/// The bytes that a frame was read from are the bytes that it is written as.
pub proof fn lemma_read_frame_is_written_back(data: Seq<u8>)
    ensures
        parse_frame(data) matches Some(content) ==> {
            &&& 4 + content.len() <= data.len()
            &&& content.len() <= u32::MAX
            &&& frame_bytes(content) == data.take(4 + content.len() as int)
        },
{
    if let Some(content) = parse_frame(data) {
        bytes::lemma_u32_loaded(data, 0);
        assert(frame_bytes(content) =~= data.take(4 + content.len() as int));
    }
}

/// A frame that was cut short is not there.
pub proof fn lemma_cut_frame(content: Seq<u8>, len: int)
    requires
        content.len() <= u32::MAX,
        0 <= len < frame_bytes(content).len(),
    ensures
        parse_frame(frame_bytes(content).take(len)) is None,
{
    broadcast use bytes::lemma_le_bytes_len;

    let cut = frame_bytes(content).take(len);
    if len >= 4 {
        assert(cut.subrange(0, 4) =~= bytes::le_bytes(content.len(), 4));
        bytes::lemma_u32_stored(cut, 0, content.len() as u32);
    }
}

/// A frame starts with the four bytes of the length of its content, and the content follows.
pub proof fn law_frame_layout(content: Seq<u8>)
    ensures
        frame_bytes(content).len() == 4 + content.len(),
        frame_bytes(content).take(4) == bytes::le_bytes(content.len(), 4),
        frame_bytes(content).skip(4) == content,
{
    bytes::lemma_le_bytes_len(content.len(), 4);
    assert(frame_bytes(content).take(4) =~= bytes::le_bytes(content.len(), 4));
    assert(frame_bytes(content).skip(4) =~= content);
}

/// A frame is there if as many bytes follow its first four as these say, and its content is those.
pub proof fn law_frame_is_read(data: Seq<u8>)
    ensures
        data.len() < 4 ==> parse_frame(data) is None,
        data.len() >= 4 ==> {
            let len = data[0] + 0x100 * data[1] + 0x1_0000 * data[2] + 0x100_0000 * data[3];
            &&& parse_frame(data) is Some <==> data.len() >= 4 + len
            &&& parse_frame(data) matches Some(content) ==> content == data.skip(4).take(len)
        },
{
    if data.len() >= 4 {
        let len = bytes::u32_at(data, 0) as int;
        bytes::law_u32_at(data, 0);
        if data.len() >= 4 + len {
            assert(data.subrange(4, 4 + len) =~= data.skip(4).take(len));
        }
    }
}

} // verus!
