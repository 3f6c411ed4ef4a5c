//! Raw DNxHD and DNxHR streams, read frame by frame.
//!
//! A raw stream is its frames one after another, each starting with a
//! 640-byte header that says which compression it is (its CID), how big the
//! picture is and at what bit depth. The header says how long the frame is;
//! the frames are embedded as they are, and the first one's header describes
//! the essence.

use vstd::prelude::*;
use vstd::slice::slice_subrange;

use crate::auid::Auid;
use crate::error::{Error, Result};
use crate::text::{decimal, hex_number, push_decimal, push_str, push_upper_hex_padded, upper_hex, zero_padded};
use crate::write::invalid_media;

verus! {

/// The size of a frame's header.
pub const HEADER_SIZE: usize = 640;

/// What a frame's header says.
#[derive(Debug, Clone, Copy, PartialEq, Eq)]
pub struct FrameHeader {
    /// The compression identifier.
    pub cid: u32,
    /// The picture's width.
    pub width: u16,
    /// The picture's height.
    pub height: u16,
    /// Bits a sample.
    pub bitdepth: u8,
    /// Whether the picture is interlaced.
    pub interlaced: bool,
}

/// The first five of a header's six prefix bytes as a big-endian number,
/// the sixth left out.
pub open spec fn prefix_of(h: Seq<u8>) -> u64 {
    (h[0] as int * 0x100_0000_0000 + h[1] as int * 0x1_0000_0000 + h[2] as int * 0x100_0000
        + h[3] as int * 0x1_0000 + h[4] as int * 0x100) as u64
}

/// Whether a prefix is DNxHD's, or one DNxHR allows: its data offset a
/// multiple of four from 0x280 to 0x2170.
pub open spec fn valid_prefix_spec(prefix: u64) -> bool {
    prefix == 0x0000_0280_0100 || {
        &&& prefix & 0xFFFF_0000_FFFF == 0x0300
        &&& prefix >> 16u64 >= 0x0280
        &&& prefix >> 16u64 <= 0x2170
        &&& (prefix >> 16u64) & 3 == 0
    }
}

/// A big-endian number of two bytes.
pub open spec fn be16(h: Seq<u8>, at: int) -> int {
    h[at] as int * 256 + h[at + 1] as int
}

/// A big-endian number of four bytes.
pub open spec fn be32(h: Seq<u8>, at: int) -> int {
    be16(h, at) * 0x1_0000 + be16(h, at + 2)
}

/// What a header says, or why it is refused.
pub open spec fn header_spec(h: Seq<u8>) -> core::result::Result<FrameHeader, Seq<char>> {
    if h.len() < 640 {
        Err("Invalid DNxHD frame: header to Short"@)
    } else if !valid_prefix_spec(prefix_of(h)) {
        Err("Invalid DNxHD frame: unknown prefix: 0x"@ + upper_hex(zero_padded(hex_number(prefix_of(h) as nat), 12)))
    } else {
        let code = h[33] / 32;
        if code < 1 || code > 3 {
            Err("Invalid DNxHD frame: unknown bitdepth: "@ + decimal(code as nat))
        } else if (h[44] / 64) % 2 != 0 {
            Err("444 not tested"@)
        } else {
            Ok(FrameHeader {
                cid: be32(h, 40) as u32,
                width: be16(h, 26) as u16,
                height: be16(h, 24) as u16,
                bitdepth: if code == 1 { 8u8 } else if code == 2 { 10u8 } else { 12u8 },
                interlaced: (h[5] / 2) % 2 != 0,
            })
        }
    }
}

/// The size of a DNxHD frame, by CID.
pub open spec fn dnxhd_size(cid: u32) -> Option<nat> {
    if cid == 1235 { Some(917_504) }
    else if cid == 1237 { Some(606_208) }
    else if cid == 1238 { Some(917_504) }
    else if cid == 1241 { Some(917_504) }
    else if cid == 1242 { Some(606_208) }
    else if cid == 1243 { Some(917_504) }
    else if cid == 1244 { Some(606_208) }
    else if cid == 1250 { Some(458_752) }
    else if cid == 1251 { Some(458_752) }
    else if cid == 1252 { Some(303_104) }
    else if cid == 1253 { Some(188_416) }
    else if cid == 1256 { Some(1_835_008) }
    else if cid == 1258 { Some(212_992) }
    else if cid == 1259 { Some(417_792) }
    else if cid == 1260 { Some(835_584) }
    else { None }
}

/// The compression of a DNxHR frame, by CID: how many 255ths of a byte
/// each 16-by-16 block of the picture takes.
pub open spec fn dnxhr_ratio(cid: u32) -> Option<nat> {
    if cid == 1270 { Some(57344) }
    else if cid == 1271 { Some(28672) }
    else if cid == 1272 { Some(28672) }
    else if cid == 1273 { Some(18944) }
    else if cid == 1274 { Some(5888) }
    else { None }
}

/// How long a frame with this header is, or why that is not known.
pub open spec fn frame_size_spec(h: FrameHeader) -> core::result::Result<nat, Seq<char>> {
    match dnxhd_size(h.cid) {
        Some(s) => Ok(s),
        None => match dnxhr_ratio(h.cid) {
            Some(num) => {
                let blocks = ((h.height as nat + 15) / 16) * ((h.width as nat + 15) / 16);
                let size = blocks * num / 255;
                let rounded = (size + 2048) / 4096 * 4096;
                Ok(if rounded < 8192 { 8192 } else { rounded })
            },
            None => Err("unknown DNx CID "@ + decimal(h.cid as nat)),
        },
    }
}

/// The CIDs a descriptor's `Compression` is known for.
pub open spec fn known_compression(cid: u32) -> bool {
    ||| 1235 <= cid <= 1238
    ||| 1241 <= cid <= 1244
    ||| 1250 <= cid <= 1253
    ||| 1256 <= cid <= 1260
    ||| 1270 <= cid <= 1274
}

/// The `Compression` identifier for a known CID, in text order:
/// `04010202-71xx-0000-060e-2b34040101yy`, with `xx` the CID less 1234 and
/// `yy` 0a for DNxHD and 0d for DNxHR.
pub open spec fn compression_bytes(cid: u32) -> Seq<u8> {
    seq![0x04u8, 0x01, 0x02, 0x02, 0x71, (cid - 1234) as u8, 0x00, 0x00, 0x06, 0x0e, 0x2b, 0x34, 0x04, 0x01, 0x01,
        if cid >= 1270 { 0x0du8 } else { 0x0au8 }]
}

/// What a frame header says, field by field, in the header's own bits: the
/// picture is interlaced where bit 1 of byte 5 is set; the height and width
/// are the big-endian shorts at bytes 24 and 26, the CID the big-endian word
/// at byte 40; the bit depth is 8, 10 or 12 as the top three bits of byte 33
/// are 1, 2 or 3.
pub proof fn lemma_header_fields(h: Seq<u8>)
    ensures
        header_spec(h) matches Ok(fh) ==> {
            &&& fh.interlaced == (h[5] & 2u8 != 0)
            &&& fh.height == (((h[24] as u16) << 8u16) | (h[25] as u16))
            &&& fh.width == (((h[26] as u16) << 8u16) | (h[27] as u16))
            &&& fh.cid == (((h[40] as u32) << 24u32) | ((h[41] as u32) << 16u32) | ((h[42] as u32) << 8u32) | (h[43] as u32))
            &&& (h[33] >> 5u8 == 1 ==> fh.bitdepth == 8)
            &&& (h[33] >> 5u8 == 2 ==> fh.bitdepth == 10)
            &&& (h[33] >> 5u8 == 3 ==> fh.bitdepth == 12)
            &&& 1 <= h[33] >> 5u8 <= 3
        },
{
    if header_spec(h) is Ok {
        let b5 = h[5];
        let b33 = h[33];
        assert(((b5 / 2) % 2 != 0) == (b5 & 2u8 != 0)) by (bit_vector);
        assert(b33 / 32 == b33 >> 5u8) by (bit_vector);
        let (a, b) = (h[24], h[25]);
        assert((a as u16) * 256 + (b as u16) == (((a as u16) << 8u16) | (b as u16))) by (bit_vector);
        let (c, e) = (h[26], h[27]);
        assert((c as u16) * 256 + (e as u16) == (((c as u16) << 8u16) | (e as u16))) by (bit_vector);
        let (w, x, y, z) = (h[40], h[41], h[42], h[43]);
        assert(((w as u32) * 256 + (x as u32)) * 0x1_0000 + (y as u32) * 256 + (z as u32)
            == (((w as u32) << 24u32) | ((x as u32) << 16u32) | ((y as u32) << 8u32) | (z as u32))) by (bit_vector);
    }
}

impl FrameHeader {
    /// The `Compression` identifier recorded for this frame's CID.
    ///
    /// Fails for a CID none is known for.
    pub fn compression(&self) -> (r: Result<Auid>)
        ensures
            known_compression(self.cid) ==> (r matches Ok(a) && a@ == crate::auid::guid_swap(compression_bytes(self.cid))),
            !known_compression(self.cid) ==> (r matches Err(e)
                && invalid_media(e, "no compression is known for DNx CID "@ + decimal(self.cid as nat))),
    {
        let cid = self.cid;
        let known = (1235 <= cid && cid <= 1238) || (1241 <= cid && cid <= 1244) || (1250 <= cid && cid <= 1253)
            || (1256 <= cid && cid <= 1260) || (1270 <= cid && cid <= 1274);
        if !known {
            let mut reason = String::new();
            push_str(&mut reason, "no compression is known for DNx CID ");
            push_decimal(&mut reason, cid as u64);
            return Err(Error::InvalidMedia { reason });
        }
        let last: u8 = if cid >= 1270 { 0x0d } else { 0x0a };
        let b = [0x04u8, 0x01, 0x02, 0x02, 0x71, (cid - 1234) as u8, 0x00, 0x00, 0x06, 0x0e, 0x2b, 0x34, 0x04, 0x01,
            0x01, last];
        assert(b@ =~= compression_bytes(cid));
        Ok(Auid::from_bytes_be(b))
    }
}

/// Whether a prefix is DNxHD's or one DNxHR allows.
pub fn valid_prefix(prefix: u64) -> (r: bool)
    ensures
        r == valid_prefix_spec(prefix),
{
    if prefix == 0x0000_0280_0100 {
        return true;
    }
    let data_offset = prefix >> 16u64;
    (prefix & 0xFFFF_0000_FFFF) == 0x0300 && data_offset >= 0x0280 && data_offset <= 0x2170 && (data_offset & 3) == 0
}

/// The error for a frame that is not DNx.
fn refused(reason: String) -> (e: Error)
    ensures
        invalid_media(e, reason@),
{
    Error::InvalidMedia { reason }
}

/// Reads a frame's header.
///
/// Fails for a header that is too short, has an unknown prefix or an
/// unknown bit depth, and for 4:4:4 sampling, which is refused as untested.
pub fn read_frame_header(header: &[u8]) -> (r: Result<FrameHeader>)
    ensures
        match header_spec(header@) {
            Ok(h) => r == Ok::<FrameHeader, Error>(h),
            Err(m) => r matches Err(e) && invalid_media(e, m),
        },
{
    if header.len() < HEADER_SIZE {
        let mut reason = String::new();
        push_str(&mut reason, "Invalid DNxHD frame: header to Short");
        return Err(refused(reason));
    }
    let prefix: u64 = header[0] as u64 * 0x100_0000_0000 + header[1] as u64 * 0x1_0000_0000
        + header[2] as u64 * 0x100_0000 + header[3] as u64 * 0x1_0000 + header[4] as u64 * 0x100;
    if !valid_prefix(prefix) {
        let mut reason = String::new();
        push_str(&mut reason, "Invalid DNxHD frame: unknown prefix: 0x");
        push_upper_hex_padded(&mut reason, prefix, 12);
        return Err(refused(reason));
    }
    let height = (header[24] as u16) * 256 + header[25] as u16;
    let width = (header[26] as u16) * 256 + header[27] as u16;
    let cid = ((header[40] as u32) * 256 + header[41] as u32) * 0x1_0000 + (header[42] as u32) * 256
        + header[43] as u32;
    let interlaced = (header[5] / 2) % 2 != 0;
    let code = header[33] / 32;
    let bitdepth: u8 = if code == 1 {
        8
    } else if code == 2 {
        10
    } else if code == 3 {
        12
    } else {
        let mut reason = String::new();
        push_str(&mut reason, "Invalid DNxHD frame: unknown bitdepth: ");
        push_decimal(&mut reason, code as u64);
        return Err(refused(reason));
    };
    if (header[44] / 64) % 2 != 0 {
        let mut reason = String::new();
        push_str(&mut reason, "444 not tested");
        return Err(refused(reason));
    }
    Ok(FrameHeader { cid, width, height, bitdepth, interlaced })
}

/// The size of a DNxHD frame, by CID.
fn dnxhd_size_of(cid: u32) -> (r: Option<usize>)
    ensures
        match dnxhd_size(cid) { Some(s) => r == Some(s as usize), None => r is None },
{
    if cid == 1235 { Some(917_504) }
    else if cid == 1237 { Some(606_208) }
    else if cid == 1238 { Some(917_504) }
    else if cid == 1241 { Some(917_504) }
    else if cid == 1242 { Some(606_208) }
    else if cid == 1243 { Some(917_504) }
    else if cid == 1244 { Some(606_208) }
    else if cid == 1250 { Some(458_752) }
    else if cid == 1251 { Some(458_752) }
    else if cid == 1252 { Some(303_104) }
    else if cid == 1253 { Some(188_416) }
    else if cid == 1256 { Some(1_835_008) }
    else if cid == 1258 { Some(212_992) }
    else if cid == 1259 { Some(417_792) }
    else if cid == 1260 { Some(835_584) }
    else { None }
}

/// The compression of a DNxHR frame, by CID.
fn dnxhr_ratio_of(cid: u32) -> (r: Option<u64>)
    ensures
        match dnxhr_ratio(cid) { Some(s) => r == Some(s as u64), None => r is None },
{
    if cid == 1270 { Some(57344) }
    else if cid == 1271 { Some(28672) }
    else if cid == 1272 { Some(28672) }
    else if cid == 1273 { Some(18944) }
    else if cid == 1274 { Some(5888) }
    else { None }
}

/// How long a frame of this CID and picture size is.
///
/// Fails for a CID whose frame size is not known.
pub fn frame_size(header: &FrameHeader) -> (r: Result<usize>)
    ensures
        match frame_size_spec(*header) {
            Ok(s) => r == Ok::<usize, Error>(s as usize) && s <= u32::MAX,
            Err(m) => r matches Err(e) && invalid_media(e, m),
        },
{
    if let Some(size) = dnxhd_size_of(header.cid) {
        return Ok(size);
    }
    let num = match dnxhr_ratio_of(header.cid) {
        Some(n) => n,
        None => {
            let mut reason = String::new();
            push_str(&mut reason, "unknown DNx CID ");
            push_decimal(&mut reason, header.cid as u64);
            return Err(refused(reason));
        },
    };
    let rows = (header.height as u64 + 15) / 16;
    let cols = (header.width as u64 + 15) / 16;
    assert(rows <= 4096 && cols <= 4096);
    assert(rows * cols <= 4096 * 4096) by (nonlinear_arith)
        requires rows <= 4096, cols <= 4096;
    let blocks = rows * cols;
    assert(blocks * num <= 4096 * 4096 * 57344) by (nonlinear_arith)
        requires blocks <= 4096 * 4096, num <= 57344;
    let size = blocks * num / 255;
    assert(size <= 4096 * 4096 * 57344 / 255);
    let rounded = (size + 2048) / 4096 * 4096;
    let out = if rounded < 8192 { 8192 } else { rounded };
    assert(out <= u32::MAX);
    Ok(out as usize)
}

/// The frames of a raw stream, read one at a time.
///
/// Each frame is its header and as much of the rest as the stream has; the
/// last may be short. The stream ends where less than a whole header is
/// left, and after a frame whose header is refused.
pub struct Frames<'a> {
    data: &'a [u8],
    pos: usize,
}

impl<'a> Frames<'a> {
    /// The bytes the frames are read from.
    pub closed spec fn data_spec(&self) -> Seq<u8> {
        self.data@
    }

    /// Where the next frame starts.
    pub closed spec fn pos_spec(&self) -> nat {
        self.pos as nat
    }

    /// The next frame starts within the bytes, or right after them.
    pub open spec fn wf(&self) -> bool {
        self.pos_spec() <= self.data_spec().len()
    }

    /// The frames of a stream, from its start.
    pub fn new(data: &'a [u8]) -> (r: Self)
        ensures
            r.wf(),
            r.data_spec() == data@,
            r.pos_spec() == 0,
    {
        Self { data, pos: 0 }
    }

    /// The next frame with its header, an error where its header is refused,
    /// or `None` where less than a header is left.
    pub fn next(&mut self) -> (r: Option<Result<(FrameHeader, &'a [u8])>>)
        requires
            old(self).wf(),
        ensures
            final(self).wf(),
            final(self).data_spec() == old(self).data_spec(),
            ({
                let d = old(self).data_spec();
                let rest = d.skip(old(self).pos_spec() as int);
                if rest.len() < 640 {
                    r is None && final(self).pos_spec() == old(self).pos_spec()
                } else {
                    match header_spec(rest.take(640)) {
                        Err(m) => r matches Some(Err(e)) && invalid_media(e, m) && final(self).pos_spec() == d.len(),
                        Ok(h) => match frame_size_spec(h) {
                            Err(m) => r matches Some(Err(e)) && invalid_media(e, m)
                                && final(self).pos_spec() == d.len(),
                            Ok(s) => {
                                let want = if s < 640 { 640 } else { s };
                                let n = if want < rest.len() { want } else { rest.len() };
                                r matches Some(Ok((hh, f))) && hh == h && f@ == rest.take(n as int)
                                    && final(self).pos_spec() == old(self).pos_spec() + n
                            },
                        },
                    }
                }
            }),
    {
        let len = self.data.len();
        if len - self.pos < HEADER_SIZE {
            return None;
        }
        let ghost rest = self.data@.skip(self.pos as int);
        let head = slice_subrange(self.data, self.pos, self.pos + HEADER_SIZE);
        assert(head@ =~= rest.take(640));
        let header = match read_frame_header(head) {
            Ok(h) => h,
            Err(e) => {
                self.pos = len;
                return Some(Err(e));
            },
        };
        let size = match frame_size(&header) {
            Ok(s) => if s < HEADER_SIZE { HEADER_SIZE } else { s },
            Err(e) => {
                self.pos = len;
                return Some(Err(e));
            },
        };
        let n = if size < len - self.pos { size } else { len - self.pos };
        let frame = slice_subrange(self.data, self.pos, self.pos + n);
        assert(frame@ =~= rest.take(n as int));
        self.pos = self.pos + n;
        Some(Ok((header, frame)))
    }
}

} // verus!
