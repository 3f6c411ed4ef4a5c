//! WAV files, read for the sound essence they hold.
//!
//! A WAV file is a `RIFF` chunk of form `WAVE` holding further chunks. The
//! walk stops at the first `data` chunk, which must come after a `fmt `
//! chunk; plain and extensible PCM are taken, at 16 or 24 bits a sample.
//! Reads stop at the end of the data chunk or of the file, whichever comes
//! first.

use vstd::prelude::*;
use vstd::slice::slice_subrange;

use crate::bytes::{le16, le32, read_u16, read_u32};
use crate::error::{Error, Result};
use crate::text::{decimal, push_decimal, push_str};
use crate::write::invalid_media;

verus! {

/// A WAV file's format and samples.
#[derive(Debug, Clone)]
pub struct Wave<'a> {
    /// Channels a frame.
    pub channels: u16,
    /// Frames a second.
    pub sample_rate: u32,
    /// Bytes per sample.
    pub sample_width: u16,
    /// Bytes a frame takes, as the format chunk records it.
    pub block_align: u16,
    /// Frames the `data` chunk says it holds.
    pub frames: u64,
    data: &'a [u8],
    frame_size: usize,
    pos: usize,
}

/// What a WAV file reads as: channels, sample rate, sample width, block
/// alignment, frames, the samples there are, and the bytes of a frame.
pub type WaveView = (u16, u32, u16, u16, u64, Seq<u8>, nat);

/// `RIFF`.
pub open spec fn riff_id() -> Seq<u8> { seq![0x52u8, 0x49, 0x46, 0x46] }

/// `WAVE`.
pub open spec fn wave_id() -> Seq<u8> { seq![0x57u8, 0x41, 0x56, 0x45] }

/// `fmt `.
pub open spec fn fmt_id() -> Seq<u8> { seq![0x66u8, 0x6d, 0x74, 0x20] }

/// `data`.
pub open spec fn data_id() -> Seq<u8> { seq![0x64u8, 0x61, 0x74, 0x61] }

/// The size the chunk at the start of `region` declares.
pub open spec fn chunk_size(region: Seq<u8>) -> nat {
    le32(region, 4) as nat
}

/// The bytes of the chunk at the start of `region`, cut short where the
/// region ends.
pub open spec fn chunk_body(region: Seq<u8>) -> Seq<u8> {
    let size = chunk_size(region);
    let have = (region.len() - 8) as nat;
    region.subrange(8, 8 + (if size < have { size } else { have }) as int)
}

/// A format chunk's channels, sample rate, bytes a sample and block
/// alignment, or why it is refused.
pub open spec fn format_spec(body: Seq<u8>) -> core::result::Result<(u16, u32, u16, u16), Seq<char>> {
    if body.len() < 14 {
        Err("fmt chunk is too short"@)
    } else if le16(body, 0) != 1 && le16(body, 0) != 0xFFFE {
        Err("unknown format: "@ + decimal(le16(body, 0) as nat))
    } else if body.len() < 16 {
        Err("fmt chunk is too short"@)
    } else {
        let width = (le16(body, 14) + 7) / 8;
        if width != 2 && width != 3 {
            Err("unsupported sample width: "@ + decimal(width as nat))
        } else {
            Ok((le16(body, 2) as u16, le32(body, 4) as u32, width as u16, le16(body, 12) as u16))
        }
    }
}

/// The chunks of `region`, walked from its start with the format read so
/// far, up to the first `data` chunk.
pub open spec fn walk_spec(region: Seq<u8>, format: Option<(u16, u32, u16, u16)>)
    -> core::result::Result<WaveView, Seq<char>>
    decreases region.len(),
{
    if region.len() < 8 {
        Err("fmt chunk and/or data chunk missing"@)
    } else {
        let name = region.take(4);
        let size = chunk_size(region);
        let body = chunk_body(region);
        if name == fmt_id() && format_spec(body) is Err {
            Err(format_spec(body)->Err_0)
        } else if name == data_id() {
            match format {
                None => Err("data chunk before fmt chunk"@),
                Some((channels, rate, width, align)) => {
                    let frame_size = channels as nat * width as nat;
                    if frame_size == 0 {
                        Err("bad # of channels"@)
                    } else {
                        Ok((channels, rate, width, align, (size / frame_size) as u64, body, frame_size))
                    }
                },
            }
        } else {
            let next_format = if name == fmt_id() { Some(format_spec(body)->Ok_0) } else { format };
            let skip = 8 + size + size % 2;
            let next = if skip <= region.len() { region.skip(skip as int) } else { Seq::empty() };
            walk_spec(next, next_format)
        }
    }
}

/// What a WAV file reads as, or why it is refused.
pub open spec fn parse_spec(file: Seq<u8>) -> core::result::Result<WaveView, Seq<char>> {
    if file.len() < 8 || file.take(4) != riff_id() {
        Err("file does not start with RIFF id"@)
    } else {
        let body = chunk_body(file);
        if body.len() < 4 || body.take(4) != wave_id() {
            Err("not a WAVE file"@)
        } else {
            walk_spec(body.skip(4), None)
        }
    }
}

/// The error for media that is refused.
fn refused(reason: &str) -> (e: Error)
    ensures
        invalid_media(e, reason@),
{
    let mut text = String::new();
    push_str(&mut text, reason);
    assert(text@ =~= reason@);
    Error::InvalidMedia { reason: text }
}

/// Whether four bytes at the start of `s` are `id`.
fn named(s: &[u8], id: [u8; 4]) -> (r: bool)
    requires
        s@.len() >= 4,
    ensures
        r == (s@.take(4) == id@),
{
    let same = s[0] == id[0] && s[1] == id[1] && s[2] == id[2] && s[3] == id[3];
    if !same {
        assert(s@.take(4) != id@) by {
            if s[0] != id[0] { assert(s@.take(4)[0] != id@[0]); }
            else if s[1] != id[1] { assert(s@.take(4)[1] != id@[1]); }
            else if s[2] != id[2] { assert(s@.take(4)[2] != id@[2]); }
            else { assert(s@.take(4)[3] != id@[3]); }
        }
    } else {
        assert(s@.take(4) =~= id@);
    }
    same
}

/// The size the chunk at the start of `region` declares, and its bytes.
fn chunk(region: &[u8]) -> (r: (usize, &[u8]))
    requires
        region@.len() >= 8,
    ensures
        r.0 == chunk_size(region@),
        r.1@ == chunk_body(region@),
{
    let size = read_u32(region, 4) as usize;
    let have = region.len() - 8;
    let take = if size < have { size } else { have };
    (size, slice_subrange(region, 8, 8 + take))
}

impl<'a> Wave<'a> {
    /// The format and frame count.
    pub closed spec fn format_spec(&self) -> (u16, u32, u16, u16, u64) {
        (self.channels, self.sample_rate, self.sample_width, self.block_align, self.frames)
    }

    /// The samples there are.
    pub closed spec fn data_spec(&self) -> Seq<u8> {
        self.data@
    }

    /// Where the next read starts.
    pub closed spec fn pos_spec(&self) -> nat {
        self.pos as nat
    }

    /// The bytes of a frame.
    pub closed spec fn frame_size_spec(&self) -> nat {
        self.frame_size as nat
    }

    /// The next read starts within the samples, and a frame is not empty.
    pub open spec fn wf(&self) -> bool {
        self.pos_spec() <= self.data_spec().len() && self.frame_size_spec() > 0
    }

    /// A format chunk's channels, sample rate, bytes a sample and block
    /// alignment.
    fn format(body: &[u8]) -> (r: Result<(u16, u32, u16, u16)>)
        ensures
            match format_spec(body@) {
                Ok(f) => r == Ok::<(u16, u32, u16, u16), Error>(f),
                Err(m) => r matches Err(e) && invalid_media(e, m),
            },
    {
        if body.len() < 14 {
            return Err(refused("fmt chunk is too short"));
        }
        let tag = read_u16(body, 0);
        let channels = read_u16(body, 2);
        let rate = read_u32(body, 4);
        let align = read_u16(body, 12);
        if tag != 1 && tag != 0xFFFE {
            let mut reason = String::new();
            push_str(&mut reason, "unknown format: ");
            push_decimal(&mut reason, tag as u64);
            return Err(Error::InvalidMedia { reason });
        }
        if body.len() < 16 {
            return Err(refused("fmt chunk is too short"));
        }
        let bits = read_u16(body, 14);
        let sample_width: u16 = bits / 8 + if bits % 8 != 0 { 1u16 } else { 0u16 };
        assert(sample_width == (bits + 7) / 8);
        if sample_width != 2 && sample_width != 3 {
            let mut reason = String::new();
            push_str(&mut reason, "unsupported sample width: ");
            push_decimal(&mut reason, sample_width as u64);
            return Err(Error::InvalidMedia { reason });
        }
        Ok((channels, rate, sample_width, align))
    }

    /// Reads a WAV file's header.
    ///
    /// Fails, with the message Python's `wave` module gives, for a file that
    /// is not a WAV file, has no format or data chunk, or is in a format
    /// other than PCM at 16 or 24 bits a sample.
    pub fn parse(file: &'a [u8]) -> (r: Result<Self>)
        ensures
            match parse_spec(file@) {
                Ok(v) => r matches Ok(w) && w.wf() && w.pos_spec() == 0 && (w.format_spec().0, w.format_spec().1,
                    w.format_spec().2, w.format_spec().3, w.format_spec().4, w.data_spec(), w.frame_size_spec()) == v,
                Err(m) => r matches Err(e) && invalid_media(e, m),
            },
    {
        if file.len() < 8 || !named(file, [0x52u8, 0x49, 0x46, 0x46]) {
            return Err(refused("file does not start with RIFF id"));
        }
        let (_, riff) = chunk(file);
        if riff.len() < 4 || !named(riff, [0x57u8, 0x41, 0x56, 0x45]) {
            return Err(refused("not a WAVE file"));
        }
        let mut region = slice_subrange(riff, 4, riff.len());
        assert(region@ =~= riff@.skip(4));
        let mut format: Option<(u16, u32, u16, u16)> = None;
        while region.len() >= 8
            invariant
                walk_spec(region@, format) == parse_spec(file@),
            decreases region@.len(),
        {
            let (size, body) = chunk(region);
            let is_fmt = named(region, [0x66u8, 0x6d, 0x74, 0x20]);
            let is_data = named(region, [0x64u8, 0x61, 0x74, 0x61]);
            assert(seq![0x66u8, 0x6d, 0x74, 0x20] =~= fmt_id());
            assert(seq![0x64u8, 0x61, 0x74, 0x61] =~= data_id());
            if is_fmt {
                format = Some(Self::format(body)?);
            } else if is_data {
                let (channels, sample_rate, sample_width, block_align) = match format {
                    Some(f) => f,
                    None => { return Err(refused("data chunk before fmt chunk")); },
                };
                assert(channels as int * sample_width as int <= 0xFFFF * 0xFFFF) by (nonlinear_arith)
                    requires channels <= 0xFFFF, sample_width <= 0xFFFF;
                let frame_size = channels as usize * sample_width as usize;
                if frame_size == 0 {
                    return Err(refused("bad # of channels"));
                }
                return Ok(Self {
                    channels,
                    sample_rate,
                    sample_width,
                    block_align,
                    frames: (size / frame_size) as u64,
                    data: body,
                    frame_size,
                    pos: 0,
                });
            }
            let ghost prev = region@;
            let rest = region.len() - 8;
            if size > rest || size + size % 2 > rest {
                region = slice_subrange(region, 0, 0);
                assert(region@ =~= Seq::<u8>::empty());
            } else {
                region = slice_subrange(region, 8 + size + size % 2, region.len());
                assert(region@ =~= prev.skip(8 + size + size % 2));
            }
        }
        Err(refused("fmt chunk and/or data chunk missing"))
    }

    /// The next `frames` frames, or as many bytes as are left, a partial
    /// frame and all.
    pub fn read_frames(&mut self, frames: usize) -> (r: &'a [u8])
        requires
            old(self).wf(),
        ensures
            final(self).wf(),
            final(self).data_spec() == old(self).data_spec(),
            final(self).frame_size_spec() == old(self).frame_size_spec(),
            final(self).format_spec() == old(self).format_spec(),
            ({
                let want = old(self).pos_spec() + frames as nat * old(self).frame_size_spec();
                let end = if want < old(self).data_spec().len() { want } else { old(self).data_spec().len() };
                &&& r@ == old(self).data_spec().subrange(old(self).pos_spec() as int, end as int)
                &&& final(self).pos_spec() == end
            }),
    {
        let left = self.data.len() - self.pos;
        let end = if frames > left / self.frame_size {
            proof {
                assert(frames * self.frame_size >= left) by (nonlinear_arith)
                    requires frames > left / self.frame_size, self.frame_size > 0;
            }
            self.data.len()
        } else {
            proof {
                assert(frames * self.frame_size <= left) by (nonlinear_arith)
                    requires frames <= left / self.frame_size, self.frame_size > 0;
            }
            self.pos + frames * self.frame_size
        };
        let out = slice_subrange(self.data, self.pos, end);
        self.pos = end;
        out
    }
}

} // verus!
