//! The PNG container: recognising the signature and splitting the raw file
//! bytes into the IHDR, optional PLTE, IDAT and trailing regions. This
//! layer hands the compressed IDAT payload over as an opaque buffer;
//! filters, colour handling and checksums stay outside the codec.

use crate::gzip::subrange_vec;
use vstd::prelude::*;

verus! {

/// The eight signature bytes every PNG file starts with.
pub open spec fn spec_png_header() -> Seq<u8> {
    seq![137u8, 80u8, 78u8, 71u8, 13u8, 10u8, 26u8, 10u8]
}

/// Errors of the container layer.
#[derive(Debug, PartialEq)]
pub enum DecoderError {
    /// The file is not of the expected type; carries a description.
    TypeError(String),
    /// An I/O failure, carried as its message; raised only by callers that
    /// read files, never by the splitting logic itself.
    IoError(String),
    /// A walk past the end of the data; carries the offending end offset.
    NoMoreChunks(usize),
}

/// Takes in a byte buffer and checks for the PNG file signature.
pub fn is_png(bytes: Vec<u8>) -> (r: bool)
    ensures
        r == (bytes@.len() >= 8 && bytes@.subrange(0, 8) == spec_png_header()),
{
    if bytes.len() < 8 {
        return false;
    }
    let ok: bool = bytes[0] == 137 && bytes[1] == 80 && bytes[2] == 78 && bytes[3] == 71
        && bytes[4] == 13 && bytes[5] == 10 && bytes[6] == 26 && bytes[7] == 10;
    proof {
        if ok {
            assert(bytes@.subrange(0, 8) =~= spec_png_header());
        }
        if bytes@.subrange(0, 8) == spec_png_header() {
            assert forall|k: int| 0 <= k < 8 implies bytes@[k] == spec_png_header()[k] by {
                assert(bytes@.subrange(0, 8)[k] == bytes@[k]);
            }
            assert(bytes@[0] == 137 && bytes@[1] == 80 && bytes@[2] == 78 && bytes@[3] == 71
                && bytes@[4] == 13 && bytes@[5] == 10 && bytes@[6] == 26 && bytes@[7] == 10);
        }
    }
    ok
}

/// A whole PNG image: its roughly parsed data.
pub struct Png {
    /// The parsed file regions.
    pub data: PngData,
}

/// The roughly parsed regions of a PNG file: the raw bytes, the 13-byte
/// IHDR chunk, the optional PLTE chunk, the IDAT region holding the
/// compressed image data, the trailing bytes, and the walking cursor.
pub struct PngData {
    /// The whole file.
    pub raw_data: Vec<u8>,
    /// The IHDR chunk's bytes.
    pub ihdr: Vec<u8>,
    /// The PLTE chunk's bytes, when one was seen.
    pub plte: Option<Vec<u8>>,
    /// The IDAT region's bytes.
    pub idat: Vec<u8>,
    /// The bytes after the IDAT region.
    pub crc: Vec<u8>,
    /// The scanning cursor into `raw_data`.
    pub index: usize,
}

/// One step of the chunk scan: reading the four tag bytes at `i` moves the
/// cursor forward by one and records region boundaries relative to the
/// moved cursor — IHDR's fixed 13 bytes, PLTE's start, IDAT's start and
/// end (closing PLTE when one was open), and the trailer after IEND.
pub open spec fn spec_scan(
    raw: Seq<u8>,
    i: int,
    ihdr: (int, int),
    plte: (int, int),
    idat: (int, int),
    crc: (int, int),
) -> ((int, int), (int, int), (int, int), (int, int))
    decreases raw.len() - i,
{
    if i < 0 || i + 4 > raw.len() {
        (ihdr, plte, idat, crc)
    } else {
        let tag = raw.subrange(i, i + 4);
        let j = i + 1;
        if tag == seq![73u8, 72u8, 68u8, 82u8] {
            spec_scan(raw, j, (j + 4, j + 17), plte, idat, crc)
        } else if tag == seq![80u8, 76u8, 84u8, 69u8] {
            spec_scan(raw, j, ihdr, (j + 4, plte.1), idat, crc)
        } else if tag == seq![73u8, 68u8, 65u8, 84u8] {
            if idat == (0int, 0int) {
                if plte != (0int, 0int) {
                    spec_scan(raw, j, ihdr, (plte.0, j - 1), (j + 4, idat.1), crc)
                } else {
                    spec_scan(raw, j, ihdr, plte, (j + 4, idat.1), crc)
                }
            } else {
                spec_scan(raw, j, ihdr, plte, idat, crc)
            }
        } else if tag == seq![73u8, 69u8, 78u8, 68u8] {
            spec_scan(raw, j, ihdr, plte, (idat.0, j - 1), (j + 4, crc.1))
        } else {
            spec_scan(raw, j, ihdr, plte, idat, crc)
        }
    }
}

/// The chunk regions a full scan of the file finds, starting right after
/// the signature.
pub open spec fn spec_chunks(raw: Seq<u8>) -> ((int, int), (int, int), (int, int), (int, int)) {
    spec_scan(raw, 8, (0int, 0int), (0int, 0int), (0int, 0int), (0int, raw.len() as int))
}

/// The scanned regions are slices the file can actually yield: each one's
/// bounds are ordered and inside the file, with the palette region only
/// held to that when one was seen.
pub open spec fn spec_chunks_in_bounds(raw: Seq<u8>) -> bool {
    let c = spec_chunks(raw);
    &&& 0 <= c.0.0 <= c.0.1 <= raw.len()
    &&& (c.1 != (0int, 0int) ==> 0 <= c.1.0 <= c.1.1 <= raw.len())
    &&& 0 <= c.2.0 <= c.2.1 <= raw.len()
    &&& 0 <= c.3.0 <= c.3.1 <= raw.len()
}

/// Whether a four-byte chunk holds exactly this tag.
fn tag_is(chunk: &Vec<u8>, a: u8, b: u8, c: u8, d: u8) -> (r: bool)
    requires
        chunk@.len() == 4,
    ensures
        r == (chunk@ == seq![a, b, c, d]),
{
    let ok: bool = chunk[0] == a && chunk[1] == b && chunk[2] == c && chunk[3] == d;
    proof {
        if ok {
            assert(chunk@ =~= seq![a, b, c, d]);
        }
        if chunk@ == seq![a, b, c, d] {
            assert(chunk@[0] == a && chunk@[1] == b && chunk@[2] == c && chunk@[3] == d);
        }
    }
    ok
}

impl PngData {
    /// Hands out the `length` bytes at the cursor and moves the cursor
    /// forward by one, or reports `NoMoreChunks` past the end of the data.
    pub fn walk(&mut self, length: usize) -> (r: Result<Vec<u8>, DecoderError>)
        requires
            old(self).index + length <= usize::MAX,
            old(self).index < usize::MAX,
        ensures
            final(self).raw_data@ == old(self).raw_data@,
            final(self).ihdr@ == old(self).ihdr@,
            final(self).plte == old(self).plte,
            final(self).idat@ == old(self).idat@,
            final(self).crc@ == old(self).crc@,
            old(self).index + length > old(self).raw_data@.len() ==> {
                &&& r == Err::<Vec<u8>, DecoderError>(
                    DecoderError::NoMoreChunks((old(self).index + length) as usize),
                )
                &&& final(self).index == old(self).index
            },
            old(self).index + length <= old(self).raw_data@.len() ==> {
                &&& r matches Ok(chunk)
                &&& chunk@ == old(self).raw_data@.subrange(
                    old(self).index as int,
                    old(self).index + length,
                )
                &&& final(self).index == old(self).index + 1
            },
    {
        if length > self.raw_data.len() || self.index > self.raw_data.len() - length {
            return Err(DecoderError::NoMoreChunks(self.index + length));
        }
        let chunk: Vec<u8> = subrange_vec(&self.raw_data, self.index, self.index + length);
        self.index = self.index + 1;
        Ok(chunk)
    }

    /// Scans the file for the IHDR, PLTE, IDAT and IEND tags and reports
    /// the four regions' boundaries, exactly as the scan specification
    /// walks them.
    pub fn get_chunk_indexes(&mut self) -> (r: Result<[(usize, usize); 4], DecoderError>)
        requires
            old(self).raw_data@.len() <= usize::MAX - 20,
        ensures
            final(self).raw_data@ == old(self).raw_data@,
            final(self).ihdr@ == old(self).ihdr@,
            final(self).plte == old(self).plte,
            final(self).idat@ == old(self).idat@,
            final(self).crc@ == old(self).crc@,
            r matches Ok(arr) ==> {
                let sp = spec_scan(
                    old(self).raw_data@,
                    old(self).index as int,
                    (0int, 0int),
                    (0int, 0int),
                    (0int, 0int),
                    (0int, old(self).raw_data@.len() as int),
                );
                &&& (arr[0].0 as int, arr[0].1 as int) == sp.0
                &&& (arr[1].0 as int, arr[1].1 as int) == sp.1
                &&& (arr[2].0 as int, arr[2].1 as int) == sp.2
                &&& (arr[3].0 as int, arr[3].1 as int) == sp.3
            },
            r is Ok,
            final(self).index == (if old(self).raw_data@.len() >= 4 && old(self).index
                <= old(self).raw_data@.len() - 4 {
                old(self).raw_data@.len() - 3
            } else {
                old(self).index as int
            }),
    {
        let ghost raw0 = self.raw_data@;
        let ghost i0: int = self.index as int;
        let mut ihdr: (usize, usize) = (0, 0);
        let mut plte: (usize, usize) = (0, 0);
        let mut idat: (usize, usize) = (0, 0);
        let mut crc: (usize, usize) = (0, self.raw_data.len());
        while self.raw_data.len() >= 4 && self.index <= self.raw_data.len() - 4
            invariant
                self.raw_data@ == raw0,
                self.ihdr@ == old(self).ihdr@,
                self.plte == old(self).plte,
                self.idat@ == old(self).idat@,
                self.crc@ == old(self).crc@,
                raw0.len() <= usize::MAX - 20,
                i0 <= self.index,
                raw0.len() >= 4 && i0 <= raw0.len() - 4 ==> self.index <= raw0.len() - 3,
                raw0.len() >= 4 && i0 > raw0.len() - 4 ==> self.index == i0,
                raw0.len() < 4 ==> self.index == i0,
                spec_scan(raw0, i0, (0int, 0int), (0int, 0int), (0int, 0int), (0int, raw0.len() as int))
                    == spec_scan(
                    raw0,
                    self.index as int,
                    (ihdr.0 as int, ihdr.1 as int),
                    (plte.0 as int, plte.1 as int),
                    (idat.0 as int, idat.1 as int),
                    (crc.0 as int, crc.1 as int),
                ),
            decreases raw0.len() - self.index,
        {
            let ghost idx: int = self.index as int;
            let chunk: Vec<u8> = match self.walk(4) {
                Ok(v) => v,
                Err(_) => {
                    proof {
                        assert(false);
                    }
                    return Err(DecoderError::NoMoreChunks(0));
                },
            };
            proof {
                assert(chunk@ == raw0.subrange(idx, idx + 4));
            }
            if tag_is(&chunk, 73, 72, 68, 82) {
                ihdr = (self.index + 4, self.index + 17);
            } else if tag_is(&chunk, 80, 76, 84, 69) {
                plte = (self.index + 4, plte.1);
            } else if tag_is(&chunk, 73, 68, 65, 84) {
                if idat.0 == 0 && idat.1 == 0 {
                    if plte.0 != 0 || plte.1 != 0 {
                        plte = (plte.0, self.index - 1);
                        idat = (self.index + 4, idat.1);
                    } else {
                        idat = (self.index + 4, idat.1);
                    }
                }
            } else if tag_is(&chunk, 73, 69, 78, 68) {
                idat = (idat.0, self.index - 1);
                crc = (self.index + 4, crc.1);
            }
        }
        Ok([ihdr, plte, idat, crc])
    }

    /// Splits the raw PNG bytes into the IHDR, optional PLTE, IDAT and
    /// trailing regions, as the chunk scan locates them. Inputs whose scan
    /// yields regions outside the file are excluded up front: on them the
    /// slicing below has no meaning.
    pub fn build(raw_data: Vec<u8>) -> (r: Result<Self, DecoderError>)
        requires
            raw_data@.len() <= usize::MAX - 20,
            spec_chunks_in_bounds(raw_data@),
        ensures
            r matches Ok(d) ==> {
                let c = spec_chunks(raw_data@);
                &&& d.raw_data@ == raw_data@
                &&& d.ihdr@ == raw_data@.subrange(c.0.0, c.0.1)
                &&& (c.1 == (0int, 0int) ==> d.plte is None)
                &&& (c.1 != (0int, 0int) ==> (d.plte matches Some(p) && p@ == raw_data@.subrange(
                    c.1.0,
                    c.1.1,
                )))
                &&& d.idat@ == raw_data@.subrange(c.2.0, c.2.1)
                &&& d.crc@ == raw_data@.subrange(c.3.0, c.3.1)
            },
            r is Ok,
    {
        let mut data = PngData {
            raw_data,
            ihdr: Vec::new(),
            plte: None,
            idat: Vec::new(),
            crc: Vec::new(),
            index: 8,
        };
        let chunks: [(usize, usize); 4] = match data.get_chunk_indexes() {
            Ok(c) => c,
            Err(_) => {
                proof {
                    assert(false);
                }
                return Err(DecoderError::NoMoreChunks(0));
            },
        };
        data.ihdr = subrange_vec(&data.raw_data, chunks[0].0, chunks[0].1);
        if chunks[1].0 != 0 || chunks[1].1 != 0 {
            data.plte = Some(subrange_vec(&data.raw_data, chunks[1].0, chunks[1].1));
        }
        data.idat = subrange_vec(&data.raw_data, chunks[2].0, chunks[2].1);
        data.crc = subrange_vec(&data.raw_data, chunks[3].0, chunks[3].1);
        Ok(data)
    }

    /// Like `build`, but total: first scans the file and refuses, with
    /// `TypeError`, any input whose regions fall outside the file instead
    /// of requiring that up front.
    pub fn try_build(raw_data: Vec<u8>) -> (r: Result<Self, DecoderError>)
        requires
            raw_data@.len() <= usize::MAX - 20,
        ensures
            !spec_chunks_in_bounds(raw_data@) ==> (r matches Err(e) && e matches
                DecoderError::TypeError(_)),
            spec_chunks_in_bounds(raw_data@) ==> (r matches Ok(d) && {
                let c = spec_chunks(raw_data@);
                &&& d.raw_data@ == raw_data@
                &&& d.ihdr@ == raw_data@.subrange(c.0.0, c.0.1)
                &&& (c.1 == (0int, 0int) ==> d.plte is None)
                &&& (c.1 != (0int, 0int) ==> (d.plte matches Some(p) && p@ == raw_data@.subrange(
                    c.1.0,
                    c.1.1,
                )))
                &&& d.idat@ == raw_data@.subrange(c.2.0, c.2.1)
                &&& d.crc@ == raw_data@.subrange(c.3.0, c.3.1)
            }),
    {
        let n: usize = raw_data.len();
        let mut probe = PngData {
            raw_data,
            ihdr: Vec::new(),
            plte: None,
            idat: Vec::new(),
            crc: Vec::new(),
            index: 8,
        };
        let chunks: [(usize, usize); 4] = match probe.get_chunk_indexes() {
            Ok(c) => c,
            Err(_) => {
                proof {
                    assert(false);
                }
                return Err(DecoderError::NoMoreChunks(0));
            },
        };
        let ok: bool = chunks[0].0 <= chunks[0].1 && chunks[0].1 <= n && ((chunks[1].0 == 0
            && chunks[1].1 == 0) || (chunks[1].0 <= chunks[1].1 && chunks[1].1 <= n))
            && chunks[2].0 <= chunks[2].1 && chunks[2].1 <= n && chunks[3].0 <= chunks[3].1
            && chunks[3].1 <= n;
        if !ok {
            return Err(
                DecoderError::TypeError(
                    "chunk regions fall outside the file".to_owned(),
                ),
            );
        }
        Self::build(probe.raw_data)
    }
}

} // verus!
