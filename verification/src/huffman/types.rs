//! Header and container types of the compressed file format, with their byte
//! encodings, and filename helpers.

use vstd::prelude::*;
use vstd::string::{StrSliceExecFns, StringExecFns};

use crate::huffman::algorithm::{pair_entries, sort_codes, PrefixCodeTable};

verus! {

/// Some additional constant for additional validation, that we are reading
/// the right file type.
pub const FILE_CONST: u8 = 23;

/// File extension, file type specification.
pub open spec fn file_extension() -> Seq<char> {
    "cpd"@
}

/// The header of a compressed file.
///
/// Byte representation: one byte with the length `n` of an optional filename,
/// the filename, the prefix-code table's byte length as a little-endian
/// 16-bit value, the table's letter/code pairs, and the number of encoded
/// data bytes as a little-endian 32-bit value.
#[derive(Debug, PartialEq)]
pub struct Header {
    /// (Optional) specified filename.
    pub filename: String,
    /// The prefix code table.
    pub prefix_table: PrefixCodeTable,
    /// Number of bytes for the encoded data.
    pub data_bytes: u32,
}

impl Default for Header {
    /// An empty header: no filename, no table entries, no data.
    fn default() -> (r: Header)
        ensures
            r.filename@ == Seq::<char>::empty(),
            r.prefix_table.0@ == Seq::<crate::huffman::algorithm::PrefixCodeEntry>::empty(),
            r.data_bytes == 0,
    {
        Header { filename: String::new(), prefix_table: PrefixCodeTable(Vec::new()), data_bytes: 0 }
    }
}

/// The filename bytes of a header: its length, then its characters' low
/// bytes.
pub open spec fn name_bytes(name: Seq<char>) -> Seq<u8> {
    seq![name.len() as u8] + Seq::new(name.len(), |i: int| (name[i] as u32) as u8)
}

/// The table bytes of a header: the letter/code pairs.
pub open spec fn table_bytes(t: Seq<crate::huffman::algorithm::PrefixCodeEntry>) -> Seq<u8> {
    Seq::new(2 * t.len(), |j: int| if j % 2 == 0 {
        ((t[j / 2].letter as u32) as u8)
    } else {
        t[j / 2].code
    })
}

/// The whole byte representation of a header.
pub open spec fn header_bytes(h: Header) -> Seq<u8> {
    let tb = table_bytes(h.prefix_table.0@);
    name_bytes(h.filename@) + seq![(tb.len() as u16) as u8, ((tb.len() as u16) / 256) as u8] + tb
        + u32_le_bytes(h.data_bytes)
}

/// The little-endian bytes of a 32-bit value.
pub open spec fn u32_le_bytes(v: u32) -> Seq<u8> {
    seq![v as u8, (v / 0x100) as u8, (v / 0x10000) as u8, (v / 0x1000000) as u8]
}

impl Header {
    /// The byte representation of this header. The filename must fit one
    /// length byte; characters and table letters are taken modulo one byte,
    /// and a table longer than the 16-bit length field is taken modulo it.
    pub fn to_bytes(&self) -> (r: Vec<u8>)
        requires
            self.filename@.len() < 256,
        ensures
            r@ == header_bytes(*self),
    {
        let mut data: Vec<u8> = Vec::new();
        let name_len = self.filename.as_str().unicode_len();
        data.push(name_len as u8);
        let mut i: usize = 0;
        while i < name_len
            invariant
                i <= name_len,
                name_len == self.filename@.len(),
                name_len < 256,
                data@ =~= seq![name_len as u8] + Seq::new(
                    i as nat,
                    |j: int| (self.filename@[j] as u32) as u8,
                ),
            decreases name_len - i,
        {
            let c = self.filename.as_str().get_char(i);
            data.push((c as u32) as u8);
            proof {
                assert(data@ =~= seq![name_len as u8] + Seq::new(
                    (i + 1) as nat,
                    |j: int| (self.filename@[j] as u32) as u8,
                ));
            }
            i = i + 1;
        }
        proof {
            assert(data@ =~= name_bytes(self.filename@));
        }
        let mut table_data = self.prefix_table.to_bytes();
        let m = table_data.len() as u16;
        data.push(m as u8);
        data.push((m / 256) as u8);
        let ghost before_table = data@;
        let mut k: usize = 0;
        let tlen = table_data.len();
        while k < tlen
            invariant
                k <= tlen,
                tlen == table_data@.len(),
                table_data@.len() == table_bytes(self.prefix_table.0@).len(),
                forall|j: int| 0 <= j < table_data@.len() ==> table_data@[j] == table_bytes(
                    self.prefix_table.0@,
                )[j],
                data@ =~= before_table + table_data@.take(k as int),
            decreases tlen - k,
        {
            let b = table_data[k];
            data.push(b);
            proof {
                assert(data@ =~= before_table + table_data@.take(k + 1));
            }
            k = k + 1;
        }
        proof {
            assert(table_data@.take(tlen as int) =~= table_data@);
            assert(table_data@ =~= table_bytes(self.prefix_table.0@));
        }
        let be_bytes = self.data_bytes;
        data.push(be_bytes as u8);
        data.push((be_bytes / 0x100) as u8);
        data.push((be_bytes / 0x10000) as u8);
        data.push((be_bytes / 0x1000000) as u8);
        proof {
            assert(data@ =~= header_bytes(*self));
        }
        data
    }

    /// Reads a header back from its byte representation; the lengths it
    /// holds must lie inside the data.
    pub fn from_bytes(data: &[u8]) -> (r: Header)
        requires
            data@.len() >= 1,
            data@.len() >= data@[0] + 3,
            ({
                let n = data@[0] as int;
                let m = data@[n + 1] + 256 * data@[n + 2];
                &&& m % 2 == 0
                &&& data@.len() >= n + 3 + m + 4
            }),
        ensures
            r.filename@ == Seq::new(data@[0] as nat, |i: int| (data@[1 + i] as char)),
            ({
                let n = data@[0] as int;
                let m = data@[n + 1] + 256 * data@[n + 2];
                &&& r.prefix_table.0@ == sort_codes(
                    pair_entries(data@.subrange(n + 3, n + 3 + m)),
                )
                &&& r.data_bytes == data@[n + m + 3] + 0x100 * data@[n + m + 4] + 0x10000 * data@[n
                    + m + 5] + 0x1000000 * data@[n + m + 6]
            }),
    {
        let n = data[0] as usize;
        let mut filename = String::new();
        let mut i: usize = 0;
        while i < n
            invariant
                i <= n,
                n == data@[0] as int,
                data@.len() >= n + 3,
                filename@ =~= Seq::new(i as nat, |j: int| (data@[1 + j] as char)),
            decreases n - i,
        {
            crate::strutil::push_char(&mut filename, data[1 + i] as char);
            proof {
                assert(filename@ =~= Seq::new((i + 1) as nat, |j: int| (data@[1 + j] as char)));
            }
            i = i + 1;
        }
        let m = (data[n + 1] as usize) + 256 * (data[n + 2] as usize);
        let table_slice = slice_range(data, n + 3, n + m + 3);
        let prefix_table = PrefixCodeTable::from_bytes(table_slice);
        let idx = m + n + 3;
        let data_bytes = (data[idx] as u32) + 0x100 * (data[idx + 1] as u32) + 0x10000 * (data[idx
            + 2] as u32) + 0x1000000 * (data[idx + 3] as u32);
        Header { filename, prefix_table, data_bytes }
    }
}

/// The bytes of `data` from `from` (inclusive) to `to` (exclusive).
fn slice_range<'a>(data: &'a [u8], from: usize, to: usize) -> (r: &'a [u8])
    requires
        from <= to <= data@.len(),
    ensures
        r@ == data@.subrange(from as int, to as int),
{
    let r = vstd::slice::slice_subrange(data, from, to);
    r
}

/// Swaps a filename's type between `txt` and the compressed-file extension.
pub fn switch_file_type(name: &str) -> (r: String)
    requires
        name@.len() >= 3,
        name@.subrange(name@.len() - 3, name@.len() as int) == "txt"@ || name@.subrange(
            name@.len() - 3,
            name@.len() as int,
        ) == file_extension(),
    ensures
        r@ == name@.take(name@.len() - 3) + (if name@.subrange(
            name@.len() - 3,
            name@.len() as int,
        ) == "txt"@ {
            file_extension()
        } else {
            "txt"@
        }),
{
    let len = name.unicode_len();
    let stem = name.substring_char(0, len - 3);
    let ending = name.substring_char(len - 3, len);
    let mut oname = stem.to_owned();
    if crate::strutil::str_eq(ending, "txt") {
        oname.append("cpd");
        proof {
            assert(oname@ == name@.take(name@.len() - 3) + "cpd"@);
        }
    } else {
        oname.append("txt");
    }
    oname
}

/// Whether a filename carries the compressed-file extension.
pub fn check_filename(name: &str) -> (r: Result<(), String>)
    ensures
        r is Ok <==> (name@.len() >= 4 && name@.subrange(name@.len() - 4, name@.len() as int)
            == ".cpd"@),
        r is Err ==> (r->Err_0)@ == name@ + " does not end with .cpd"@,
{
    let len = name.unicode_len();
    let good = if len >= 4 {
        let ending = name.substring_char(len - 4, len);
        crate::strutil::str_eq(ending, ".cpd")
    } else {
        false
    };
    if good {
        Ok(())
    } else {
        let mut msg = name.to_owned();
        msg.append(" does not end with .cpd");
        Err(msg)
    }
}

/// A compressed file's content: the header, how many bits of the last data
/// byte are unused, and the encoded data.
#[derive(Debug, PartialEq)]
pub struct CompressedData {
    /// The header of the compressed file.
    pub header: Header,
    /// Unused bits in the last data byte.
    pub unused_bits: u8,
    /// The data of the compressed file.
    pub data: Vec<u8>,
}

impl CompressedData {
    /// The on-disk bytes: the file constant, the header length as a
    /// little-endian 32-bit value, the header, then the data. Refused when
    /// the header's count disagrees with the data length.
    pub fn to_file_bytes(&self) -> (r: Result<Vec<u8>, String>)
        requires
            self.header.filename@.len() < 256,
        ensures
            if self.data@.len() == self.header.data_bytes {
                r is Ok && (r->Ok_0)@ == seq![FILE_CONST] + u32_le_bytes(
                    header_bytes(self.header).len() as u32,
                ) + header_bytes(self.header) + self.data@
            } else {
                r is Err && (r->Err_0)@ == "header and data length disagree"@
            },
    {
        if self.data.len() != (self.header.data_bytes as usize) {
            return Err(String::from_str("header and data length disagree"));
        }
        let mut buffer: Vec<u8> = Vec::new();
        buffer.push(FILE_CONST);
        let hdr_data = self.header.to_bytes();
        let hdr_len = hdr_data.len() as u32;
        buffer.push(hdr_len as u8);
        buffer.push((hdr_len / 0x100) as u8);
        buffer.push((hdr_len / 0x10000) as u8);
        buffer.push((hdr_len / 0x1000000) as u8);
        let ghost with_len = buffer@;
        let mut k: usize = 0;
        let hn = hdr_data.len();
        while k < hn
            invariant
                k <= hn,
                hn == hdr_data@.len(),
                buffer@ =~= with_len + hdr_data@.take(k as int),
            decreases hn - k,
        {
            let b = hdr_data[k];
            buffer.push(b);
            proof {
                assert(buffer@ =~= with_len + hdr_data@.take(k + 1));
            }
            k = k + 1;
        }
        proof {
            assert(hdr_data@.take(hn as int) =~= hdr_data@);
        }
        let ghost with_hdr = buffer@;
        let mut j: usize = 0;
        let dn = self.data.len();
        while j < dn
            invariant
                j <= dn,
                dn == self.data@.len(),
                buffer@ =~= with_hdr + self.data@.take(j as int),
            decreases dn - j,
        {
            let b = self.data[j];
            buffer.push(b);
            proof {
                assert(buffer@ =~= with_hdr + self.data@.take(j + 1));
            }
            j = j + 1;
        }
        proof {
            assert(self.data@.take(dn as int) =~= self.data@);
            assert(buffer@ =~= seq![FILE_CONST] + u32_le_bytes(
                header_bytes(self.header).len() as u32,
            ) + header_bytes(self.header) + self.data@);
        }
        Ok(buffer)
    }
}

/// The little-endian 32-bit value at `i` in `data`.
pub open spec fn le32_at(data: Seq<u8>, i: int) -> int {
    data[i] + 0x100 * data[i + 1] + 0x10000 * data[i + 2] + 0x1000000 * data[i + 3]
}

/// Whether a byte image is a well-formed compressed file: the file constant,
/// a header that lies inside it with lengths that lie inside the header, and
/// exactly as many data bytes as the header announces.
pub open spec fn file_image_wf(data: Seq<u8>) -> bool {
    &&& data.len() >= 5
    &&& data[0] == FILE_CONST
    &&& ({
        let hl = le32_at(data, 1);
        &&& hl >= 1
        &&& data.len() >= 5 + hl
        &&& ({
            let h = data.subrange(5, 5 + hl);
            let n = h[0] as int;
            &&& h.len() >= n + 3
            &&& ({
                let m = h[n + 1] + 256 * h[n + 2];
                &&& m % 2 == 0
                &&& h.len() >= n + 3 + m + 4
                &&& data.len() - 5 - hl == le32_at(h, n + m + 3)
            })
        })
    })
}

impl CompressedData {
    /// Reads a compressed file's bytes back: the file constant is required,
    /// every length must lie inside the data, and the data must hold exactly
    /// as many bytes as the header announces. The byte format carries no
    /// unused-bit count, so it is read back as zero.
    pub fn from_file_bytes(data: &[u8]) -> (r: Result<CompressedData, String>)
        ensures
            r is Ok <==> file_image_wf(data@),
            r is Ok ==> ({
                let hl = le32_at(data@, 1);
                let h = data@.subrange(5, 5 + hl);
                let n = h[0] as int;
                let m = h[n + 1] + 256 * h[n + 2];
                &&& (r->Ok_0).header.filename@ == Seq::new(h[0] as nat, |i: int| (h[1 + i] as char))
                &&& (r->Ok_0).header.prefix_table.0@ == sort_codes(
                    pair_entries(h.subrange(n + 3, n + 3 + m)),
                )
                &&& (r->Ok_0).header.data_bytes == le32_at(h, n + m + 3)
                &&& (r->Ok_0).unused_bits == 0
                &&& (r->Ok_0).data@ == data@.subrange(5 + hl, data@.len() as int)
            }),
            r is Err ==> ((r->Err_0)@ == "no file constant detected, maybe another file type?"@
                || (r->Err_0)@ == "compressed file is broken"@),
    {
        let total = data.len();
        if total < 5 {
            return Err(String::from_str("compressed file is broken"));
        }
        if data[0] != FILE_CONST {
            return Err(String::from_str("no file constant detected, maybe another file type?"));
        }
        let hl_u32 = (data[1] as u32) + 0x100 * (data[2] as u32) + 0x10000 * (data[3] as u32)
            + 0x1000000 * (data[4] as u32);
        if hl_u32 == 0 {
            return Err(String::from_str("compressed file is broken"));
        }
        let avail = (total - 5) as u64;
        if avail < hl_u32 as u64 {
            return Err(String::from_str("compressed file is broken"));
        }
        let hl = hl_u32 as usize;
        let h = slice_range(data, 5, 5 + hl);
        let n = h[0] as usize;
        if h.len() < n + 3 {
            return Err(String::from_str("compressed file is broken"));
        }
        let m = (h[n + 1] as usize) + 256 * (h[n + 2] as usize);
        if m % 2 != 0 || h.len() < n + 3 + m + 4 {
            return Err(String::from_str("compressed file is broken"));
        }
        let header = Header::from_bytes(h);
        let rest = slice_range(data, 5 + hl, total);
        let rest_len = rest.len() as u64;
        if rest_len != header.data_bytes as u64 {
            return Err(String::from_str("compressed file is broken"));
        }
        let tail = vstd::slice::slice_to_vec(rest);
        proof {
            assert(tail@ =~= data@.subrange(5 + hl as int, data@.len() as int));
        }
        Ok(CompressedData { header, unused_bits: 0, data: tail })
    }
}

/// The compact header variant that leads with the file constant.
///
/// Byte representation: the file constant, one byte with the length `n` of an
/// optional filename, the filename, the table's byte length as a big-endian
/// 16-bit value, and the table's letter/code pairs.
#[derive(Debug, PartialEq)]
pub struct FileHeader {
    /// (Optional) specified filename.
    pub filename: String,
    /// The prefix code table.
    pub prefix_table: PrefixCodeTable,
}

/// The whole byte representation of a tagged header.
pub open spec fn file_header_bytes(h: FileHeader) -> Seq<u8> {
    let tb = table_bytes(h.prefix_table.0@);
    seq![FILE_CONST] + name_bytes(h.filename@) + seq![
        ((tb.len() as u16) / 256) as u8,
        (tb.len() as u16) as u8,
    ] + tb
}

impl FileHeader {
    /// The byte representation of this header; the filename length is taken
    /// modulo one byte, characters and letters modulo one byte too.
    pub fn to_bytes(&self) -> (r: Vec<u8>)
        requires
            self.filename@.len() < 256,
        ensures
            r@ == file_header_bytes(*self),
    {
        let mut data: Vec<u8> = Vec::new();
        data.push(FILE_CONST);
        let name_len = self.filename.as_str().unicode_len();
        data.push(name_len as u8);
        let mut i: usize = 0;
        while i < name_len
            invariant
                i <= name_len,
                name_len == self.filename@.len(),
                name_len < 256,
                data@ =~= seq![FILE_CONST, name_len as u8] + Seq::new(
                    i as nat,
                    |j: int| (self.filename@[j] as u32) as u8,
                ),
            decreases name_len - i,
        {
            let c = self.filename.as_str().get_char(i);
            data.push((c as u32) as u8);
            proof {
                assert(data@ =~= seq![FILE_CONST, name_len as u8] + Seq::new(
                    (i + 1) as nat,
                    |j: int| (self.filename@[j] as u32) as u8,
                ));
            }
            i = i + 1;
        }
        let mut table_data = self.prefix_table.to_bytes();
        let m = table_data.len() as u16;
        data.push((m / 256) as u8);
        data.push(m as u8);
        let ghost before_table = data@;
        let mut k: usize = 0;
        let tlen = table_data.len();
        while k < tlen
            invariant
                k <= tlen,
                tlen == table_data@.len(),
                table_data@.len() == table_bytes(self.prefix_table.0@).len(),
                forall|j: int| 0 <= j < table_data@.len() ==> table_data@[j] == table_bytes(
                    self.prefix_table.0@,
                )[j],
                data@ =~= before_table + table_data@.take(k as int),
            decreases tlen - k,
        {
            let b = table_data[k];
            data.push(b);
            proof {
                assert(data@ =~= before_table + table_data@.take(k + 1));
            }
            k = k + 1;
        }
        proof {
            assert(table_data@.take(tlen as int) =~= table_data@);
            assert(table_data@ =~= table_bytes(self.prefix_table.0@));
            assert(data@ =~= file_header_bytes(*self));
        }
        data
    }

    /// Reads a tagged header back from its bytes: refused when the file
    /// constant is missing; the lengths it holds must lie inside the data.
    pub fn try_from_bytes(data: &[u8]) -> (r: Result<FileHeader, ()>)
        requires
            data@.len() >= 1,
            data@[0] == FILE_CONST ==> {
                let n = data@[1] as int;
                &&& data@.len() >= n + 4
                &&& ({
                    let m = 256 * data@[n + 2] + data@[n + 3];
                    &&& m % 2 == 0
                    &&& data@.len() >= n + 4 + m
                })
            },
            data@.len() >= 2,
        ensures
            r is Ok <==> data@[0] == FILE_CONST,
            r is Ok ==> {
                let n = data@[1] as int;
                let m = 256 * data@[n + 2] + data@[n + 3];
                &&& (r->Ok_0).filename@ == Seq::new(n as nat, |i: int| (data@[2 + i] as char))
                &&& (r->Ok_0).prefix_table.0@ == sort_codes(
                    pair_entries(data@.subrange(n + 4, n + 4 + m)),
                )
            },
    {
        if data[0] != FILE_CONST {
            return Err(());
        }
        let n = data[1] as usize;
        let mut filename = String::new();
        let mut i: usize = 0;
        while i < n
            invariant
                i <= n,
                n == data@[1] as int,
                data@.len() >= n + 4,
                filename@ =~= Seq::new(i as nat, |j: int| (data@[2 + j] as char)),
            decreases n - i,
        {
            crate::strutil::push_char(&mut filename, data[2 + i] as char);
            proof {
                assert(filename@ =~= Seq::new((i + 1) as nat, |j: int| (data@[2 + j] as char)));
            }
            i = i + 1;
        }
        let m = 256 * (data[n + 2] as usize) + (data[n + 3] as usize);
        let table_slice = slice_range(data, n + 4, n + m + 4);
        let prefix_table = PrefixCodeTable::from_bytes(table_slice);
        Ok(FileHeader { filename, prefix_table })
    }
}

} // verus!
