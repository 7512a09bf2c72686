//! The SCSI-2 commands a mass-storage device needs: TEST UNIT READY,
//! INQUIRY, READ CAPACITY(10), READ(10), WRITE(10) and REQUEST SENSE.
//!
//! Command descriptor blocks carry their multi-byte fields big-endian,
//! unlike the little-endian CBW/CSW wrappers around them.

use vstd::prelude::*;

use crate::bot::BulkOnlyTransportCommandBlock;
use crate::util::copy_range;
use crate::endian::{
    get_u32_be, put_u16_be, put_u32_be, u16_be_bytes, u32_be_bytes, u32_from_be,
};

verus! {

/// Blank bytes stripped from the ends of INQUIRY text fields.
pub open spec fn is_blank(b: u8) -> bool {
    b == 0x20 || b == 0x09 || b == 0x0a || b == 0x0d
}

/// The sequence with leading blanks removed.
pub open spec fn trim_front(s: Seq<u8>) -> Seq<u8>
    decreases s.len(),
{
    if s.len() > 0 && is_blank(s[0]) {
        trim_front(s.drop_first())
    } else {
        s
    }
}

/// The sequence with trailing blanks removed.
pub open spec fn trim_back(s: Seq<u8>) -> Seq<u8>
    decreases s.len(),
{
    if s.len() > 0 && is_blank(s.last()) {
        trim_back(s.drop_last())
    } else {
        s
    }
}

/// The sequence with blanks removed from both ends.
pub open spec fn trim_blanks(s: Seq<u8>) -> Seq<u8> {
    trim_back(trim_front(s))
}

/// A byte kept as itself when ASCII, else replaced by `?`.
pub open spec fn ascii_or_question(b: u8) -> u8 {
    if b < 0x80 {
        b
    } else {
        0x3fu8
    }
}

/// Each byte of the sequence forced into the ASCII range.
pub open spec fn ascii_bytes(s: Seq<u8>) -> Seq<u8> {
    Seq::new(s.len(), |i: int| ascii_or_question(s[i]))
}

/// The characters denoted by a sequence of ASCII bytes.
pub open spec fn chars_of_ascii(s: Seq<u8>) -> Seq<char> {
    Seq::new(s.len(), |i: int| s[i] as char)
}

/// The text of an INQUIRY string field: trimmed of blanks, with any
/// non-ASCII byte shown as `?`.
pub open spec fn inquiry_text(s: Seq<u8>) -> Seq<char> {
    chars_of_ascii(ascii_bytes(trim_blanks(s)))
}

/// Removes blanks from both ends of the bytes.
fn trim_bytes(v: &Vec<u8>) -> (r: Vec<u8>)
    ensures
        r@ == trim_blanks(v@),
{
    let len = v.len();
    let mut lo: usize = 0;
    proof {
        assert(v@.subrange(0, len as int) =~= v@);
    }
    while lo < len && (v[lo] == 0x20 || v[lo] == 0x09 || v[lo] == 0x0a || v[lo] == 0x0d)
        invariant
            lo <= len == v@.len(),
            trim_front(v@) == trim_front(v@.subrange(lo as int, len as int)),
        decreases len - lo,
    {
        proof {
            assert(v@.subrange(lo as int, len as int).drop_first() =~= v@.subrange(
                lo + 1,
                len as int,
            ));
        }
        lo = lo + 1;
    }
    proof {
        assert(v@.subrange(0, len as int) =~= v@);
        assert(trim_front(v@) == v@.subrange(lo as int, len as int));
    }
    let mut hi: usize = len;
    while hi > lo && (v[hi - 1] == 0x20 || v[hi - 1] == 0x09 || v[hi - 1] == 0x0a || v[hi - 1]
        == 0x0d)
        invariant
            lo <= hi <= len == v@.len(),
            trim_front(v@) == v@.subrange(lo as int, len as int),
            trim_back(v@.subrange(lo as int, len as int)) == trim_back(
                v@.subrange(lo as int, hi as int),
            ),
        decreases hi,
    {
        proof {
            assert(v@.subrange(lo as int, hi as int).drop_last() =~= v@.subrange(
                lo as int,
                hi - 1,
            ));
        }
        hi = hi - 1;
    }
    proof {
        assert(trim_blanks(v@) == v@.subrange(lo as int, hi as int));
    }
    copy_range(v, lo, hi)
}

/// Forces every byte into the ASCII range.
fn to_ascii_bytes(v: &Vec<u8>) -> (r: Vec<u8>)
    ensures
        r@ == ascii_bytes(v@),
        forall|i: int| 0 <= i < r@.len() ==> r@[i] < 0x80,
{
    let mut out: Vec<u8> = Vec::new();
    let mut i: usize = 0;
    let len = v.len();
    while i < len
        invariant
            i <= len == v@.len(),
            out@ == ascii_bytes(v@.subrange(0, i as int)),
            forall|j: int| 0 <= j < out@.len() ==> out@[j] < 0x80,
        decreases len - i,
    {
        let b = v[i];
        if b < 0x80 {
            out.push(b);
        } else {
            out.push(0x3fu8);
        }
        proof {
            assert(out@ =~= ascii_bytes(v@.subrange(0, i + 1)));
        }
        i = i + 1;
    }
    proof {
        assert(v@.subrange(0, len as int) =~= v@);
    }
    out
}

/// Relies on `String::from_utf8_lossy`: on bytes that are all ASCII it is
/// the identity, so the returned string holds exactly the bytes' characters.
#[verifier::external_body]
fn ascii_to_string(v: &Vec<u8>) -> (r: String)
    requires
        forall|i: int| 0 <= i < v@.len() ==> v@[i] < 0x80,
    ensures
        r@.len() == v@.len(),
        forall|i: int| 0 <= i < v@.len() ==> r@[i] == v@[i] as char,
{
    String::from_utf8_lossy(v.as_slice()).into_owned()
}

/// Turns an INQUIRY string field into text: trims blanks, replaces any
/// non-ASCII byte with `?`.
fn inquiry_field(v: &Vec<u8>, lo: usize, hi: usize) -> (r: String)
    requires
        lo <= hi <= v@.len(),
    ensures
        r@ == inquiry_text(v@.subrange(lo as int, hi as int)),
{
    let raw = copy_range(v, lo, hi);
    let trimmed = trim_bytes(&raw);
    let clean = to_ascii_bytes(&trimmed);
    let s = ascii_to_string(&clean);
    proof {
        assert(s@ =~= chars_of_ascii(clean@));
    }
    s
}

/// What an INQUIRY response carries, for the fields this stack reads.
#[derive(Debug, Clone)]
pub struct InquiryResponse {
    /// Bits 7..5 of byte 0; must be 0 for a connected direct-access device.
    pub peripheral_qualifier: u8,
    /// Bits 4..0 of byte 0; must be 0 for a direct-access block device.
    pub peripheral_device_type: u8,
    /// Bit 7 of byte 1.
    pub removable_media: bool,
    /// Byte 2: the version of the standard the device claims.
    pub version: u8,
    /// Bits 3..0 of byte 3.
    pub response_data_format: u8,
    /// Bytes 8..16, trimmed ASCII.
    pub vendor_id: String,
    /// Bytes 16..32, trimmed ASCII.
    pub product_id: String,
    /// Bytes 32..36, trimmed ASCII.
    pub product_revision: String,
}

impl InquiryResponse {
    /// Decodes the 36-byte standard INQUIRY data.
    pub fn from_bytes(data: &Vec<u8>) -> (r: InquiryResponse)
        requires
            data@.len() == 36,
        ensures
            r.peripheral_qualifier == (data@[0] & 0xe0u8) >> 5,
            r.peripheral_device_type == data@[0] & 0x1fu8,
            r.removable_media == (data@[1] & 0x80u8 != 0),
            r.version == data@[2],
            r.response_data_format == data@[3] & 0x0fu8,
            r.vendor_id@ == inquiry_text(data@.subrange(8, 16)),
            r.product_id@ == inquiry_text(data@.subrange(16, 32)),
            r.product_revision@ == inquiry_text(data@.subrange(32, 36)),
    {
        let peripheral = data[0];
        InquiryResponse {
            peripheral_qualifier: (peripheral & 0xe0u8) >> 5,
            peripheral_device_type: peripheral & 0x1fu8,
            removable_media: data[1] & 0x80u8 != 0,
            version: data[2],
            response_data_format: data[3] & 0x0fu8,
            vendor_id: inquiry_field(data, 8, 16),
            product_id: inquiry_field(data, 16, 32),
            product_revision: inquiry_field(data, 32, 36),
        }
    }
}

/// What READ CAPACITY(10) returns: the address of the last logical block
/// and the size of a block, both big-endian on the wire.
#[derive(Debug, Clone)]
pub struct ReadCapacityResponse {
    /// The address of the last addressable logical block.
    pub returned_logical_block_address: u32,
    /// The size of a logical block in bytes.
    pub block_length_in_bytes: u32,
    /// Total capacity: one more block than the last address, times the
    /// block size.
    pub capacity_in_bytes: u64,
}

impl ReadCapacityResponse {
    /// Decodes the 8-byte READ CAPACITY(10) data.
    pub fn from_bytes(data: &Vec<u8>) -> (r: ReadCapacityResponse)
        requires
            data@.len() == 8,
        ensures
            r.returned_logical_block_address == u32_from_be(
                data@[0],
                data@[1],
                data@[2],
                data@[3],
            ),
            r.block_length_in_bytes == u32_from_be(data@[4], data@[5], data@[6], data@[7]),
            r.capacity_in_bytes == (r.returned_logical_block_address + 1) * r.block_length_in_bytes,
    {
        let returned_logical_block_address = get_u32_be(data[0], data[1], data[2], data[3]);
        let block_length_in_bytes = get_u32_be(data[4], data[5], data[6], data[7]);
        proof {
            assert((returned_logical_block_address as u64 + 1) * (block_length_in_bytes as u64)
                <= 0x1_0000_0000u64 * 0xffff_ffffu64) by (nonlinear_arith)
                requires
                    returned_logical_block_address <= 0xffff_ffffu32,
                    block_length_in_bytes <= 0xffff_ffffu32,
            ;
        }
        let capacity_in_bytes: u64 = (returned_logical_block_address as u64 + 1)
            * (block_length_in_bytes as u64);
        ReadCapacityResponse {
            returned_logical_block_address,
            block_length_in_bytes,
            capacity_in_bytes,
        }
    }
}

/// Sense data from REQUEST SENSE, decoded for diagnostics.
#[derive(Debug, Clone)]
pub struct SenseData {
    /// Bit 7 of byte 0: the information field is valid.
    pub valid: bool,
    /// Bits 6..0 of byte 0.
    pub response_code: u8,
    /// Bits 3..0 of byte 2.
    pub sense_key: u8,
    /// Bytes 3..7, big-endian.
    pub information: u32,
    /// Byte 7.
    pub additional_sense_length: u8,
    /// Bytes 8..12, big-endian.
    pub command_specific_information: u32,
    /// Byte 12 (ASC).
    pub additional_sense_code: u8,
    /// Byte 13 (ASCQ).
    pub additional_sense_code_qualifier: u8,
}

impl SenseData {
    /// Decodes fixed-format sense data; the first 14 bytes carry every
    /// field read here.
    pub fn from_bytes(data: &Vec<u8>) -> (r: SenseData)
        requires
            data@.len() >= 14,
        ensures
            r.valid == (data@[0] & 0x80u8 != 0),
            r.response_code == data@[0] & 0x7fu8,
            r.sense_key == data@[2] & 0x0fu8,
            r.information == u32_from_be(data@[3], data@[4], data@[5], data@[6]),
            r.additional_sense_length == data@[7],
            r.command_specific_information == u32_from_be(
                data@[8],
                data@[9],
                data@[10],
                data@[11],
            ),
            r.additional_sense_code == data@[12],
            r.additional_sense_code_qualifier == data@[13],
    {
        SenseData {
            valid: data[0] & 0x80u8 != 0,
            response_code: data[0] & 0x7fu8,
            sense_key: data[2] & 0x0fu8,
            information: get_u32_be(data[3], data[4], data[5], data[6]),
            additional_sense_length: data[7],
            command_specific_information: get_u32_be(data[8], data[9], data[10], data[11]),
            additional_sense_code: data[12],
            additional_sense_code_qualifier: data[13],
        }
    }
}

/// The 6-byte TEST UNIT READY CDB: all zero.
pub open spec fn test_unit_ready_cdb() -> Seq<u8> {
    seq![0u8, 0u8, 0u8, 0u8, 0u8, 0u8]
}

/// The 6-byte INQUIRY CDB asking for the 36 standard bytes.
pub open spec fn inquiry_cdb() -> Seq<u8> {
    seq![0x12u8, 0u8, 0u8, 0u8, 36u8, 0u8]
}

/// The 10-byte READ CAPACITY(10) CDB: the opcode and nine zero bytes.
pub open spec fn read_capacity_cdb() -> Seq<u8> {
    seq![0x25u8, 0u8, 0u8, 0u8, 0u8, 0u8, 0u8, 0u8, 0u8, 0u8]
}

/// The 10-byte READ(10) CDB: opcode, the logical block address big-endian,
/// and the block count big-endian.
pub open spec fn read10_cdb(lba: u32, count: u16) -> Seq<u8> {
    seq![0x28u8, 0u8] + u32_be_bytes(lba) + seq![0u8] + u16_be_bytes(count) + seq![0u8]
}

/// The 10-byte WRITE(10) CDB: opcode, the logical block address big-endian,
/// and the block count big-endian.
pub open spec fn write10_cdb(lba: u32, count: u16) -> Seq<u8> {
    seq![0x2au8, 0u8] + u32_be_bytes(lba) + seq![0u8] + u16_be_bytes(count) + seq![0u8]
}

/// The 6-byte REQUEST SENSE CDB asking for up to 252 bytes of sense data.
pub open spec fn request_sense_cdb() -> Seq<u8> {
    seq![0x03u8, 0u8, 0u8, 0u8, 252u8, 0u8]
}

/// Builds the TEST UNIT READY command; it moves no data.
pub fn test_unit_ready_command() -> (r: BulkOnlyTransportCommandBlock)
    ensures
        r.command_block@ == test_unit_ready_cdb(),
        r.transfer_length == 0,
        r.wf(),
{
    let mut cb: Vec<u8> = Vec::new();
    cb.push(0);
    cb.push(0);
    cb.push(0);
    cb.push(0);
    cb.push(0);
    cb.push(0);
    proof {
        assert(cb@ =~= test_unit_ready_cdb());
    }
    BulkOnlyTransportCommandBlock { command_block: cb, transfer_length: 0 }
}

/// Builds the INQUIRY command; the device answers with 36 bytes.
pub fn inquiry_command() -> (r: BulkOnlyTransportCommandBlock)
    ensures
        r.command_block@ == inquiry_cdb(),
        r.transfer_length == 36,
        r.wf(),
{
    let mut cb: Vec<u8> = Vec::new();
    cb.push(0x12);
    cb.push(0);
    cb.push(0);
    cb.push(0);
    cb.push(36);
    cb.push(0);
    proof {
        assert(cb@ =~= inquiry_cdb());
    }
    BulkOnlyTransportCommandBlock { command_block: cb, transfer_length: 36 }
}

/// Builds the READ CAPACITY(10) command; the device answers with 8 bytes.
pub fn read_capacity_command() -> (r: BulkOnlyTransportCommandBlock)
    ensures
        r.command_block@ == read_capacity_cdb(),
        r.transfer_length == 8,
        r.wf(),
{
    let mut cb: Vec<u8> = Vec::new();
    let mut i: usize = 0;
    cb.push(0x25);
    while i < 9
        invariant
            i <= 9,
            cb@.len() == 1 + i,
            cb@[0] == 0x25u8,
            forall|j: int| 1 <= j < cb@.len() ==> cb@[j] == 0u8,
        decreases 9 - i,
    {
        cb.push(0);
        i = i + 1;
    }
    proof {
        assert(cb@ =~= read_capacity_cdb());
    }
    BulkOnlyTransportCommandBlock { command_block: cb, transfer_length: 8 }
}

/// Builds the READ(10) command for `count` blocks starting at `lba`;
/// the data phase moves `count * block_size` bytes in.
pub fn read10_command(lba: u32, count: u16, block_size: u32) -> (r: BulkOnlyTransportCommandBlock)
    requires
        count * block_size <= u32::MAX,
    ensures
        r.command_block@ == read10_cdb(lba, count),
        r.transfer_length == count * block_size,
        r.wf(),
{
    let mut cb: Vec<u8> = Vec::new();
    cb.push(0x28);
    cb.push(0);
    put_u32_be(&mut cb, lba);
    cb.push(0);
    put_u16_be(&mut cb, count);
    cb.push(0);
    proof {
        assert(cb@ =~= read10_cdb(lba, count));
        assert((count as u32) * block_size == count * block_size) by (nonlinear_arith)
            requires count * block_size <= u32::MAX;
    }
    BulkOnlyTransportCommandBlock {
        command_block: cb,
        transfer_length: (count as u32) * block_size,
    }
}

/// Builds the WRITE(10) command for `count` blocks starting at `lba`;
/// the data phase moves `count * block_size` bytes out.
pub fn write10_command(lba: u32, count: u16, block_size: u32) -> (r: BulkOnlyTransportCommandBlock)
    requires
        count * block_size <= u32::MAX,
    ensures
        r.command_block@ == write10_cdb(lba, count),
        r.transfer_length == count * block_size,
        r.wf(),
{
    let mut cb: Vec<u8> = Vec::new();
    cb.push(0x2a);
    cb.push(0);
    put_u32_be(&mut cb, lba);
    cb.push(0);
    put_u16_be(&mut cb, count);
    cb.push(0);
    proof {
        assert(cb@ =~= write10_cdb(lba, count));
        assert((count as u32) * block_size == count * block_size) by (nonlinear_arith)
            requires count * block_size <= u32::MAX;
    }
    BulkOnlyTransportCommandBlock {
        command_block: cb,
        transfer_length: (count as u32) * block_size,
    }
}

/// Builds the REQUEST SENSE command; the device answers with up to
/// 252 bytes of sense data.
pub fn request_sense_command() -> (r: BulkOnlyTransportCommandBlock)
    ensures
        r.command_block@ == request_sense_cdb(),
        r.transfer_length == 252,
        r.wf(),
{
    let mut cb: Vec<u8> = Vec::new();
    cb.push(0x03);
    cb.push(0);
    cb.push(0);
    cb.push(0);
    cb.push(252);
    cb.push(0);
    proof {
        assert(cb@ =~= request_sense_cdb());
    }
    BulkOnlyTransportCommandBlock { command_block: cb, transfer_length: 252 }
}

} // verus!
