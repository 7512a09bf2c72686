//! USB Mass Storage Bulk-Only Transport framing.
//!
//! A command travels as a 31-byte Command Block Wrapper (CBW); the device
//! answers with a 13-byte Command Status Wrapper (CSW). Both use
//! little-endian integer fields. The session tracks the monotonically
//! increasing tag and the selected logical unit, and checks that the CSW
//! returned by the device carries the signature and the tag of the
//! outstanding CBW.

use vstd::prelude::*;

use crate::endian::{
    get_u32_le, put_u32_le, u32_from_le, u32_le_bytes,
};

verus! {

/// CBW signature, little-endian "USBC".
pub const CBW_SIGNATURE: u32 = 0x43425355;

/// CSW signature, little-endian "USBS".
pub const CSW_SIGNATURE: u32 = 0x53425355;

/// Direction of the data phase of a command, seen from the host.
#[derive(Clone, Copy, Debug, PartialEq, Eq, Structural)]
pub enum Direction {
    /// Device to host.
    In,
    /// Host to device.
    Out,
}

/// Errors of the Bulk-Only Transport layer.
#[derive(Clone, Copy, Debug, PartialEq, Eq, Structural)]
pub enum BulkOnlyTransportError {
    /// A logical unit number above the device's max LUN was selected.
    InvalidLUN,
    /// The device responded with a different tag than was expected.
    IncorrectTag,
    /// A wrapper carried a signature other than the fixed constant.
    BadSignature,
}

/// A SCSI command block together with the length of its data phase,
/// ready to be framed into a CBW.
pub struct BulkOnlyTransportCommandBlock {
    /// The command descriptor block, 1 to 16 bytes.
    pub command_block: Vec<u8>,
    /// Exact number of bytes moved in the data phase.
    pub transfer_length: u32,
}

impl BulkOnlyTransportCommandBlock {
    /// A command block is well-formed when its CDB fits the CBW's
    /// 1..=16 byte field.
    pub open spec fn wf(&self) -> bool {
        1 <= self.command_block@.len() <= 16
    }
}

/// The fields of a 31-byte Command Block Wrapper.
pub struct CommandBlockWrapper {
    pub tag: u32,
    pub transfer_length: u32,
    pub direction: Direction,
    pub lun: u8,
    pub cbwcb: Vec<u8>,
}

/// The flags byte of a CBW: bit 7 set means an IN data phase.
pub open spec fn direction_byte(d: Direction) -> u8 {
    match d {
        Direction::In => 0x80u8,
        Direction::Out => 0x00u8,
    }
}

/// Zero padding of the given length.
pub open spec fn zero_bytes(n: nat) -> Seq<u8> {
    Seq::new(n, |i: int| 0u8)
}

/// The 31 bytes of a CBW: signature, tag and transfer length little-endian,
/// then flags, LUN, CDB length, and the CDB zero-padded to 16 bytes.
pub open spec fn cbw_bytes(
    tag: u32,
    transfer_length: u32,
    direction: Direction,
    lun: u8,
    cbwcb: Seq<u8>,
) -> Seq<u8> {
    u32_le_bytes(CBW_SIGNATURE) + u32_le_bytes(tag) + u32_le_bytes(transfer_length) + seq![
        direction_byte(direction),
        lun,
        cbwcb.len() as u8,
    ] + cbwcb + zero_bytes((16 - cbwcb.len()) as nat)
}

/// Whether 31 bytes parse as a CBW: right signature and a CDB length
/// between 1 and 16.
pub open spec fn cbw_bytes_valid(b: Seq<u8>) -> bool {
    &&& b.len() == 31
    &&& b.subrange(0, 4) == u32_le_bytes(CBW_SIGNATURE)
    &&& 1 <= b[14] <= 16
}

/// The fields read back from 31 CBW bytes:
/// tag, transfer length, direction, LUN, CDB.
pub open spec fn cbw_decoded(b: Seq<u8>) -> (u32, u32, Direction, u8, Seq<u8>) {
    (
        u32_from_le(b[4], b[5], b[6], b[7]),
        u32_from_le(b[8], b[9], b[10], b[11]),
        if b[12] & 0x80u8 != 0 {
            Direction::In
        } else {
            Direction::Out
        },
        (b[13] & 0x0fu8) as u8,
        b.subrange(15, 15 + (b[14] as int)),
    )
}

impl CommandBlockWrapper {
    /// A CBW is well-formed when the LUN fits its 4-bit field and the CDB
    /// fits the 1..=16 byte field.
    pub open spec fn wf(&self) -> bool {
        &&& self.lun < 16
        &&& 1 <= self.cbwcb@.len() <= 16
    }

    /// The wire encoding of this CBW.
    pub open spec fn spec_bytes(&self) -> Seq<u8> {
        cbw_bytes(self.tag, self.transfer_length, self.direction, self.lun, self.cbwcb@)
    }

    /// Encodes the CBW into its 31-byte wire form.
    pub fn to_bytes(&self) -> (r: Vec<u8>)
        requires
            self.wf(),
        ensures
            r@ == self.spec_bytes(),
            r@.len() == 31,
    {
        let mut out: Vec<u8> = Vec::new();
        put_u32_le(&mut out, CBW_SIGNATURE);
        put_u32_le(&mut out, self.tag);
        put_u32_le(&mut out, self.transfer_length);
        out.push(
            match self.direction {
                Direction::In => 0x80u8,
                Direction::Out => 0x00u8,
            },
        );
        out.push(self.lun);
        let cb_len = self.cbwcb.len();
        out.push(cb_len as u8);
        let mut i: usize = 0;
        while i < cb_len
            invariant
                cb_len == self.cbwcb@.len(),
                i <= cb_len,
                out@.len() == 15 + i,
                out@ == u32_le_bytes(CBW_SIGNATURE) + u32_le_bytes(self.tag) + u32_le_bytes(
                    self.transfer_length,
                ) + seq![
                    direction_byte(self.direction),
                    self.lun,
                    cb_len as u8,
                ] + self.cbwcb@.subrange(0, i as int),
            decreases cb_len - i,
        {
            out.push(self.cbwcb[i]);
            proof {
                assert(self.cbwcb@.subrange(0, i + 1) =~= self.cbwcb@.subrange(0, i as int)
                    + seq![self.cbwcb@[i as int]]);
                assert(out@ =~= u32_le_bytes(CBW_SIGNATURE) + u32_le_bytes(self.tag)
                    + u32_le_bytes(self.transfer_length) + seq![
                    direction_byte(self.direction),
                    self.lun,
                    cb_len as u8,
                ] + self.cbwcb@.subrange(0, i + 1));
            }
            i = i + 1;
        }
        while i < 16
            invariant
                cb_len == self.cbwcb@.len(),
                cb_len <= i <= 16,
                out@.len() == 15 + i,
                out@ == u32_le_bytes(CBW_SIGNATURE) + u32_le_bytes(self.tag) + u32_le_bytes(
                    self.transfer_length,
                ) + seq![
                    direction_byte(self.direction),
                    self.lun,
                    cb_len as u8,
                ] + self.cbwcb@ + zero_bytes((i - cb_len) as nat),
            decreases 16 - i,
        {
            out.push(0u8);
            proof {
                assert(zero_bytes((i + 1 - cb_len) as nat) =~= zero_bytes((i - cb_len) as nat)
                    + seq![0u8]);
                assert(out@ =~= u32_le_bytes(CBW_SIGNATURE) + u32_le_bytes(self.tag)
                    + u32_le_bytes(self.transfer_length) + seq![
                    direction_byte(self.direction),
                    self.lun,
                    cb_len as u8,
                ] + self.cbwcb@ + zero_bytes((i + 1 - cb_len) as nat));
            }
            i = i + 1;
        }
        proof {
            assert(self.cbwcb@.subrange(0, cb_len as int) =~= self.cbwcb@);
            assert(out@ =~= self.spec_bytes());
        }
        out
    }

    /// Parses 31 bytes as a CBW; `None` when the signature is wrong or the
    /// CDB length field lies outside 1..=16.
    pub fn from_bytes(bytes: &Vec<u8>) -> (r: Option<CommandBlockWrapper>)
        requires
            bytes@.len() == 31,
        ensures
            r is Some <==> cbw_bytes_valid(bytes@),
            r is Some ==> {
                let c = r->Some_0;
                &&& (c.tag, c.transfer_length, c.direction, c.lun, c.cbwcb@) == cbw_decoded(
                    bytes@,
                )
                &&& c.wf()
            },
    {
        let sig = get_u32_le(bytes[0], bytes[1], bytes[2], bytes[3]);
        proof {
            assert(bytes@.subrange(0, 4) == u32_le_bytes(CBW_SIGNATURE) ==> sig == CBW_SIGNATURE)
                by {
                if bytes@.subrange(0, 4) == u32_le_bytes(CBW_SIGNATURE) {
                    assert(bytes@[0] == u32_le_bytes(CBW_SIGNATURE)[0]);
                    assert(bytes@[1] == u32_le_bytes(CBW_SIGNATURE)[1]);
                    assert(bytes@[2] == u32_le_bytes(CBW_SIGNATURE)[2]);
                    assert(bytes@[3] == u32_le_bytes(CBW_SIGNATURE)[3]);
                    crate::endian::lemma_u32_le_round_trip(CBW_SIGNATURE);
                }
            }
            assert(sig == CBW_SIGNATURE ==> bytes@.subrange(0, 4) == u32_le_bytes(CBW_SIGNATURE))
                by {
                if sig == CBW_SIGNATURE {
                    assert(u32_from_le(bytes@[0], bytes@[1], bytes@[2], bytes@[3])
                        == CBW_SIGNATURE);
                    lemma_u32_from_le_bytes_unique(bytes@[0], bytes@[1], bytes@[2], bytes@[3]);
                    assert(bytes@.subrange(0, 4) =~= u32_le_bytes(CBW_SIGNATURE));
                }
            }
        }
        if sig != CBW_SIGNATURE {
            return None;
        }
        let cb_len = bytes[14];
        if cb_len < 1 || cb_len > 16 {
            return None;
        }
        let tag = get_u32_le(bytes[4], bytes[5], bytes[6], bytes[7]);
        let transfer_length = get_u32_le(bytes[8], bytes[9], bytes[10], bytes[11]);
        let direction = if bytes[12] & 0x80u8 != 0 {
            Direction::In
        } else {
            Direction::Out
        };
        let b13 = bytes[13];
        let lun = b13 & 0x0fu8;
        let mut cbwcb: Vec<u8> = Vec::new();
        let mut i: usize = 0;
        while i < cb_len as usize
            invariant
                i <= cb_len as usize,
                cb_len <= 16,
                bytes@.len() == 31,
                cbwcb@ == bytes@.subrange(15, 15 + i),
            decreases cb_len as usize - i,
        {
            cbwcb.push(bytes[15 + i]);
            proof {
                assert(cbwcb@ =~= bytes@.subrange(15, 15 + i + 1));
            }
            i = i + 1;
        }
        proof {
            assert(lun < 16) by (bit_vector)
                requires lun == b13 & 0x0fu8;
        }
        Some(CommandBlockWrapper { tag, transfer_length, direction, lun, cbwcb })
    }
}

/// The little-endian bytes of a 32-bit value determine it: if the value read
/// back equals `x`, the bytes are the encoding of `x`.
proof fn lemma_u32_from_le_bytes_unique(b0: u8, b1: u8, b2: u8, b3: u8)
    ensures
        u32_le_bytes(u32_from_le(b0, b1, b2, b3)) == seq![b0, b1, b2, b3],
{
    let x = u32_from_le(b0, b1, b2, b3);
    assert((x & 0xff) as u8 == b0 && ((x >> 8) & 0xff) as u8 == b1 && ((x >> 16) & 0xff) as u8
        == b2 && ((x >> 24) & 0xff) as u8 == b3) by (bit_vector)
        requires x == (b0 as u32) | ((b1 as u32) << 8) | ((b2 as u32) << 16) | ((b3 as u32) << 24);
    assert(u32_le_bytes(x) =~= seq![b0, b1, b2, b3]);
}

/// Encoding a well-formed CBW and decoding the 31 bytes yields the original
/// tag, transfer length, direction, LUN and command block.
pub proof fn lemma_cbw_round_trip(cbw: CommandBlockWrapper)
    requires
        cbw.wf(),
    ensures
        cbw.spec_bytes().len() == 31,
        cbw_bytes_valid(cbw.spec_bytes()),
        cbw_decoded(cbw.spec_bytes()) == (
            cbw.tag,
            cbw.transfer_length,
            cbw.direction,
            cbw.lun,
            cbw.cbwcb@,
        ),
{
    let b = cbw.spec_bytes();
    assert(b.subrange(0, 4) =~= u32_le_bytes(CBW_SIGNATURE));
    crate::endian::lemma_u32_le_round_trip(cbw.tag);
    assert(b[4] == u32_le_bytes(cbw.tag)[0] && b[5] == u32_le_bytes(cbw.tag)[1] && b[6]
        == u32_le_bytes(cbw.tag)[2] && b[7] == u32_le_bytes(cbw.tag)[3]);
    crate::endian::lemma_u32_le_round_trip(cbw.transfer_length);
    assert(b[8] == u32_le_bytes(cbw.transfer_length)[0] && b[9] == u32_le_bytes(
        cbw.transfer_length,
    )[1] && b[10] == u32_le_bytes(cbw.transfer_length)[2] && b[11] == u32_le_bytes(
        cbw.transfer_length,
    )[3]);
    assert(b[12] == direction_byte(cbw.direction));
    assert(0x80u8 & 0x80u8 != 0 && 0x00u8 & 0x80u8 == 0) by (bit_vector);
    let lun = cbw.lun;
    assert(lun & 0x0fu8 == lun) by (bit_vector)
        requires lun < 16;
    assert(b[13] == cbw.lun);
    assert(b[14] == cbw.cbwcb@.len() as u8);
    assert(b.subrange(15, 15 + (b[14] as int)) =~= cbw.cbwcb@);
}

/// The fields of a 13-byte Command Status Wrapper.
#[derive(Clone, Copy, Debug, PartialEq, Eq, Structural)]
pub struct CommandStatusWrapper {
    /// Echo of the tag of the CBW this status answers.
    pub tag: u32,
    /// Bytes the device did not transfer, relative to the CBW's
    /// transfer length.
    pub data_residue: u32,
    /// Outcome of the command.
    pub status: CommandStatusWrapperStatus,
}

/// The status byte of a CSW.
#[derive(Clone, Copy, Debug, PartialEq, Eq, Structural)]
pub enum CommandStatusWrapperStatus {
    /// The command completed successfully.
    CommandPassed,
    /// The command failed; sense data may say why.
    CommandFailed,
    /// The transport is desynchronized and needs a reset.
    PhaseError,
    /// Status bytes 3 and 4, obsolete in the Bulk-Only Transport.
    ReservedObsolete,
    /// Any other status byte.
    Reserved,
}

/// The status variant denoted by a CSW status byte.
pub open spec fn csw_status_of(b: u8) -> CommandStatusWrapperStatus {
    if b == 0 {
        CommandStatusWrapperStatus::CommandPassed
    } else if b == 1 {
        CommandStatusWrapperStatus::CommandFailed
    } else if b == 2 {
        CommandStatusWrapperStatus::PhaseError
    } else if b == 3 || b == 4 {
        CommandStatusWrapperStatus::ReservedObsolete
    } else {
        CommandStatusWrapperStatus::Reserved
    }
}

impl CommandStatusWrapper {
    /// Parses a 13-byte CSW. Any signature other than the fixed constant
    /// fails with `BadSignature`; otherwise the tag, the residue and the
    /// status are returned exactly as the bytes carry them.
    pub fn from_bytes(bytes: &Vec<u8>) -> (r: Result<
        CommandStatusWrapper,
        BulkOnlyTransportError,
    >)
        requires
            bytes@.len() == 13,
        ensures
            r is Ok <==> bytes@.subrange(0, 4) == u32_le_bytes(CSW_SIGNATURE),
            r is Err ==> r == Err::<CommandStatusWrapper, _>(
                BulkOnlyTransportError::BadSignature,
            ),
            r is Ok ==> {
                let c = r->Ok_0;
                &&& c.tag == u32_from_le(bytes@[4], bytes@[5], bytes@[6], bytes@[7])
                &&& c.data_residue == u32_from_le(bytes@[8], bytes@[9], bytes@[10], bytes@[11])
                &&& c.status == csw_status_of(bytes@[12])
            },
    {
        let sig = get_u32_le(bytes[0], bytes[1], bytes[2], bytes[3]);
        proof {
            if bytes@.subrange(0, 4) == u32_le_bytes(CSW_SIGNATURE) {
                assert(bytes@[0] == u32_le_bytes(CSW_SIGNATURE)[0]);
                assert(bytes@[1] == u32_le_bytes(CSW_SIGNATURE)[1]);
                assert(bytes@[2] == u32_le_bytes(CSW_SIGNATURE)[2]);
                assert(bytes@[3] == u32_le_bytes(CSW_SIGNATURE)[3]);
                crate::endian::lemma_u32_le_round_trip(CSW_SIGNATURE);
            }
            if sig == CSW_SIGNATURE {
                lemma_u32_from_le_bytes_unique(bytes@[0], bytes@[1], bytes@[2], bytes@[3]);
                assert(bytes@.subrange(0, 4) =~= u32_le_bytes(CSW_SIGNATURE));
            }
        }
        if sig != CSW_SIGNATURE {
            return Err(BulkOnlyTransportError::BadSignature);
        }
        let tag = get_u32_le(bytes[4], bytes[5], bytes[6], bytes[7]);
        let data_residue = get_u32_le(bytes[8], bytes[9], bytes[10], bytes[11]);
        let status_byte = bytes[12];
        let status = if status_byte == 0 {
            CommandStatusWrapperStatus::CommandPassed
        } else if status_byte == 1 {
            CommandStatusWrapperStatus::CommandFailed
        } else if status_byte == 2 {
            CommandStatusWrapperStatus::PhaseError
        } else if status_byte == 3 || status_byte == 4 {
            CommandStatusWrapperStatus::ReservedObsolete
        } else {
            CommandStatusWrapperStatus::Reserved
        };
        Ok(CommandStatusWrapper { tag, data_residue, status })
    }
}

/// The host side of a Bulk-Only Transport session: the tag counter and the
/// logical unit selection. The bulk and control transfers themselves happen
/// outside; this state decides the bytes to send and how to check what
/// comes back.
pub struct BulkOnlyTransportSession {
    current_tag: u32,
    selected_lun: u8,
    max_lun: u8,
}

impl BulkOnlyTransportSession {
    /// A session is well-formed when the max LUN fits the 4-bit CBW field
    /// and the selection does not exceed it.
    pub closed spec fn wf(&self) -> bool {
        &&& self.max_lun < 16
        &&& self.selected_lun <= self.max_lun
    }

    pub closed spec fn spec_current_tag(&self) -> u32 {
        self.current_tag
    }

    pub closed spec fn spec_selected_lun(&self) -> u8 {
        self.selected_lun
    }

    pub closed spec fn spec_max_lun(&self) -> u8 {
        self.max_lun
    }

    /// Starts a session for a device that reported the given max LUN.
    /// A max LUN above 15 is invalid.
    pub fn new(max_lun: u8) -> (r: Result<BulkOnlyTransportSession, BulkOnlyTransportError>)
        ensures
            r is Ok <==> max_lun < 16,
            r is Err ==> r == Err::<BulkOnlyTransportSession, _>(
                BulkOnlyTransportError::InvalidLUN,
            ),
            r is Ok ==> {
                let s = r->Ok_0;
                &&& s.wf()
                &&& s.spec_current_tag() == 0
                &&& s.spec_selected_lun() == 0
                &&& s.spec_max_lun() == max_lun
            },
    {
        if max_lun >= 16 {
            return Err(BulkOnlyTransportError::InvalidLUN);
        }
        Ok(BulkOnlyTransportSession { current_tag: 0, selected_lun: 0, max_lun })
    }

    /// The max LUN the device reported at bring-up.
    pub fn max_lun(&self) -> (r: u8)
        ensures
            r == self.spec_max_lun(),
    {
        self.max_lun
    }

    /// The currently selected LUN.
    pub fn selected_lun(&self) -> (r: u8)
        ensures
            r == self.spec_selected_lun(),
    {
        self.selected_lun
    }

    /// Selects a LUN; a LUN above the device's max LUN is invalid.
    pub fn select_lun(&mut self, lun: u8) -> (r: Result<(), BulkOnlyTransportError>)
        requires
            old(self).wf(),
        ensures
            final(self).wf(),
            r is Ok <==> lun <= old(self).spec_max_lun(),
            r is Err ==> r == Err::<(), _>(BulkOnlyTransportError::InvalidLUN) && *final(self)
                == *old(self),
            r is Ok ==> final(self).spec_selected_lun() == lun && final(self).spec_max_lun()
                == old(self).spec_max_lun() && final(self).spec_current_tag() == old(
                self,
            ).spec_current_tag(),
    {
        if lun > self.max_lun {
            return Err(BulkOnlyTransportError::InvalidLUN);
        }
        self.selected_lun = lun;
        Ok(())
    }

    /// Allocates the next tag: returns the current tag and advances the
    /// counter by one, wrapping after 2^32 commands.
    pub fn next_tag(&mut self) -> (r: u32)
        ensures
            r == old(self).spec_current_tag(),
            final(self).spec_current_tag() == (old(self).spec_current_tag() + 1) % 0x1_0000_0000,
            final(self).spec_selected_lun() == old(self).spec_selected_lun(),
            final(self).spec_max_lun() == old(self).spec_max_lun(),
            old(self).wf() ==> final(self).wf(),
    {
        let tag = self.current_tag;
        self.current_tag = if self.current_tag == 0xffff_ffffu32 {
            0
        } else {
            self.current_tag + 1
        };
        tag
    }

    /// Frames a command: allocates a tag and builds the 31 CBW bytes for the
    /// selected LUN and the given direction. The caller sends the bytes over
    /// the bulk OUT endpoint and later checks the CSW against the returned
    /// tag with `finish_command`.
    pub fn begin_command(
        &mut self,
        direction: Direction,
        command_block: &BulkOnlyTransportCommandBlock,
    ) -> (r: (u32, Vec<u8>))
        requires
            old(self).wf(),
            command_block.wf(),
        ensures
            final(self).wf(),
            r.0 == old(self).spec_current_tag(),
            r.1@ == cbw_bytes(
                r.0,
                command_block.transfer_length,
                direction,
                old(self).spec_selected_lun(),
                command_block.command_block@,
            ),
            r.1@.len() == 31,
            final(self).spec_current_tag() == (old(self).spec_current_tag() + 1) % 0x1_0000_0000,
            final(self).spec_selected_lun() == old(self).spec_selected_lun(),
            final(self).spec_max_lun() == old(self).spec_max_lun(),
    {
        let tag = self.next_tag();
        let mut cbwcb: Vec<u8> = Vec::new();
        let mut i: usize = 0;
        let cb_len = command_block.command_block.len();
        while i < cb_len
            invariant
                i <= cb_len,
                cb_len == command_block.command_block@.len(),
                cbwcb@ == command_block.command_block@.subrange(0, i as int),
            decreases cb_len - i,
        {
            cbwcb.push(command_block.command_block[i]);
            proof {
                assert(cbwcb@ =~= command_block.command_block@.subrange(0, i + 1));
            }
            i = i + 1;
        }
        proof {
            assert(cbwcb@ =~= command_block.command_block@);
        }
        let cbw = CommandBlockWrapper {
            tag,
            transfer_length: command_block.transfer_length,
            direction,
            lun: self.selected_lun,
            cbwcb,
        };
        let bytes = cbw.to_bytes();
        (tag, bytes)
    }

    /// Checks the 13 CSW bytes that answered the command with the given tag:
    /// a wrong signature fails with `BadSignature`, a tag other than the one
    /// sent fails with `IncorrectTag`, and otherwise the decoded status
    /// wrapper is returned.
    pub fn finish_command(&self, tag: u32, csw_bytes: &Vec<u8>) -> (r: Result<
        CommandStatusWrapper,
        BulkOnlyTransportError,
    >)
        requires
            csw_bytes@.len() == 13,
        ensures
            r is Ok <==> (csw_bytes@.subrange(0, 4) == u32_le_bytes(CSW_SIGNATURE) && u32_from_le(
                csw_bytes@[4],
                csw_bytes@[5],
                csw_bytes@[6],
                csw_bytes@[7],
            ) == tag),
            csw_bytes@.subrange(0, 4) != u32_le_bytes(CSW_SIGNATURE) ==> r == Err::<
                CommandStatusWrapper,
                _,
            >(BulkOnlyTransportError::BadSignature),
            csw_bytes@.subrange(0, 4) == u32_le_bytes(CSW_SIGNATURE) && u32_from_le(
                csw_bytes@[4],
                csw_bytes@[5],
                csw_bytes@[6],
                csw_bytes@[7],
            ) != tag ==> r == Err::<CommandStatusWrapper, _>(BulkOnlyTransportError::IncorrectTag),
            r is Ok ==> {
                let c = r->Ok_0;
                &&& c.tag == tag
                &&& c.data_residue == u32_from_le(
                    csw_bytes@[8],
                    csw_bytes@[9],
                    csw_bytes@[10],
                    csw_bytes@[11],
                )
                &&& c.status == csw_status_of(csw_bytes@[12])
            },
    {
        let csw = match CommandStatusWrapper::from_bytes(csw_bytes) {
            Ok(c) => c,
            Err(e) => {
                return Err(e);
            },
        };
        if csw.tag != tag {
            return Err(BulkOnlyTransportError::IncorrectTag);
        }
        Ok(csw)
    }
}

} // verus!
