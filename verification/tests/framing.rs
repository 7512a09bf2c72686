use mass_storage::bot::{
    BulkOnlyTransportCommandBlock, BulkOnlyTransportError, BulkOnlyTransportSession,
    CommandBlockWrapper, CommandStatusWrapper, CommandStatusWrapperStatus, Direction,
};
use mass_storage::scsi::read10_command;

fn csw_bytes(signature: u32, tag: u32, residue: u32, status: u8) -> Vec<u8> {
    let mut b = Vec::new();
    b.extend_from_slice(&signature.to_le_bytes());
    b.extend_from_slice(&tag.to_le_bytes());
    b.extend_from_slice(&residue.to_le_bytes());
    b.push(status);
    b
}

#[test]
fn cbw_read10_wire_format() {
    // READ(10) for 4 blocks at LBA 0x0000ABCD with tag 0x11223344, LUN 0
    let cmd = read10_command(0x0000ABCD, 0x0004, 512);
    assert_eq!(cmd.transfer_length, 2048);
    let cbw = CommandBlockWrapper {
        tag: 0x11223344,
        transfer_length: cmd.transfer_length,
        direction: Direction::In,
        lun: 0,
        cbwcb: cmd.command_block,
    };
    let bytes = cbw.to_bytes();
    assert_eq!(bytes.len(), 31);
    let expected_head: [u8; 25] = [
        0x55, 0x53, 0x42, 0x43, // signature "USBC" little-endian
        0x44, 0x33, 0x22, 0x11, // tag little-endian
        0x00, 0x08, 0x00, 0x00, // transfer length 2048 little-endian
        0x80, // flags: direction IN
        0x00, // LUN 0
        0x0A, // CDB length 10
        0x28, 0x00, 0x00, 0x00, 0xAB, 0xCD, 0x00, 0x00, 0x04, 0x00, // READ(10) CDB
    ];
    assert_eq!(&bytes[..25], &expected_head[..]);
    for i in 25..31 {
        assert_eq!(bytes[i], 0);
    }
}

#[test]
fn cbw_round_trip_preserves_fields() {
    let cases: Vec<(u32, u32, Direction, u8, Vec<u8>)> = vec![
        (0, 0, Direction::Out, 0, vec![0x00]),
        (0x11223344, 2048, Direction::In, 0, vec![0x28, 0, 0, 0, 0xAB, 0xCD, 0, 0, 4, 0]),
        (u32::MAX, u32::MAX, Direction::In, 15, vec![0xFF; 16]),
        (7, 13, Direction::Out, 9, vec![1, 2, 3, 4, 5, 6, 7]),
    ];
    for (tag, transfer_length, direction, lun, cbwcb) in cases {
        let cbw = CommandBlockWrapper {
            tag,
            transfer_length,
            direction,
            lun,
            cbwcb: cbwcb.clone(),
        };
        let bytes = cbw.to_bytes();
        assert_eq!(bytes.len(), 31);
        let back = CommandBlockWrapper::from_bytes(&bytes).expect("valid CBW must decode");
        assert_eq!(back.tag, tag);
        assert_eq!(back.transfer_length, transfer_length);
        assert_eq!(back.direction, direction);
        assert_eq!(back.lun, lun);
        assert_eq!(back.cbwcb, cbwcb);
    }
}

#[test]
fn cbw_decode_rejects_wrong_signature() {
    let cbw = CommandBlockWrapper {
        tag: 1,
        transfer_length: 2,
        direction: Direction::Out,
        lun: 0,
        cbwcb: vec![0x00; 6],
    };
    let mut bytes = cbw.to_bytes();
    bytes[0] = 0x56;
    assert!(CommandBlockWrapper::from_bytes(&bytes).is_none());
}

#[test]
fn csw_decode_yields_exact_fields() {
    let cases: [(u32, u32, u8, CommandStatusWrapperStatus); 5] = [
        (0, 0, 0, CommandStatusWrapperStatus::CommandPassed),
        (0xDEADBEEF, 512, 1, CommandStatusWrapperStatus::CommandFailed),
        (42, u32::MAX, 2, CommandStatusWrapperStatus::PhaseError),
        (7, 8, 3, CommandStatusWrapperStatus::ReservedObsolete),
        (7, 8, 0x77, CommandStatusWrapperStatus::Reserved),
    ];
    for (tag, residue, status_byte, status) in cases {
        let bytes = csw_bytes(0x53425355, tag, residue, status_byte);
        let csw = CommandStatusWrapper::from_bytes(&bytes).expect("valid CSW must decode");
        assert_eq!(csw.tag, tag);
        assert_eq!(csw.data_residue, residue);
        assert_eq!(csw.status, status);
    }
}

#[test]
fn csw_decode_rejects_wrong_signature() {
    let bytes = csw_bytes(0x53425356, 1, 2, 0);
    assert_eq!(
        CommandStatusWrapper::from_bytes(&bytes),
        Err(BulkOnlyTransportError::BadSignature)
    );
}

#[test]
fn session_frames_commands_and_advances_tags() {
    let mut session = BulkOnlyTransportSession::new(0).expect("max LUN 0 is valid");
    assert_eq!(session.max_lun(), 0);
    assert_eq!(session.selected_lun(), 0);
    let cmd = BulkOnlyTransportCommandBlock {
        command_block: vec![0x00; 6],
        transfer_length: 0,
    };
    let (tag0, bytes0) = session.begin_command(Direction::Out, &cmd);
    assert_eq!(tag0, 0);
    assert_eq!(bytes0.len(), 31);
    let cmd2 = BulkOnlyTransportCommandBlock {
        command_block: vec![0x12, 0, 0, 0, 36, 0],
        transfer_length: 36,
    };
    let (tag1, _bytes1) = session.begin_command(Direction::In, &cmd2);
    assert_eq!(tag1, 1);
}

#[test]
fn session_checks_csw_tag_and_signature() {
    let session = BulkOnlyTransportSession::new(0).expect("max LUN 0 is valid");
    let good = csw_bytes(0x53425355, 5, 0, 0);
    let csw = session.finish_command(5, &good).expect("matching tag must pass");
    assert_eq!(csw.status, CommandStatusWrapperStatus::CommandPassed);
    assert_eq!(
        session.finish_command(6, &good),
        Err(BulkOnlyTransportError::IncorrectTag)
    );
    let bad_sig = csw_bytes(0x12345678, 5, 0, 0);
    assert_eq!(
        session.finish_command(5, &bad_sig),
        Err(BulkOnlyTransportError::BadSignature)
    );
}

#[test]
fn select_lun_rejects_lun_above_max() {
    assert!(BulkOnlyTransportSession::new(16).is_err());
    let mut session = BulkOnlyTransportSession::new(3).expect("max LUN 3 is valid");
    assert_eq!(session.select_lun(2), Ok(()));
    assert_eq!(session.selected_lun(), 2);
    assert_eq!(
        session.select_lun(4),
        Err(BulkOnlyTransportError::InvalidLUN)
    );
    assert_eq!(session.selected_lun(), 2);
}
