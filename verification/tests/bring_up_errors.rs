use mass_storage::scsi::{InquiryResponse, ReadCapacityResponse};
use mass_storage::storage::{MassStorageDevice, MassStorageDeviceError, SeekFrom};
use mass_storage::sim::{SimulatedDisk, SimulatedStorage};

fn inquiry_with(peripheral: u8) -> InquiryResponse {
    let mut data = vec![0u8; 36];
    data[0] = peripheral;
    data[8..16].copy_from_slice(b"VENDOR  ");
    data[16..32].copy_from_slice(b"PRODUCT         ");
    data[32..36].copy_from_slice(b"0.01");
    InquiryResponse::from_bytes(&data)
}

fn capacity_with(last_lba: u32, block_len: u32) -> ReadCapacityResponse {
    let mut data = Vec::new();
    data.extend_from_slice(&last_lba.to_be_bytes());
    data.extend_from_slice(&block_len.to_be_bytes());
    ReadCapacityResponse::from_bytes(&data)
}

#[test]
fn bring_up_fails_when_not_ready() {
    let result = MassStorageDevice::new(false, &inquiry_with(0), &capacity_with(7, 512), 128);
    assert!(matches!(result, Err(MassStorageDeviceError::NotReady)));
}

#[test]
fn bring_up_rejects_wrong_peripheral_type() {
    // peripheral qualifier 1
    let result = MassStorageDevice::new(true, &inquiry_with(0x20), &capacity_with(7, 512), 128);
    assert!(matches!(result, Err(MassStorageDeviceError::IncompatibleDevice)));
    // peripheral device type 5 (CD-ROM)
    let result = MassStorageDevice::new(true, &inquiry_with(0x05), &capacity_with(7, 512), 128);
    assert!(matches!(result, Err(MassStorageDeviceError::IncompatibleDevice)));
}

#[test]
fn bring_up_rejects_unusable_geometry() {
    let result = MassStorageDevice::new(true, &inquiry_with(0), &capacity_with(7, 4096), 128);
    assert!(matches!(result, Err(MassStorageDeviceError::IncompatibleDevice)));
    let result = MassStorageDevice::new(true, &inquiry_with(0), &capacity_with(u32::MAX, 512), 128);
    assert!(matches!(result, Err(MassStorageDeviceError::IncompatibleDevice)));
}

#[test]
fn seek_before_byte_zero_is_out_of_range() {
    let device = MassStorageDevice::new(true, &inquiry_with(0), &capacity_with(7, 512), 128)
        .expect("bring-up must succeed");
    let disk = SimulatedDisk::new(8, vec![0u8; 8 * 512]);
    let mut session = SimulatedStorage::new(device, disk);
    assert_eq!(
        session.seek(SeekFrom::End(-5000)),
        Err(MassStorageDeviceError::OutOfRange)
    );
    session.seek(SeekFrom::Start(10)).expect("seek inside the device");
    assert_eq!(
        session.seek(SeekFrom::Current(-11)),
        Err(MassStorageDeviceError::OutOfRange)
    );
    // a failed seek leaves the cursor where it was
    assert_eq!(session.cursor(), 10);
    assert_eq!(session.seek(SeekFrom::Current(-10)), Ok(0));
}
