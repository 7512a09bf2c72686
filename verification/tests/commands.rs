use mass_storage::scsi::{
    inquiry_command, read10_command, read_capacity_command, request_sense_command,
    test_unit_ready_command, write10_command, InquiryResponse, ReadCapacityResponse, SenseData,
};

fn inquiry_data(vendor: &str, product: &str, revision: &str) -> Vec<u8> {
    let mut data = vec![0u8; 36];
    data[1] = 0x80; // removable media
    data[2] = 0x02;
    data[3] = 0x02;
    data[8..16].copy_from_slice(vendor.as_bytes());
    data[16..32].copy_from_slice(product.as_bytes());
    data[32..36].copy_from_slice(revision.as_bytes());
    data
}

#[test]
fn cdb_builders_emit_exact_bytes() {
    let tur = test_unit_ready_command();
    assert_eq!(tur.command_block, vec![0u8; 6]);
    assert_eq!(tur.transfer_length, 0);

    let inquiry = inquiry_command();
    assert_eq!(inquiry.command_block, vec![0x12, 0, 0, 0, 36, 0]);
    assert_eq!(inquiry.transfer_length, 36);

    let capacity = read_capacity_command();
    assert_eq!(capacity.command_block, vec![0x25, 0, 0, 0, 0, 0, 0, 0, 0, 0]);
    assert_eq!(capacity.transfer_length, 8);

    let read = read10_command(0x01020304, 0x0506, 512);
    assert_eq!(
        read.command_block,
        vec![0x28, 0, 0x01, 0x02, 0x03, 0x04, 0, 0x05, 0x06, 0]
    );
    assert_eq!(read.transfer_length, 0x0506 * 512);

    let write = write10_command(0xA1B2C3D4, 1, 512);
    assert_eq!(
        write.command_block,
        vec![0x2A, 0, 0xA1, 0xB2, 0xC3, 0xD4, 0, 0, 1, 0]
    );
    assert_eq!(write.transfer_length, 512);

    let sense = request_sense_command();
    assert_eq!(sense.command_block, vec![0x03, 0, 0, 0, 252, 0]);
    assert_eq!(sense.transfer_length, 252);
}

#[test]
fn inquiry_response_trims_text_fields() {
    let data = inquiry_data("ACME    ", "USBSTICK        ", "1.00");
    let response = InquiryResponse::from_bytes(&data);
    assert_eq!(response.peripheral_qualifier, 0);
    assert_eq!(response.peripheral_device_type, 0);
    assert!(response.removable_media);
    assert_eq!(response.version, 2);
    assert_eq!(response.response_data_format, 2);
    assert_eq!(response.vendor_id, "ACME");
    assert_eq!(response.product_id, "USBSTICK");
    assert_eq!(response.product_revision, "1.00");
}

#[test]
fn inquiry_response_reads_peripheral_bits() {
    let mut data = inquiry_data("V       ", "P               ", "0.01");
    data[0] = 0b0110_0101; // qualifier 3, device type 5
    let response = InquiryResponse::from_bytes(&data);
    assert_eq!(response.peripheral_qualifier, 3);
    assert_eq!(response.peripheral_device_type, 5);
}

#[test]
fn read_capacity_counts_the_last_block() {
    let mut data = Vec::new();
    data.extend_from_slice(&7u32.to_be_bytes());
    data.extend_from_slice(&512u32.to_be_bytes());
    let response = ReadCapacityResponse::from_bytes(&data);
    assert_eq!(response.returned_logical_block_address, 7);
    assert_eq!(response.block_length_in_bytes, 512);
    // eight blocks of 512 bytes: the last LBA is an index, so capacity
    // covers one more block than its value
    assert_eq!(response.capacity_in_bytes, 4096);
}

#[test]
fn sense_data_decodes_fixed_format() {
    let mut data = vec![0u8; 18];
    data[0] = 0xF0; // valid, response code 0x70
    data[2] = 0x06; // sense key UNIT ATTENTION
    data[3..7].copy_from_slice(&0x01020304u32.to_be_bytes());
    data[7] = 10;
    data[8..12].copy_from_slice(&0x0A0B0C0Du32.to_be_bytes());
    data[12] = 0x28; // ASC
    data[13] = 0x00; // ASCQ
    let sense = SenseData::from_bytes(&data);
    assert!(sense.valid);
    assert_eq!(sense.response_code, 0x70);
    assert_eq!(sense.sense_key, 0x06);
    assert_eq!(sense.information, 0x01020304);
    assert_eq!(sense.additional_sense_length, 10);
    assert_eq!(sense.command_specific_information, 0x0A0B0C0D);
    assert_eq!(sense.additional_sense_code, 0x28);
    assert_eq!(sense.additional_sense_code_qualifier, 0x00);
}
