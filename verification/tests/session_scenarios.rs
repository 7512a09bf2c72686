use mass_storage::scsi::{InquiryResponse, ReadCapacityResponse};
use mass_storage::sim::{IssuedCommand, SimulatedDisk, SimulatedStorage};
use mass_storage::storage::{MassStorageDevice, SeekFrom};

fn inquiry_data() -> Vec<u8> {
    let mut data = vec![0u8; 36];
    data[1] = 0x80;
    data[8..16].copy_from_slice(b"ACME    ");
    data[16..32].copy_from_slice(b"USBSTICK        ");
    data[32..36].copy_from_slice(b"1.00");
    data
}

fn capacity_data(last_lba: u32, block_len: u32) -> Vec<u8> {
    let mut data = Vec::new();
    data.extend_from_slice(&last_lba.to_be_bytes());
    data.extend_from_slice(&block_len.to_be_bytes());
    data
}

fn pattern(len: usize) -> Vec<u8> {
    let mut data = Vec::with_capacity(len);
    for a in 0..len {
        data.push(((a * 7 + a / 512) % 256) as u8);
    }
    data
}

fn make_session(blocks: u32, cache_capacity: usize) -> SimulatedStorage {
    let inquiry = InquiryResponse::from_bytes(&inquiry_data());
    let capacity = ReadCapacityResponse::from_bytes(&capacity_data(blocks - 1, 512));
    let device = MassStorageDevice::new(true, &inquiry, &capacity, cache_capacity)
        .expect("bring-up must succeed");
    let disk = SimulatedDisk::new(blocks, pattern(blocks as usize * 512));
    SimulatedStorage::new(device, disk)
}

fn read_cmd(lba: u32, count: u32) -> IssuedCommand {
    IssuedCommand { is_write: false, lba, count }
}

fn write_cmd(lba: u32, count: u32) -> IssuedCommand {
    IssuedCommand { is_write: true, lba, count }
}

#[test]
fn bring_up_reports_geometry_and_identity() {
    let session = make_session(8, 128);
    let properties = session.get_properties();
    assert_eq!(properties.capacity, 8 * 512);
    assert_eq!(properties.block_size, 512);
    assert_eq!(properties.total_number_of_blocks, 8);
    assert_eq!(properties.name, "ACME USBSTICK");
}

#[test]
fn first_read_issues_one_block_read() {
    let mut session = make_session(8, 128);
    let out = session.read(512);
    assert_eq!(out, pattern(8 * 512)[0..512].to_vec());
    assert_eq!(session.commands(), vec![read_cmd(0, 1)]);
}

#[test]
fn straddling_read_fetches_only_the_miss() {
    let mut session = make_session(8, 128);
    let first = session.read(512);
    assert_eq!(first.len(), 512);
    session.seek(SeekFrom::Start(256)).expect("seek inside the device");
    let out = session.read(512);
    let disk = pattern(8 * 512);
    let mut expected = disk[256..512].to_vec();
    expected.extend_from_slice(&disk[512..768]);
    assert_eq!(out, expected);
    // block 0 was a hit; only block 1 was fetched
    assert_eq!(session.commands(), vec![read_cmd(0, 1), read_cmd(1, 1)]);
}

#[test]
fn single_block_write_defers_to_flush() {
    let mut session = make_session(8, 128);
    session.seek(SeekFrom::Start(100)).expect("seek inside the device");
    let written = session.write(&vec![0xAA; 300]);
    assert_eq!(written, 300);
    // one READ(10) for the read-modify-write, nothing else yet
    assert_eq!(session.commands(), vec![read_cmd(0, 1)]);
    session.flush();
    assert_eq!(session.commands(), vec![read_cmd(0, 1), write_cmd(0, 1)]);
    // a fresh read of the block returns the spliced bytes
    session.seek(SeekFrom::Start(0)).expect("seek to the start");
    let out = session.read(512);
    let mut expected = pattern(8 * 512)[0..512].to_vec();
    for b in expected[100..400].iter_mut() {
        *b = 0xAA;
    }
    assert_eq!(out, expected);
    assert_eq!(
        session.commands(),
        vec![read_cmd(0, 1), write_cmd(0, 1), read_cmd(0, 1)]
    );
}

#[test]
fn straddling_write_goes_out_as_one_command() {
    let mut session = make_session(8, 128);
    session.seek(SeekFrom::Start(500)).expect("seek inside the device");
    let written = session.write(&vec![0x55; 24]);
    assert_eq!(written, 24);
    // both boundary blocks are fetched, then one WRITE(10) covers the range
    assert_eq!(
        session.commands(),
        vec![read_cmd(0, 1), read_cmd(1, 1), write_cmd(0, 2)]
    );
    let disk = session.disk_snapshot();
    let mut expected = pattern(8 * 512);
    for b in expected[500..524].iter_mut() {
        *b = 0x55;
    }
    assert_eq!(disk, expected);
    // the written blocks were admitted clean: a flush writes nothing
    session.flush();
    assert_eq!(
        session.commands(),
        vec![read_cmd(0, 1), read_cmd(1, 1), write_cmd(0, 2)]
    );
}

#[test]
fn reads_clip_at_the_end_of_the_device() {
    let mut session = make_session(8, 128);
    session.seek(SeekFrom::Start(8 * 512 - 100)).expect("seek inside the device");
    let out = session.read(512);
    assert_eq!(out.len(), 100);
    // seeking past the capacity is allowed; reads there return nothing
    let pos = session.seek(SeekFrom::Start(10000)).expect("seek past the end");
    assert_eq!(pos, 10000);
    let out = session.read(64);
    assert_eq!(out.len(), 0);
    let back = session.seek(SeekFrom::End(-4096)).expect("seek from the end");
    assert_eq!(back, 0);
}

#[test]
fn dirty_eviction_writes_the_block_back_once() {
    let mut session = make_session(8, 1);
    let written = session.write(&vec![0x11; 512]);
    assert_eq!(written, 512);
    // full-block write still fetches the block for the read-modify-write
    assert_eq!(session.commands(), vec![read_cmd(0, 1)]);
    session.seek(SeekFrom::Start(512)).expect("seek to block 1");
    let out = session.read(512);
    assert_eq!(out, pattern(8 * 512)[512..1024].to_vec());
    // admitting block 1 evicted dirty block 0: exactly one write-back
    assert_eq!(
        session.commands(),
        vec![read_cmd(0, 1), read_cmd(1, 1), write_cmd(0, 1)]
    );
    let disk = session.disk_snapshot();
    assert_eq!(disk[0..512], vec![0x11; 512]);
}

#[test]
fn uncached_read_equals_sliced_block_read() {
    let mut session = make_session(8, 128);
    let blocks = session.read_blocks(0, 2);
    let mut fresh = make_session(8, 128);
    fresh.seek(SeekFrom::Start(100)).expect("seek inside the device");
    let out = fresh.read(700);
    assert_eq!(out, blocks[100..800].to_vec());
}

#[test]
fn flushed_state_matches_a_byte_model() {
    let mut session = make_session(8, 4);
    let mut model = pattern(8 * 512);
    let steps: Vec<(u64, Vec<u8>)> = vec![
        (10, vec![0x01; 700]),
        (2040, vec![0x02; 20]),
        (0, vec![0x03; 512]),
        (3000, vec![0x04; 1100]),
        (511, vec![0x05; 2]),
        (4095, vec![0x06; 10]),
    ];
    for (offset, payload) in steps {
        session.seek(SeekFrom::Start(offset)).expect("seek inside the device");
        let written = session.write(&payload);
        let end = (offset as usize + payload.len()).min(model.len());
        let n = end - offset as usize;
        assert_eq!(written, n);
        model[offset as usize..end].copy_from_slice(&payload[..n]);
        // interleave reads; they must see the model and change nothing
        session.seek(SeekFrom::Start(offset / 2)).expect("seek inside the device");
        let out = session.read(600);
        let roff = (offset / 2) as usize;
        assert_eq!(out, model[roff..(roff + 600).min(model.len())].to_vec());
    }
    session.flush();
    assert_eq!(session.disk_snapshot(), model);
}

#[test]
fn repeated_reads_hit_the_single_cached_copy() {
    let mut session = make_session(8, 128);
    session.seek(SeekFrom::Start(0)).expect("seek to the start");
    let first = session.read(1024);
    session.seek(SeekFrom::Start(0)).expect("seek to the start");
    let second = session.read(1024);
    assert_eq!(first, second);
    // both blocks were fetched once; the second read was served entirely
    // from the cache
    assert_eq!(session.commands(), vec![read_cmd(0, 2)]);
}
