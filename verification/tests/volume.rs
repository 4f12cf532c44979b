use crucible::{Block, BlockIO, Buffer, CrucibleError, InMemoryBlockIO, SubVolume, Volume};

const BLOCK_SIZE: u64 = 512;

fn disk(total_size: usize) -> Box<InMemoryBlockIO> {
    Box::new(InMemoryBlockIO::new(BLOCK_SIZE, total_size))
}

fn block(value: u64) -> Block {
    Block::new(value, BLOCK_SIZE.trailing_zeros())
}

#[test]
fn test_single_sub_volume_lba_coverage() -> Result<(), CrucibleError> {
    let sub_volume = SubVolume { lba_range: 0..2048, block_io: disk(0) };

    // Coverage inside region
    assert_eq!(sub_volume.lba_range_coverage(0, 1), Some(0..1),);
    assert_eq!(sub_volume.lba_range_coverage(1, 4), Some(1..5),);
    assert_eq!(sub_volume.lba_range_coverage(512, 512), Some(512..1024),);
    assert_eq!(sub_volume.lba_range_coverage(0, 2048), Some(0..2048),);

    // Coverage over region
    assert_eq!(sub_volume.lba_range_coverage(1024, 4096), Some(1024..2048),);

    // Coverage outside region
    assert_eq!(sub_volume.lba_range_coverage(4096, 512), None,);

    Ok(())
}

#[test]
fn test_single_sub_volume_lba_coverage_with_offset() -> Result<(), CrucibleError> {
    let sub_volume = SubVolume { lba_range: 1024..2048, block_io: disk(0) };

    // No coverage before region
    assert_eq!(sub_volume.lba_range_coverage(0, 512), None,);
    assert_eq!(sub_volume.lba_range_coverage(0, 1024), None,);
    assert_eq!(sub_volume.lba_range_coverage(512, 512), None,);

    // Coverage from before to region
    assert_eq!(sub_volume.lba_range_coverage(512, 1024), Some(1024..1536),);
    assert_eq!(sub_volume.lba_range_coverage(512, 2048), Some(1024..2048),);
    assert_eq!(sub_volume.lba_range_coverage(512, 2560), Some(1024..2048),);

    // Coverage from inside region to beyond region
    assert_eq!(sub_volume.lba_range_coverage(1024, 4096), Some(1024..2048),);
    assert_eq!(sub_volume.lba_range_coverage(1536, 4096), Some(1536..2048),);
    assert_eq!(sub_volume.lba_range_coverage(2047, 4096), Some(2047..2048),);

    // Coverage outside region
    assert_eq!(sub_volume.lba_range_coverage(2048, 4096), None,);
    assert_eq!(sub_volume.lba_range_coverage(4096, 512), None,);

    Ok(())
}

#[test]
fn test_volume_size() -> Result<(), CrucibleError> {
    let mut volume = Volume::new(512);
    volume.add_subvolume(disk(512 * 512))?;
    volume.add_subvolume(disk(512 * 512))?;

    assert_eq!(volume.total_size()?, 512 * 1024);

    Ok(())
}

#[test]
fn test_affected_subvolumes() -> Result<(), CrucibleError> {
    // volume:       |--------|--------|--------|
    //               0        512      1024
    //
    // each sub volume LBA coverage is 512 blocks
    let mut volume = Volume::new(512);
    volume.add_subvolume(disk(512 * 512))?;
    volume.add_subvolume(disk(512 * 512))?;
    volume.add_subvolume(disk(512 * 512))?;

    // volume:       |--------|--------|--------|
    // request:      |----|
    assert_eq!(volume.sub_volumes_for_lba_range(0, 256).len(), 1,);

    // volume:       |--------|--------|--------|
    // request:      |--------|
    assert_eq!(volume.sub_volumes_for_lba_range(0, 512).len(), 1,);

    // volume:       |--------|--------|--------|
    // request:      |---------|
    assert_eq!(volume.sub_volumes_for_lba_range(0, 513).len(), 2);

    // volume:       |--------|--------|--------|
    // request:          |--|
    assert_eq!(volume.sub_volumes_for_lba_range(256, 16).len(), 1,);

    // volume:       |--------|--------|--------|
    // request:          |----|
    assert_eq!(volume.sub_volumes_for_lba_range(256, 256).len(), 1,);

    // volume:       |--------|--------|--------|
    // request:          |--------|
    assert_eq!(volume.sub_volumes_for_lba_range(256, 512).len(), 2,);

    // volume:       |--------|--------|--------|
    // request:          |-------------|
    assert_eq!(volume.sub_volumes_for_lba_range(256, 256 + 512).len(), 2,);

    // volume:       |--------|--------|--------|
    // request:          |------------------|
    assert_eq!(volume.sub_volumes_for_lba_range(256, 256 + 512 + 256).len(), 3,);

    // volume:       |--------|--------|--------|
    // request:          |----------------------|
    assert_eq!(volume.sub_volumes_for_lba_range(256, 256 + 512 + 512).len(), 3,);

    // volume:       |--------|--------|--------|
    // request:               |-----------------|
    assert_eq!(volume.sub_volumes_for_lba_range(512, 512 + 512).len(), 2,);

    Ok(())
}

#[test]
fn test_no_read_only_parent_for_lba_range() -> Result<(), CrucibleError> {
    // sub volume:  |-------------------|
    let mut volume = Volume::new(512);
    volume.add_subvolume(disk(512 * 512))?;

    assert!(volume.read_only_parent_for_lba_range(0, 512).is_none());

    Ok(())
}

#[test]
fn test_read_only_parent_for_lba_range() -> Result<(), CrucibleError> {
    // sub volume:  |-------------------|
    // parent:      |xxxxxxxxx|
    let mut volume = Volume::new(512);
    volume.add_subvolume(disk(512 * 512))?;
    volume.add_read_only_parent(disk(256 * 512))?;

    assert!(volume.read_only_parent_for_lba_range(0, 512).is_some());

    // Inside, starting at 0
    assert_eq!(volume.read_only_parent_for_lba_range(0, 128), Some(0..128),);
    assert_eq!(volume.read_only_parent_for_lba_range(0, 256), Some(0..256),);
    assert_eq!(volume.read_only_parent_for_lba_range(0, 512), Some(0..256),);

    // Inside, starting at offset
    assert_eq!(volume.read_only_parent_for_lba_range(128, 512), Some(128..256),);

    // Outside
    assert_eq!(volume.read_only_parent_for_lba_range(256, 512), None,);

    Ok(())
}

#[test]
fn test_in_memory_block_io() -> Result<(), CrucibleError> {
    let mut disk = InMemoryBlockIO::new(BLOCK_SIZE, 4096);

    // Initial read should come back all zeroes
    let mut buffer = Buffer::new(4096);
    disk.read(block(0), &mut buffer)?.block_wait()?;
    assert_eq!(*buffer.as_vec(), vec![0; 4096]);

    // Write ones to second block
    disk.write(block(1), &vec![1; 512])?.block_wait()?;

    // Read and verify
    let mut buffer = Buffer::new(4096);
    disk.read(block(0), &mut buffer)?.block_wait()?;

    let mut expected = vec![0; 512];
    expected.extend(vec![1; 512]);
    expected.extend(vec![0; 4096 - 1024]);
    assert_eq!(*buffer.as_vec(), expected);

    // Write twos to first block
    disk.write(block(0), &vec![2; 512])?.block_wait()?;

    // Read and verify
    let mut buffer = Buffer::new(4096);
    disk.read(block(0), &mut buffer)?.block_wait()?;

    let mut expected = vec![2; 512];
    expected.extend(vec![1; 512]);
    expected.extend(vec![0; 4096 - 1024]);
    assert_eq!(*buffer.as_vec(), expected);

    // Write sevens to third and fourth block
    disk.write(block(2), &vec![7; 1024])?.block_wait()?;

    // Read and verify
    let mut buffer = Buffer::new(4096);
    disk.read(block(0), &mut buffer)?.block_wait()?;

    let mut expected = vec![2; 512];
    expected.extend(vec![1; 512]);
    expected.extend(vec![7; 1024]);
    expected.extend(vec![0; 4096 - 2048]);
    assert_eq!(*buffer.as_vec(), expected);

    Ok(())
}

// Writes to the parent of a volume: the parent is taken off, written, and
// put back.
fn write_parent(volume: &mut Volume, offset: Block, data: &[u8]) -> Result<(), CrucibleError> {
    let mut parent = volume.remove_read_only_parent().unwrap();
    parent.block_io.write(offset, data)?.block_wait()?;
    volume.add_read_only_parent(parent.block_io)
}

// Reads the first 2048 bytes of the parent of a volume.
fn read_parent(volume: &mut Volume) -> Result<Vec<u8>, CrucibleError> {
    let parent = volume.remove_read_only_parent().unwrap();
    let mut buffer = Buffer::new(2048);
    parent.block_io.read(block(0), &mut buffer)?.block_wait()?;
    volume.add_read_only_parent(parent.block_io)?;
    Ok(buffer.as_vec().clone())
}

fn read_whole(volume: &Volume) -> Result<Vec<u8>, CrucibleError> {
    let mut buffer = Buffer::new(4096);
    volume.read(block(0), &mut buffer)?.block_wait()?;
    Ok(buffer.as_vec().clone())
}

fn parent_read_only_region(mut volume: Volume) -> Result<(), CrucibleError> {
    // Volume is set up like this:
    //
    // parent blocks: 0 0 0 0
    //    sub volume: 0 0 0 0 0 0 0 0
    //
    // blocks that have not been written to will be marked with "-" and will
    // assumed to be all zeros.

    // The initial read should come back all zeros
    assert_eq!(read_whole(&volume)?, vec![0; 4096]);

    // If the parent volume has data, it should be returned. Write ones to
    // the first block of the parent:
    //
    // parent blocks: 1 - - -
    //    sub volume: - - - - - - - -
    //
    write_parent(&mut volume, block(0), &vec![1; 512])?;

    // Read whole volume and verify
    let mut expected = vec![1; 512];
    expected.extend(vec![0; 4096 - 512]);
    assert_eq!(read_whole(&volume)?, expected);

    // If the volume is written to and it doesn't overlap, still return the
    // parent data. Write twos to the volume:
    //
    // parent blocks: 1 - - -
    //    sub volume: - 2 2 - - - - -
    volume.write(block(1), &vec![2; 1024])?.block_wait()?;

    // Make sure the parent data hasn't changed!
    {
        let mut expected = vec![1; 512];
        expected.extend(vec![0; 2048 - 512]);
        assert_eq!(read_parent(&mut volume)?, expected);
    }

    // Read whole volume and verify
    let mut expected = vec![1; 512];
    expected.extend(vec![2; 1024]);
    expected.extend(vec![0; 4096 - 1024 - 512]);
    assert_eq!(read_whole(&volume)?, expected);

    // If the volume is written to and it does overlap, return the volume
    // data. Write threes to the volume:
    //
    // parent blocks: 1 - - -
    //    sub volume: 3 3 2 - - - - -
    volume.write(block(0), &vec![3; 512 * 2])?.block_wait()?;

    // Make sure the parent data hasn't changed!
    {
        let mut expected = vec![1; 512];
        expected.extend(vec![0; 2048 - 512]);
        assert_eq!(read_parent(&mut volume)?, expected);
    }

    // Read whole volume and verify
    let mut expected = vec![3; 512 * 2];
    expected.extend(vec![2; 512]);
    expected.extend(vec![0; 4096 - 512 * 3]);
    assert_eq!(read_whole(&volume)?, expected);

    // If the whole parent is now written to, only the last block should be
    // returned. Write fours to the parent
    //
    // parent blocks: 4 4 4 4
    //    sub volume: 3 3 2 - - - - -
    write_parent(&mut volume, block(0), &vec![4; 2048])?;

    // Read whole volume and verify
    let mut expected = vec![3; 512 * 2];
    expected.extend(vec![2; 512]);
    expected.extend(vec![4; 512]);
    expected.extend(vec![0; 2048]);
    assert_eq!(read_whole(&volume)?, expected);

    // If the parent goes away, then the sub volume data should still be
    // readable.
    volume.remove_read_only_parent();

    // Read whole volume and verify
    let mut expected = vec![3; 512 * 2];
    expected.extend(vec![2; 512]);
    expected.extend(vec![0; 512]); // <- was previously from parent
    expected.extend(vec![0; 2048]);
    assert_eq!(read_whole(&volume)?, expected);

    Ok(())
}

#[test]
fn test_parent_read_only_region_one_subvolume() -> Result<(), CrucibleError> {
    // this layout has one volume that the parent lba range overlaps:
    //
    // volumes: 0 0 0 0 0 0 0 0
    //  parent: P P P P
    //
    // the total volume size is 4096b
    let mut volume = Volume::new(BLOCK_SIZE);
    volume.add_subvolume(disk(4096))?;
    volume.add_read_only_parent(disk(2048))?;

    parent_read_only_region(volume)
}

#[test]
fn test_parent_read_only_region_with_multiple_sub_volumes() -> Result<(), CrucibleError> {
    // this layout has two volumes that the parent lba range overlaps:
    //
    // volumes: 0 0
    //              1 1 1 1 1 1
    //  parent: P P P P
    //
    // the total volume size is the same as the previous test: 4096b
    let mut volume = Volume::new(BLOCK_SIZE);
    volume.add_subvolume(disk(1024))?;
    volume.add_subvolume(disk(3072))?;
    volume.add_read_only_parent(disk(2048))?;

    parent_read_only_region(volume)
}

#[test]
fn test_volume_with_only_read_only_parent() -> Result<(), CrucibleError> {
    let mut parent = disk(2048);

    parent.activate(0)?;

    // Write 0x80 into parent
    parent.write(block(0), &vec![128; 2048])?.block_wait()?;

    let mut volume = Volume::new(BLOCK_SIZE);
    volume.add_read_only_parent(parent)?;

    volume.activate(0)?;

    assert_eq!(volume.total_size()?, 2048);

    // Read volume and verify contents
    let mut buffer = Buffer::new(2048);
    volume.read(block(0), &mut buffer)?.block_wait()?;

    let expected = vec![128; 2048];

    assert_eq!(*buffer.as_vec(), expected);

    Ok(())
}

#[test]
#[should_panic]
fn test_writing_to_volume_with_only_read_only_parent() {
    let parent = disk(2048);

    let mut volume = Volume::new(BLOCK_SIZE);
    volume.add_read_only_parent(parent).unwrap();

    volume.activate(0).unwrap();

    // Write 0x80 into volume - this will panic!
    volume.write(block(0), &vec![128; 2048]).unwrap().block_wait().unwrap();
}
