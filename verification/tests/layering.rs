use crucible::layering::merge_blocks;
use crucible::{Block, BlockIO, Buffer, InMemoryBlockIO, Volume};

fn disk(total_size: usize) -> Box<InMemoryBlockIO> {
    Box::new(InMemoryBlockIO::new(512, total_size))
}

fn block(value: u64) -> Block {
    Block::new(value, 9)
}

fn read(volume: &Volume, from: u64, blocks: usize) -> Vec<u8> {
    let mut buffer = Buffer::new(blocks * 512);
    volume.read(block(from), &mut buffer).unwrap().block_wait().unwrap();
    buffer.as_vec().clone()
}

fn blocks_of(values: &[u8]) -> Vec<u8> {
    let mut bytes = Vec::new();
    for value in values {
        bytes.extend(vec![*value; 512]);
    }
    bytes
}

#[test]
fn what_was_written_is_read_back_across_sub_volumes() {
    let mut volume = Volume::new(512);
    volume.add_subvolume(disk(1024)).unwrap();
    volume.add_subvolume(disk(512)).unwrap();
    volume.add_subvolume(disk(2048)).unwrap();

    // blocks 1 to 5: the end of the first sub-volume, the second whole,
    // and most of the third
    let data: Vec<u8> = (0..5 * 512).map(|i| (i % 253) as u8 + 1).collect();
    volume.write(block(1), &data).unwrap().block_wait().unwrap();

    assert_eq!(read(&volume, 1, 5), data);

    let mut expected = vec![0; 512];
    expected.extend(data.clone());
    expected.extend(vec![0; 512]);
    assert_eq!(read(&volume, 0, 7), expected);
}

#[test]
fn what_was_written_is_read_back_over_a_parent() {
    let mut parent = disk(2048);
    parent.write(block(0), &vec![80; 2048]).unwrap().block_wait().unwrap();

    let mut volume = Volume::new(512);
    volume.add_subvolume(disk(1024)).unwrap();
    volume.add_subvolume(disk(3072)).unwrap();
    volume.add_read_only_parent(parent).unwrap();

    let data: Vec<u8> = (0..6 * 512).map(|i| (i % 199) as u8).collect();
    volume.write(block(1), &data).unwrap().block_wait().unwrap();
    assert_eq!(read(&volume, 1, 6), data);
}

#[test]
fn the_parent_shows_where_nothing_was_written() {
    let mut parent = disk(2048);
    parent.write(block(0), &vec![80; 2048]).unwrap().block_wait().unwrap();

    let mut volume = Volume::new(512);
    volume.add_subvolume(disk(1024)).unwrap();
    volume.add_subvolume(disk(3072)).unwrap();
    volume.add_read_only_parent(parent).unwrap();

    // the parent reaches four of eight blocks
    assert_eq!(read(&volume, 0, 8), blocks_of(&[80, 80, 80, 80, 0, 0, 0, 0]));
    assert_eq!(read(&volume, 1, 2), blocks_of(&[80, 80]));
    assert_eq!(read(&volume, 3, 2), blocks_of(&[80, 0]));

    // a write over the end of the first sub-volume and the start of the
    // second, within the parent
    volume.write(block(1), &blocks_of(&[5, 5])).unwrap().block_wait().unwrap();
    assert_eq!(read(&volume, 0, 8), blocks_of(&[80, 5, 5, 80, 0, 0, 0, 0]));

    // a write past what the parent reaches, in a sub-volume that the
    // parent reaches in part
    volume.write(block(5), &blocks_of(&[6, 6])).unwrap().block_wait().unwrap();
    assert_eq!(read(&volume, 0, 8), blocks_of(&[80, 5, 5, 80, 0, 6, 6, 0]));
    assert_eq!(read(&volume, 3, 3), blocks_of(&[80, 0, 6]));

    // without the parent, the sub-volumes show what they hold themselves
    let parent = volume.remove_read_only_parent().unwrap();
    assert_eq!(parent.lba_range, 0..4);
    assert_eq!(read(&volume, 0, 8), blocks_of(&[0, 5, 5, 0, 0, 6, 6, 0]));
}

#[test]
fn zeros_written_over_the_parent_stay_zeros() {
    let mut parent = disk(1024);
    parent.write(block(0), &vec![80; 1024]).unwrap().block_wait().unwrap();

    let mut volume = Volume::new(512);
    volume.add_subvolume(disk(1024)).unwrap();
    volume.add_read_only_parent(parent).unwrap();

    volume.write(block(0), &vec![0; 512]).unwrap().block_wait().unwrap();
    assert_eq!(read(&volume, 0, 2), blocks_of(&[0, 80]));
}

#[test]
fn a_volume_within_a_volume_shows_what_it_owns() {
    // the inner volume has its own parent
    let mut inner_parent = disk(1024);
    inner_parent.write(block(0), &vec![1; 512]).unwrap().block_wait().unwrap();
    let mut inner = Volume::new(512);
    inner.add_subvolume(disk(2048)).unwrap();
    inner.add_read_only_parent(inner_parent).unwrap();
    inner.write(block(1), &blocks_of(&[2])).unwrap().block_wait().unwrap();

    // the outer parent holds nines
    let mut outer_parent = disk(2048);
    outer_parent.write(block(0), &vec![9; 2048]).unwrap().block_wait().unwrap();
    let mut outer = Volume::new(512);
    outer.add_subvolume(Box::new(inner)).unwrap();
    outer.add_subvolume(disk(1024)).unwrap();
    outer.add_read_only_parent(outer_parent).unwrap();

    // block 0: written in the inner parent; block 1: written in the inner
    // volume; blocks 2 and 3: written nowhere within, so the outer parent
    // shows; blocks 4 and 5: past the outer parent
    assert_eq!(read(&outer, 0, 6), blocks_of(&[1, 2, 9, 9, 0, 0]));

    // a write through the outer volume lands in the inner one
    outer.write(block(2), &blocks_of(&[3, 3, 3])).unwrap().block_wait().unwrap();
    assert_eq!(read(&outer, 0, 6), blocks_of(&[1, 2, 3, 3, 3, 0]));

    let mut buffer = Buffer::new(6 * 512);
    outer.read(block(0), &mut buffer).unwrap().block_wait().unwrap();
    let owned: Vec<bool> = (0..6).map(|b| buffer.owned_vec()[b * 512]).collect();
    assert_eq!(owned, vec![true, true, true, true, true, false]);
}

#[test]
fn a_read_reports_what_is_owned() {
    let mut parent = disk(1024);
    parent.write(block(1), &vec![80; 512]).unwrap().block_wait().unwrap();

    let mut volume = Volume::new(512);
    volume.add_subvolume(disk(2048)).unwrap();
    volume.add_read_only_parent(parent).unwrap();
    volume.write(block(2), &vec![7; 512]).unwrap().block_wait().unwrap();

    let mut buffer = Buffer::new(2048);
    // the flags of an earlier read do not stay
    buffer.set(0, 1, true);
    volume.read(block(0), &mut buffer).unwrap().block_wait().unwrap();
    assert_eq!(*buffer.as_vec(), blocks_of(&[0, 80, 7, 0]));
    let owned: Vec<bool> = (0..4).map(|b| buffer.owned_vec()[b * 512]).collect();
    assert_eq!(owned, vec![false, true, true, false]);
}

#[test]
fn merge_takes_each_block_from_one_side() {
    let mut own = Buffer::new(6);
    own.store(2, &[1, 1]);
    let mut under = Buffer::new(4);
    under.store(0, &[9, 9, 9, 9]);

    // blocks of two bytes: the first from under, the second from own,
    // the third from own, which under does not reach
    let mut data = Buffer::new(8);
    merge_blocks(&mut data, 1, &own, &under, 2);
    assert_eq!(*data.as_vec(), vec![0, 9, 9, 1, 1, 0, 0, 0]);
    assert_eq!(
        *data.owned_vec(),
        vec![false, true, true, true, true, false, false, false]
    );

    // a block is taken whole by its first byte
    let mut own = Buffer::new(4);
    own.set(0, 5, true);
    own.set(3, 6, true);
    let mut data = Buffer::new(4);
    merge_blocks(&mut data, 0, &own, &under, 2);
    assert_eq!(*data.as_vec(), vec![5, 0, 9, 9]);
}
