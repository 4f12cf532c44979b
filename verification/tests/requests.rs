use crucible::{
    Block, BlockIO, BlockReqWaiter, Buffer, CrucibleError, InMemoryBlockIO, SnapshotDetails,
    SubVolume, Volume,
};

fn disk(total_size: usize) -> Box<InMemoryBlockIO> {
    Box::new(InMemoryBlockIO::new(512, total_size))
}

fn block(value: u64) -> Block {
    Block::new(value, 9)
}

fn three_by_512() -> Volume {
    let mut volume = Volume::new(512);
    for _ in 0..3 {
        volume.add_subvolume(disk(512 * 512)).unwrap();
    }
    volume
}

#[test]
fn coverage_of_a_request_that_ends_where_the_range_ends() {
    let sub_volume = SubVolume { lba_range: 1024..2048, block_io: disk(0) };

    // from before the range to its last block
    assert_eq!(sub_volume.lba_range_coverage(512, 1536), Some(1024..2048));
    // from before the range to one block past it
    assert_eq!(sub_volume.lba_range_coverage(512, 1537), Some(1024..2048));
    // to one block short of its end
    assert_eq!(sub_volume.lba_range_coverage(512, 1535), Some(1024..2047));
    // the last block before the range
    assert_eq!(sub_volume.lba_range_coverage(1023, 1), None);
    // the first block of the range
    assert_eq!(sub_volume.lba_range_coverage(1023, 2), Some(1024..1025));
}

#[test]
fn coverage_of_an_empty_range_is_nothing() {
    let sub_volume = SubVolume { lba_range: 100..100, block_io: disk(0) };
    assert_eq!(sub_volume.lba_range_coverage(0, 1000), None);
    assert_eq!(sub_volume.lba_range_coverage(100, 1), None);
    assert_eq!(sub_volume.lba_range_coverage(99, 2), None);
}

#[test]
fn coverage_of_requests_at_the_end_of_the_address_space() {
    let sub_volume = SubVolume { lba_range: 1024..u64::MAX, block_io: disk(0) };
    assert_eq!(sub_volume.lba_range_coverage(0, u64::MAX), Some(1024..u64::MAX));
    assert_eq!(sub_volume.lba_range_coverage(u64::MAX, 1), None);
    assert_eq!(sub_volume.lba_range_coverage(u64::MAX - 1, u64::MAX), Some(u64::MAX - 1..u64::MAX));
    assert_eq!(sub_volume.lba_range_coverage(2000, u64::MAX), Some(2000..u64::MAX));
}

#[test]
fn sub_volume_lba_is_the_distance_from_the_start_of_the_range() {
    let sub_volume = SubVolume { lba_range: 1024..2048, block_io: disk(0) };
    assert_eq!(sub_volume.compute_sub_volume_lba(1234), 210);
    assert_eq!(sub_volume.compute_sub_volume_lba(1024), 0);
    assert_eq!(sub_volume.compute_sub_volume_lba(2047), 1023);
}

#[test]
fn a_request_for_everything_touches_every_sub_volume_whole() {
    let volume = three_by_512();
    let touched = volume.sub_volumes_for_lba_range(0, 1536);
    assert_eq!(touched.len(), 3);
    assert_eq!(touched[0].0, 0..512);
    assert_eq!(touched[1].0, 512..1024);
    assert_eq!(touched[2].0, 1024..1536);
    for (covered, sub_volume) in touched {
        assert_eq!(covered, sub_volume.lba_range);
    }
}

#[test]
fn the_parts_of_a_request_follow_one_another() {
    let volume = three_by_512();
    let touched = volume.sub_volumes_for_lba_range(256, 256 + 512 + 256);
    assert_eq!(touched.len(), 3);
    assert_eq!(touched[0].0, 256..512);
    assert_eq!(touched[1].0, 512..1024);
    assert_eq!(touched[2].0, 1024..1280);
    assert_eq!(touched[0].1.lba_range, 0..512);
    assert_eq!(touched[2].1.lba_range, 1024..1536);

    // a request past the end touches only what is there
    let touched = volume.sub_volumes_for_lba_range(1500, 100);
    assert_eq!(touched.len(), 1);
    assert_eq!(touched[0].0, 1500..1536);
    assert_eq!(volume.sub_volumes_for_lba_range(1536, 1).len(), 0);
}

#[test]
fn total_size_is_block_size_times_blocks() {
    let mut volume = Volume::new(4096);
    assert_eq!(volume.total_size(), Ok(0));
    assert_eq!(volume.get_block_size(), Ok(4096));

    // only a parent: its size
    volume.add_read_only_parent(Box::new(InMemoryBlockIO::new(4096, 3 * 4096))).unwrap();
    assert_eq!(volume.total_size(), Ok(3 * 4096));

    // sub-volumes: theirs, whatever the parent holds
    volume.add_subvolume(Box::new(InMemoryBlockIO::new(4096, 4096))).unwrap();
    assert_eq!(volume.total_size(), Ok(4096));
    volume.add_subvolume(Box::new(InMemoryBlockIO::new(4096, 5 * 4096))).unwrap();
    assert_eq!(volume.total_size(), Ok(6 * 4096));

    // a backend holds whole blocks only as far as the volume goes
    volume.add_subvolume(Box::new(InMemoryBlockIO::new(4096, 4096 + 100))).unwrap();
    assert_eq!(volume.total_size(), Ok(7 * 4096));
}

#[test]
fn from_guest_takes_the_guest_whole() {
    let guest = Box::new(InMemoryBlockIO::new(512, 10 * 512));
    let id = guest.get_uuid().unwrap();
    let volume = Volume::from_guest(guest).unwrap();
    assert_eq!(volume.get_uuid(), Ok(id));
    assert_eq!(volume.get_block_size(), Ok(512));
    assert_eq!(volume.total_size(), Ok(10 * 512));
    let touched = volume.sub_volumes_for_lba_range(0, 10);
    assert_eq!(touched.len(), 1);
    assert_eq!(touched[0].0, 0..10);
    assert!(volume.read_only_parent_for_lba_range(0, 10).is_none());
}

#[test]
fn volumes_are_told_apart() {
    let one = Volume::new(512);
    let other = Volume::new(512);
    assert_ne!(one.get_uuid(), other.get_uuid());
}

#[test]
fn a_backend_of_another_block_size_is_refused() {
    let mut volume = Volume::new(512);
    assert_eq!(
        volume.add_subvolume(Box::new(InMemoryBlockIO::new(4096, 8192))),
        Err(CrucibleError::BlockSizeMismatch)
    );
    assert_eq!(
        volume.add_read_only_parent(Box::new(InMemoryBlockIO::new(4096, 8192))),
        Err(CrucibleError::BlockSizeMismatch)
    );
    assert_eq!(volume.total_size(), Ok(0));
    assert!(volume.remove_read_only_parent().is_none());
}

#[test]
fn a_volume_of_nothing_serves_no_read() {
    let volume = Volume::new(512);
    let mut buffer = Buffer::new(512);
    assert!(matches!(
        volume.read(block(0), &mut buffer),
        Err(CrucibleError::CannotServeBlocks(_))
    ));
}

#[test]
fn a_volume_without_sub_volumes_takes_no_write() {
    let mut volume = Volume::new(512);
    assert!(matches!(
        volume.write(block(0), &vec![1; 512]),
        Err(CrucibleError::CannotReceiveBlocks(_))
    ));

    volume.add_read_only_parent(disk(2048)).unwrap();
    assert!(matches!(
        volume.write(block(0), &vec![1; 512]),
        Err(CrucibleError::CannotReceiveBlocks(_))
    ));

    // and the parent was not written
    let mut buffer = Buffer::new(2048);
    volume.read(block(0), &mut buffer).unwrap().block_wait().unwrap();
    assert_eq!(*buffer.as_vec(), vec![0; 2048]);
}

#[test]
fn requests_that_are_no_whole_blocks_are_refused() {
    let mut volume = Volume::new(512);
    volume.add_subvolume(disk(2048)).unwrap();

    let mut buffer = Buffer::new(100);
    assert_eq!(volume.read(block(0), &mut buffer).err(), Some(CrucibleError::DataLenUnaligned));
    assert_eq!(volume.write(block(0), &vec![1; 513]).err(), Some(CrucibleError::DataLenUnaligned));
}

#[test]
fn requests_past_the_end_are_refused() {
    let mut volume = Volume::new(512);
    volume.add_subvolume(disk(1024)).unwrap();
    volume.add_subvolume(disk(1024)).unwrap();

    let mut buffer = Buffer::new(1024);
    assert_eq!(volume.read(block(3), &mut buffer).err(), Some(CrucibleError::OffsetInvalid));
    assert_eq!(volume.read(block(5), &mut buffer).err(), Some(CrucibleError::OffsetInvalid));
    assert_eq!(volume.write(block(3), &vec![1; 1024]).err(), Some(CrucibleError::OffsetInvalid));
    assert_eq!(
        volume.write(block(u64::MAX), &vec![1; 512]).err(),
        Some(CrucibleError::OffsetInvalid)
    );

    // nothing was written
    let mut buffer = Buffer::new(2048);
    volume.read(block(0), &mut buffer).unwrap().block_wait().unwrap();
    assert_eq!(*buffer.as_vec(), vec![0; 2048]);

    // the last block is within
    let mut buffer = Buffer::new(512);
    volume.read(block(3), &mut buffer).unwrap().block_wait().unwrap();
}

#[test]
fn a_parent_only_volume_checks_requests_too() {
    let mut volume = Volume::new(512);
    volume.add_read_only_parent(disk(1024)).unwrap();

    let mut buffer = Buffer::new(100);
    assert_eq!(volume.read(block(0), &mut buffer).err(), Some(CrucibleError::DataLenUnaligned));
    let mut buffer = Buffer::new(1024);
    assert_eq!(volume.read(block(1), &mut buffer).err(), Some(CrucibleError::OffsetInvalid));
}

#[test]
fn a_disk_refuses_what_lies_past_its_end() {
    let mut disk = InMemoryBlockIO::new(512, 1024);
    let mut buffer = Buffer::new(1024);
    assert_eq!(disk.read(block(1), &mut buffer).err(), Some(CrucibleError::OffsetInvalid));
    assert_eq!(disk.write(block(2), &[1]).err(), Some(CrucibleError::OffsetInvalid));
    assert_eq!(disk.write(block(u64::MAX), &[1]).err(), Some(CrucibleError::OffsetInvalid));
    // the last byte is within, whatever the length of a request
    disk.write(block(1), &vec![1; 512]).unwrap().block_wait().unwrap();
    let mut buffer = Buffer::new(3);
    disk.read(block(1), &mut buffer).unwrap().block_wait().unwrap();
    assert_eq!(*buffer.as_vec(), vec![1; 3]);
    assert_eq!(*buffer.owned_vec(), vec![true; 3]);
    assert_eq!(disk.total_size(), Ok(1024));
    assert_eq!(disk.query_is_active(), Ok(true));
}

#[test]
fn activation_holds_each_backend_against_its_range() {
    let mut volume = Volume::new(512);
    volume.add_subvolume(disk(1024)).unwrap();
    volume.add_read_only_parent(disk(1024)).unwrap();
    assert_eq!(volume.activate(0), Ok(()));
    assert_eq!(volume.query_is_active(), Ok(true));

    // a backend with half a block more than its range
    volume.add_subvolume(disk(1024 + 256)).unwrap();
    assert_eq!(volume.activate(0), Err(CrucibleError::SubvolumeSizeMismatch));
    assert_eq!(volume.total_size(), Ok(4 * 512));
}

#[test]
fn flush_and_queue_depths() {
    let mut volume = Volume::new(512);
    volume.add_subvolume(disk(1024)).unwrap();
    volume.add_subvolume(disk(1024)).unwrap();
    volume.add_read_only_parent(disk(1024)).unwrap();

    volume.flush(None).unwrap().block_wait().unwrap();
    volume
        .flush(Some(SnapshotDetails { snapshot_name: "now".to_string() }))
        .unwrap()
        .block_wait()
        .unwrap();

    let counts = volume.show_work().unwrap();
    assert_eq!((counts.up_count, counts.ds_count), (0, 0));
}

#[test]
fn a_sub_volume_is_its_backend() {
    let mut sub_volume = SubVolume { lba_range: 0..4, block_io: disk(2048) };
    assert_eq!(sub_volume.total_size(), Ok(2048));
    assert_eq!(sub_volume.get_block_size(), Ok(512));
    assert_eq!(sub_volume.get_uuid(), sub_volume.block_io.get_uuid());
    assert_eq!(sub_volume.activate(0), Ok(()));
    assert_eq!(sub_volume.conditional_activate(0), Ok(()));
    assert_eq!(sub_volume.query_is_active(), Ok(true));
    sub_volume.write(block(1), &vec![6; 512]).unwrap().block_wait().unwrap();
    let mut buffer = Buffer::new(1024);
    sub_volume.read(block(0), &mut buffer).unwrap().block_wait().unwrap();
    let mut expected = vec![0; 512];
    expected.extend(vec![6; 512]);
    assert_eq!(*buffer.as_vec(), expected);
    sub_volume.flush(None).unwrap().block_wait().unwrap();
    assert_eq!(sub_volume.show_work().unwrap().up_count, 0);
}

#[test]
fn a_waiter_hands_out_how_the_request_ended() {
    let mut waiter = BlockReqWaiter::immediate().unwrap();
    assert_eq!(waiter.block_wait(), Ok(()));

    let mut waiter = BlockReqWaiter::new(Err(CrucibleError::OffsetInvalid));
    assert_eq!(waiter.block_wait(), Err(CrucibleError::OffsetInvalid));
    // a second wait has nothing left to report
    assert_eq!(waiter.block_wait(), Ok(()));
}

#[test]
fn buffers_hold_bytes_and_flags() {
    let mut buffer = Buffer::new(4);
    assert_eq!(buffer.len(), 4);
    assert!(!buffer.is_empty());
    assert!(Buffer::new(0).is_empty());
    assert_eq!(*buffer.as_vec(), vec![0; 4]);
    assert_eq!(*buffer.owned_vec(), vec![false; 4]);

    buffer.set(1, 7, true);
    buffer.set_value(2, 9);
    assert_eq!(buffer.get(1), (7, true));
    assert_eq!(buffer.get(2), (9, false));

    buffer.store(2, &[3, 4]);
    assert_eq!(*buffer.as_vec(), vec![0, 7, 3, 4]);
    assert_eq!(*buffer.owned_vec(), vec![false, true, true, true]);

    let mut other = Buffer::from_vec(vec![1, 1, 1, 1, 1]);
    assert_eq!(*other.owned_vec(), vec![false; 5]);
    other.copy_from(1, &buffer, 0, 3);
    assert_eq!(*other.as_vec(), vec![1, 0, 7, 3, 1]);
    assert_eq!(*other.owned_vec(), vec![false, false, true, true, false]);
}

#[test]
fn parts_join_a_volume_as_backends_do() {
    let mut disk = InMemoryBlockIO::new(512, 1024);
    disk.write(block(1), &vec![3; 512]).unwrap().block_wait().unwrap();

    let mut inner = Volume::new(512);
    let part = disk.into_part();
    assert_eq!(part.lba_range, 0..0);
    inner.append(part).unwrap();
    assert_eq!(inner.total_size(), Ok(1024));

    let mut outer = Volume::new(512);
    outer.append(InMemoryBlockIO::new(512, 512).into_part()).unwrap();
    outer.append(inner.into_part()).unwrap();
    outer.install(InMemoryBlockIO::new(512, 512).into_part()).unwrap();
    assert_eq!(outer.total_size(), Ok(1536));
    assert_eq!(outer.sub_volumes_for_lba_range(0, 3)[1].0, 1..3);
    assert_eq!(outer.read_only_parent_for_lba_range(0, 3), Some(0..1));

    let mut buffer = Buffer::new(1536);
    outer.read(block(0), &mut buffer).unwrap().block_wait().unwrap();
    let mut expected = vec![0; 1024];
    expected.extend(vec![3; 512]);
    assert_eq!(*buffer.as_vec(), expected);

    assert_eq!(
        outer.append(InMemoryBlockIO::new(4096, 4096).into_part()),
        Err(CrucibleError::BlockSizeMismatch)
    );
    assert_eq!(
        outer.install(InMemoryBlockIO::new(4096, 4096).into_part()),
        Err(CrucibleError::BlockSizeMismatch)
    );
    assert_eq!(outer.total_size(), Ok(1536));
}

// A backend that notes each flush that reaches it, and fails them where
// told to.
struct Noting {
    name: &'static str,
    fails: bool,
    notes: std::rc::Rc<std::cell::RefCell<Vec<(&'static str, Option<String>)>>>,
    disk: InMemoryBlockIO,
}

impl BlockIO for Noting {
    fn activate(&mut self, gen: u64) -> Result<(), CrucibleError> {
        self.disk.activate(gen)
    }

    fn query_is_active(&self) -> Result<bool, CrucibleError> {
        self.disk.query_is_active()
    }

    fn total_size(&self) -> Result<u64, CrucibleError> {
        self.disk.total_size()
    }

    fn get_block_size(&self) -> Result<u64, CrucibleError> {
        self.disk.get_block_size()
    }

    fn get_uuid(&self) -> Result<uuid::Uuid, CrucibleError> {
        self.disk.get_uuid()
    }

    fn read(&self, offset: Block, data: &mut Buffer) -> Result<BlockReqWaiter, CrucibleError> {
        self.disk.read(offset, data)
    }

    fn write(&mut self, offset: Block, data: &[u8]) -> Result<BlockReqWaiter, CrucibleError> {
        self.disk.write(offset, data)
    }

    fn flush(
        &mut self,
        snapshot_details: Option<SnapshotDetails>,
    ) -> Result<BlockReqWaiter, CrucibleError> {
        if self.fails {
            return Ok(BlockReqWaiter::new(Err(CrucibleError::IoError(self.name.to_string()))));
        }
        self.notes.borrow_mut().push((self.name, snapshot_details.map(|d| d.snapshot_name)));
        self.disk.flush(None)
    }

    fn show_work(&self) -> Result<crucible::WQCounts, CrucibleError> {
        Ok(crucible::WQCounts { up_count: 2, ds_count: 3 })
    }
}

#[test]
fn a_flush_reaches_every_sub_volume_in_order_and_not_the_parent() {
    let notes = std::rc::Rc::new(std::cell::RefCell::new(Vec::new()));
    let noting = |name, fails| {
        Box::new(Noting { name, fails, notes: notes.clone(), disk: InMemoryBlockIO::new(512, 512) })
    };

    let mut volume = Volume::new(512);
    volume.add_subvolume(noting("first", false)).unwrap();
    volume.add_subvolume(noting("second", false)).unwrap();
    volume.add_read_only_parent(noting("parent", false)).unwrap();

    volume.flush(None).unwrap().block_wait().unwrap();
    volume
        .flush(Some(SnapshotDetails { snapshot_name: "now".to_string() }))
        .unwrap()
        .block_wait()
        .unwrap();

    assert_eq!(
        *notes.borrow(),
        vec![
            ("first", None),
            ("second", None),
            ("first", Some("now".to_string())),
            ("second", Some("now".to_string())),
        ]
    );

    // the queue depths of all three add up
    let counts = volume.show_work().unwrap();
    assert_eq!((counts.up_count, counts.ds_count), (6, 9));
}

#[test]
fn a_flush_stops_at_the_first_sub_volume_that_fails() {
    let notes = std::rc::Rc::new(std::cell::RefCell::new(Vec::new()));
    let noting = |name, fails| {
        Box::new(Noting { name, fails, notes: notes.clone(), disk: InMemoryBlockIO::new(512, 512) })
    };

    let mut volume = Volume::new(512);
    volume.add_subvolume(noting("first", false)).unwrap();
    volume.add_subvolume(noting("second", true)).unwrap();
    volume.add_subvolume(noting("third", false)).unwrap();

    assert_eq!(
        volume.flush(Some(SnapshotDetails { snapshot_name: "now".to_string() })).err(),
        Some(CrucibleError::IoError("second".to_string()))
    );
    assert_eq!(*notes.borrow(), vec![("first", Some("now".to_string()))]);
}

#[test]
fn requests_of_no_bytes_are_refused() {
    let mut volume = Volume::new(512);
    volume.add_subvolume(disk(1024)).unwrap();

    let mut buffer = Buffer::new(0);
    assert_eq!(volume.read(block(0), &mut buffer).err(), Some(CrucibleError::DataLenUnaligned));
    assert_eq!(volume.write(block(0), &[]).err(), Some(CrucibleError::DataLenUnaligned));

    let mut parent_only = Volume::new(512);
    parent_only.add_read_only_parent(disk(1024)).unwrap();
    assert_eq!(
        parent_only.read(block(0), &mut buffer).err(),
        Some(CrucibleError::DataLenUnaligned)
    );
}

#[test]
fn a_backend_larger_than_its_range_answers_all_the_same() {
    // half a block more than the two blocks of its range
    let mut volume = Volume::new(512);
    volume.add_subvolume(disk(1024 + 256)).unwrap();
    volume.add_read_only_parent(disk(512 + 100)).unwrap();

    assert_eq!(volume.query_is_active(), Ok(true));
    let counts = volume.show_work().unwrap();
    assert_eq!((counts.up_count, counts.ds_count), (0, 0));
    assert_eq!(volume.total_size(), Ok(1024));

    // a volume of nothing is active, and idle
    let empty = Volume::new(512);
    assert_eq!(empty.query_is_active(), Ok(true));
    assert_eq!(empty.show_work().unwrap().up_count, 0);
}

// A backend that counts the activations that reach it, and is active
// from the first on.
struct Counting {
    activations: std::rc::Rc<std::cell::Cell<usize>>,
    active: bool,
    disk: InMemoryBlockIO,
}

impl BlockIO for Counting {
    fn activate(&mut self, _gen: u64) -> Result<(), CrucibleError> {
        self.activations.set(self.activations.get() + 1);
        self.active = true;
        Ok(())
    }

    fn query_is_active(&self) -> Result<bool, CrucibleError> {
        Ok(self.active)
    }

    fn total_size(&self) -> Result<u64, CrucibleError> {
        self.disk.total_size()
    }

    fn get_block_size(&self) -> Result<u64, CrucibleError> {
        self.disk.get_block_size()
    }

    fn get_uuid(&self) -> Result<uuid::Uuid, CrucibleError> {
        self.disk.get_uuid()
    }

    fn read(&self, offset: Block, data: &mut Buffer) -> Result<BlockReqWaiter, CrucibleError> {
        self.disk.read(offset, data)
    }

    fn write(&mut self, offset: Block, data: &[u8]) -> Result<BlockReqWaiter, CrucibleError> {
        self.disk.write(offset, data)
    }

    fn flush(
        &mut self,
        snapshot_details: Option<SnapshotDetails>,
    ) -> Result<BlockReqWaiter, CrucibleError> {
        self.disk.flush(snapshot_details)
    }

    fn show_work(&self) -> Result<crucible::WQCounts, CrucibleError> {
        self.disk.show_work()
    }
}

fn counting(total_size: usize) -> (Box<Counting>, std::rc::Rc<std::cell::Cell<usize>>) {
    let activations = std::rc::Rc::new(std::cell::Cell::new(0));
    let backend = Counting {
        activations: activations.clone(),
        active: false,
        disk: InMemoryBlockIO::new(512, total_size),
    };
    (Box::new(backend), activations)
}

#[test]
fn activation_reaches_each_part_once() {
    let (first, first_count) = counting(1024);
    let (parent, parent_count) = counting(512);
    let mut volume = Volume::new(512);
    volume.add_subvolume(first).unwrap();
    volume.add_read_only_parent(parent).unwrap();

    assert_eq!(volume.query_is_active(), Ok(false));
    assert_eq!(volume.activate(7), Ok(()));
    assert_eq!(volume.query_is_active(), Ok(true));
    assert_eq!((first_count.get(), parent_count.get()), (1, 1));

    // parts that are active are not activated again
    assert_eq!(volume.activate(8), Ok(()));
    assert_eq!((first_count.get(), parent_count.get()), (1, 1));
}

#[test]
fn a_sub_volume_that_does_not_fit_keeps_the_parent_from_activation() {
    let (first, first_count) = counting(1024);
    let (second, second_count) = counting(1024 + 256);
    let (third, third_count) = counting(1024);
    let (parent, parent_count) = counting(512);
    let mut volume = Volume::new(512);
    volume.add_subvolume(first).unwrap();
    volume.add_subvolume(second).unwrap();
    volume.add_subvolume(third).unwrap();
    volume.add_read_only_parent(parent).unwrap();

    assert_eq!(volume.activate(0), Err(CrucibleError::SubvolumeSizeMismatch));
    assert_eq!(
        (first_count.get(), second_count.get(), third_count.get(), parent_count.get()),
        (1, 1, 0, 0)
    );
}

#[test]
fn from_part_takes_the_backend_whole() {
    let disk = InMemoryBlockIO::new(512, 3 * 512 + 1);
    let id = disk.get_uuid().unwrap();
    let volume = Volume::from_part(disk.into_part()).unwrap();
    assert_eq!(volume.get_uuid(), Ok(id));
    assert_eq!(volume.total_size(), Ok(3 * 512));
    assert_eq!(volume.sub_volumes_for_lba_range(0, 5)[0].0, 0..3);
}
