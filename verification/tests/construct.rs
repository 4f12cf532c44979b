use crucible::{
    Block, BlockIO, Buffer, CrucibleError, CrucibleOpts, InMemoryBlockIO, Supplied, Volume,
    VolumeConstructionRequest,
};

fn region(block_size: u64, targets: [&str; 3]) -> VolumeConstructionRequest {
    VolumeConstructionRequest::Region {
        block_size,
        opts: CrucibleOpts {
            target: targets.iter().map(|target| format!("127.0.0.1:{}", target)).collect(),
            key: Some("key".to_string()),
            ..Default::default()
        },
        gen: 0,
    }
}

fn supplied(block_size: u64, total_size: usize) -> Supplied {
    Ok(Box::new(InMemoryBlockIO::new(block_size, total_size)))
}

#[test]
fn construct_simple_volume() {
    let request = VolumeConstructionRequest::Volume {
        block_size: 512,
        sub_volumes: vec![region(512, ["123", "456", "789"])],
        read_only_parent: None,
    };

    assert!(request.is_sized());
    assert_eq!(request.leaves().len(), 1);

    let vol = Volume::construct(request, vec![supplied(512, 4096)]).unwrap();
    assert_eq!(vol.get_block_size(), Ok(512));
    assert_eq!(vol.total_size(), Ok(4096));
}

#[test]
fn construct_snapshot_backed_vol() {
    let request = VolumeConstructionRequest::Volume {
        block_size: 512,
        sub_volumes: vec![region(512, ["123", "456", "789"])],
        read_only_parent: Some(Box::new(region(512, ["11111", "22222", "33333"]))),
    };

    let leaves = request.leaves();
    assert_eq!(leaves.len(), 2);
    match leaves[1] {
        VolumeConstructionRequest::Region { opts, .. } => {
            assert_eq!(opts.target[0], "127.0.0.1:11111");
        },
        _ => panic!("the parent comes last"),
    }

    // The parent holds sevens in its first two blocks.
    let mut parent = InMemoryBlockIO::new(512, 2048);
    parent.write(Block::new(0, 9), &vec![7; 1024]).unwrap().block_wait().unwrap();

    let mut vol = Volume::construct(request, vec![supplied(512, 4096), Ok(Box::new(parent))])
        .unwrap();
    assert_eq!(vol.total_size(), Ok(4096));

    vol.write(Block::new(1, 9), &vec![9; 512]).unwrap().block_wait().unwrap();

    let mut buffer = Buffer::new(4096);
    vol.read(Block::new(0, 9), &mut buffer).unwrap().block_wait().unwrap();
    let mut expected = vec![7; 512];
    expected.extend(vec![9; 512]);
    expected.extend(vec![0; 4096 - 1024]);
    assert_eq!(*buffer.as_vec(), expected);
}

#[test]
fn construct_read_only_iso_volume() {
    let request = VolumeConstructionRequest::Volume {
        block_size: 512,
        sub_volumes: vec![],
        read_only_parent: Some(Box::new(VolumeConstructionRequest::Url {
            block_size: 512,
            // You can boot anything as long as it's Alpine
            url: "https://fake.test/alpine.iso".to_string(),
        })),
    };

    let mut image = InMemoryBlockIO::new(512, 1024);
    image.write(Block::new(0, 9), &vec![5; 1024]).unwrap().block_wait().unwrap();

    let mut vol = Volume::construct(request, vec![Ok(Box::new(image))]).unwrap();
    assert_eq!(vol.total_size(), Ok(1024));

    let mut buffer = Buffer::new(1024);
    vol.read(Block::new(0, 9), &mut buffer).unwrap().block_wait().unwrap();
    assert_eq!(*buffer.as_vec(), vec![5; 1024]);

    // A volume that has only a parent takes no write.
    assert!(matches!(
        vol.write(Block::new(0, 9), &vec![1; 512]),
        Err(CrucibleError::CannotReceiveBlocks(_))
    ));
}

#[test]
fn construct_takes_backends_depth_first() {
    let request = VolumeConstructionRequest::Volume {
        block_size: 512,
        sub_volumes: vec![
            VolumeConstructionRequest::Volume {
                block_size: 512,
                sub_volumes: vec![region(512, ["1", "2", "3"]), region(512, ["4", "5", "6"])],
                read_only_parent: None,
            },
            region(512, ["7", "8", "9"]),
        ],
        read_only_parent: Some(Box::new(VolumeConstructionRequest::Url {
            block_size: 512,
            url: "https://fake.test/base.img".to_string(),
        })),
    };

    let leaves = request.leaves();
    assert_eq!(leaves.len(), 4);
    assert!(matches!(leaves[0], VolumeConstructionRequest::Region { .. }));
    assert!(matches!(leaves[2], VolumeConstructionRequest::Region { .. }));
    assert!(matches!(leaves[3], VolumeConstructionRequest::Url { .. }));

    let vol = Volume::construct(
        request,
        vec![supplied(512, 1024), supplied(512, 2048), supplied(512, 512), supplied(512, 512)],
    )
    .unwrap();

    // 2 + 4 blocks in the nested volume, 1 block after it; the parent
    // does not count.
    assert_eq!(vol.total_size(), Ok(7 * 512));
    assert_eq!(vol.sub_volumes_for_lba_range(0, 7).len(), 2);
    assert_eq!(vol.sub_volumes_for_lba_range(0, 7)[0].0, 0..6);
    assert_eq!(vol.sub_volumes_for_lba_range(0, 7)[1].0, 6..7);
    assert_eq!(vol.read_only_parent_for_lba_range(0, 7), Some(0..1));
}

#[test]
fn construct_of_nothing_is_an_empty_volume() {
    let request = VolumeConstructionRequest::Volume {
        block_size: 512,
        sub_volumes: vec![],
        read_only_parent: None,
    };

    assert_eq!(request.leaves().len(), 0);

    let vol = Volume::construct(request, vec![]).unwrap();
    assert_eq!(vol.total_size(), Ok(0));

    let mut buffer = Buffer::new(512);
    assert!(matches!(
        vol.read(Block::new(0, 9), &mut buffer),
        Err(CrucibleError::CannotServeBlocks(_))
    ));
}

#[test]
fn construct_rejects_a_sub_volume_of_another_block_size() {
    let request = VolumeConstructionRequest::Volume {
        block_size: 512,
        sub_volumes: vec![region(512, ["1", "2", "3"]), region(4096, ["4", "5", "6"])],
        read_only_parent: None,
    };

    let r = Volume::construct(request, vec![supplied(512, 4096), supplied(4096, 8192)]);
    assert_eq!(r.err(), Some(CrucibleError::BlockSizeMismatch));
}

#[test]
fn construct_rejects_a_backend_of_another_block_size() {
    let request = VolumeConstructionRequest::Url {
        block_size: 512,
        url: "https://fake.test/base.img".to_string(),
    };

    let r = Volume::construct(request, vec![supplied(4096, 8192)]);
    assert_eq!(r.err(), Some(CrucibleError::BlockSizeMismatch));
}

#[test]
fn construct_rejects_a_parent_of_another_block_size() {
    let request = VolumeConstructionRequest::Volume {
        block_size: 512,
        sub_volumes: vec![region(512, ["1", "2", "3"])],
        read_only_parent: Some(Box::new(region(4096, ["4", "5", "6"]))),
    };

    let r = Volume::construct(request, vec![supplied(512, 4096), supplied(4096, 8192)]);
    assert_eq!(r.err(), Some(CrucibleError::BlockSizeMismatch));
}

#[test]
fn construct_returns_the_error_supplied_for_a_backend() {
    let request = VolumeConstructionRequest::Volume {
        block_size: 512,
        sub_volumes: vec![region(512, ["1", "2", "3"]), region(512, ["4", "5", "6"])],
        read_only_parent: None,
    };

    let r = Volume::construct(
        request,
        vec![supplied(512, 4096), Err(CrucibleError::IoError("no route".to_string()))],
    );
    assert_eq!(r.err(), Some(CrucibleError::IoError("no route".to_string())));
}

#[test]
fn construct_fails_first_where_it_comes_first() {
    // The first sub-volume has the wrong block size, the second could not
    // be opened: the mismatch comes first.
    let request = VolumeConstructionRequest::Volume {
        block_size: 512,
        sub_volumes: vec![region(4096, ["1", "2", "3"]), region(512, ["4", "5", "6"])],
        read_only_parent: None,
    };

    let r = Volume::construct(
        request,
        vec![supplied(4096, 4096), Err(CrucibleError::IoError("no route".to_string()))],
    );
    assert_eq!(r.err(), Some(CrucibleError::BlockSizeMismatch));
}

#[test]
fn construct_misses_a_backend() {
    let request = VolumeConstructionRequest::Volume {
        block_size: 512,
        sub_volumes: vec![region(512, ["1", "2", "3"]), region(512, ["4", "5", "6"])],
        read_only_parent: None,
    };

    let r = Volume::construct(request, vec![supplied(512, 4096)]);
    assert!(matches!(r, Err(CrucibleError::GenericError(_))));
}

#[test]
fn request_with_a_zero_block_size_is_not_sized() {
    let request = VolumeConstructionRequest::Volume {
        block_size: 512,
        sub_volumes: vec![region(512, ["1", "2", "3"]), region(0, ["4", "5", "6"])],
        read_only_parent: None,
    };
    assert!(!request.is_sized());
    assert_eq!(request.block_size(), 512);

    let request = VolumeConstructionRequest::Volume {
        block_size: 0,
        sub_volumes: vec![],
        read_only_parent: None,
    };
    assert!(!request.is_sized());
}
