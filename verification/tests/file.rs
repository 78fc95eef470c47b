use swarm_core::file::{get_block_ranges, Block, BlockInfo, DownloadFile, FileSpan, StoreError, BLOCK_SIZE};

const DIGEST_SIZE: usize = 20;

fn hex(text: &str) -> [u8; DIGEST_SIZE] {
    let mut out = [0u8; DIGEST_SIZE];
    for i in 0..DIGEST_SIZE {
        out[i] = u8::from_str_radix(&text[2 * i..2 * i + 2], 16).unwrap();
    }
    out
}

/// A store together with the bytes of its backing file.
struct Backed {
    file: DownloadFile,
    disk: Vec<u8>,
}

impl Backed {
    fn new(hashes: &[[u8; DIGEST_SIZE]], piece_size: usize, total_size: usize) -> Backed {
        Backed { file: DownloadFile::new(hashes, piece_size, total_size).unwrap(), disk: vec![0u8; total_size] }
    }

    /// Does what the store asks: writes the block, reads the piece back, reports.
    fn process_block(&mut self, block: Block) -> Result<(), StoreError> {
        let stored = match self.file.plan_block(&block)? {
            None => Vec::new(),
            Some(placement) => {
                let data = block.bytes();
                self.disk[placement.position..placement.position + data.len()].copy_from_slice(data);
                match placement.verify {
                    Some(span) => self.disk[span.position..span.position + span.length].to_vec(),
                    None => Vec::new(),
                }
            }
        };
        self.file.process_block(block, &stored)
    }
}

#[test]
fn get_block_ranges_test() {
    let ranges = get_block_ranges(0, 33, 10);
    assert_eq!(&ranges, &[(0..10), (10..20), (20..30), (30..33)]);
}

#[test]
fn get_block_ranges_test_current_is_end() {
    let ranges = get_block_ranges(0, 0, 10);
    assert_eq!(&ranges, &[]);
}

#[test]
fn get_block_ranges_exact_multiple_and_offset_start() {
    assert_eq!(&get_block_ranges(0, 30, 10), &[(0..10), (10..20), (20..30)]);
    assert_eq!(&get_block_ranges(5, 27, 10), &[(5..15), (15..25), (25..27)]);
    assert_eq!(&get_block_ranges(7, 3, 10), &[]);
    assert_eq!(&get_block_ranges(0, 1, 16384), &[(0..1)]);
}

#[test]
fn file_one_piece_success() {
    let data = vec![0; 1024];
    let hashes = &[hex("60cacbf3d72e1e7834203da608037b1bf83b40e8")];

    let mut file = Backed::new(hashes, 1024, data.len());

    let block = Block::new(0, 0, &data[..]);

    file.process_block(block).unwrap();
    assert!(file.file.piece_is_complete(0).unwrap());

    // check file contents
    assert_eq!(file.disk, data);
    assert_eq!(file.file.left(), 0);
    assert_eq!(file.file.bitfield(), &[0x80]);
}

#[test]
fn file_one_piece_badhash() {
    let data = vec![1; 1024];
    let hashes = &[hex("60cacbf3d72e1e7834203da608037b1bf83b40e8")];

    let mut file = Backed::new(hashes, 1024, data.len());

    let block = Block::new(0, 0, &data[..]);

    file.process_block(block).unwrap();
    assert!(!file.file.piece_is_complete(0).unwrap());
    // the piece is open again, with all its blocks missing
    assert_eq!(file.file.get_unfilled(0).unwrap(), &[0..1024]);
    assert_eq!(file.file.left(), 1024);
    assert_eq!(file.file.bitfield(), &[0x00]);
}

#[test]
fn file_one_piece_badhash_then_success() {
    let data = vec![1; 1024];
    let hashes = &[hex("60cacbf3d72e1e7834203da608037b1bf83b40e8")];

    let mut file = Backed::new(hashes, 1024, data.len());

    let block = Block::new(0, 0, &data[..]);
    file.process_block(block).unwrap();
    assert!(!file.file.piece_is_complete(0).unwrap());

    let data_good = vec![0; 1024];
    let block = Block::new(0, 0, &data_good[..]);
    file.process_block(block).unwrap();

    assert!(file.file.piece_is_complete(0).unwrap());

    // check file contents
    assert_eq!(file.disk, data_good);
}

#[test]
fn file_two_piece_partial_success() {
    let data1 = vec![0; BLOCK_SIZE * 2];
    let data2 = vec![1; BLOCK_SIZE * 2];
    let hashes = &[
        hex("5188431849b4613152fd7bdba6a3ff0a4fd6424b"),
        hex("d3a26f5cc20679c826302154ccd89edd238cfaca"),
    ];

    let mut file = Backed::new(hashes, BLOCK_SIZE * 2, BLOCK_SIZE * 4);

    let (data1_0, data1_1) = data1.split_at(BLOCK_SIZE);
    let (data2_0, data2_1) = data2.split_at(BLOCK_SIZE);

    let block1_0 = Block::new(0, 0, &data1_0[..]);
    let block1_1 = Block::new(0, BLOCK_SIZE, &data1_1[..]);
    let block2_0 = Block::new(1, 0, &data2_0[..]);
    let block2_1 = Block::new(1, BLOCK_SIZE, &data2_1[..]);

    file.process_block(block1_0).unwrap();
    file.process_block(block1_1).unwrap();
    file.process_block(block2_0).unwrap();
    assert!(file.file.piece_is_complete(0).unwrap());
    assert!(!file.file.piece_is_complete(1).unwrap());
    file.process_block(block2_1).unwrap();
    println!("{:?}", file.file.get_unfilled(1));
    assert!(file.file.piece_is_complete(0).unwrap());
    assert!(file.file.piece_is_complete(1).unwrap());

    // check file contents
    assert_eq!(file.disk[..BLOCK_SIZE * 2], data1);
    assert_eq!(file.disk[BLOCK_SIZE * 2..], data2);
}

#[test]
fn file_one_piece_irregular_size_success() {
    let data = vec![0; 727];
    let hashes = &[hex("baa70378f8c072730b9d16869f32a65b7e5d8237")];

    let mut file = Backed::new(hashes, 727, data.len());
    assert_eq!(file.file.get_unfilled(0).unwrap(), &[0..727]);

    let block = Block::new(0, 0, &data[..]);

    file.process_block(block).unwrap();
    assert!(file.file.piece_is_complete(0).unwrap());

    // check file contents
    assert_eq!(file.disk, data);
}

#[test]
fn file_two_piece_bitmap() {
    let data1 = vec![0; BLOCK_SIZE * 2];
    let data2 = vec![1; BLOCK_SIZE * 2];
    let hashes = &[
        hex("5188431849b4613152fd7bdba6a3ff0a4fd6424b"),
        hex("d3a26f5cc20679c826302154ccd89edd238cfaca"),
    ];

    let mut file = Backed::new(hashes, BLOCK_SIZE * 2, BLOCK_SIZE * 4);

    let (data1_0, data1_1) = data1.split_at(16384);
    let (data2_0, data2_1) = data2.split_at(16384);

    let block1_0 = Block::new(0, 0, &data1_0[..]);
    let block1_1 = Block::new(0, BLOCK_SIZE, &data1_1[..]);
    let block2_0 = Block::new(1, 0, &data2_0[..]);
    let block2_1 = Block::new(1, BLOCK_SIZE, &data2_1[..]);

    file.process_block(block1_0).unwrap();
    file.process_block(block1_1).unwrap();
    file.process_block(block2_0).unwrap();
    assert_eq!(file.file.bitfield(), &[0x80]);
    file.process_block(block2_1).unwrap();
    assert_eq!(file.file.bitfield(), &[0xc0]);

    // check file contents
    assert_eq!(file.disk[..BLOCK_SIZE * 2], data1);
    assert_eq!(file.disk[BLOCK_SIZE * 2..], data2);
}

#[test]
fn file_get_block_success() {
    let data = vec![0; 1024];
    let hashes = &[hex("60cacbf3d72e1e7834203da608037b1bf83b40e8")];

    let mut file = Backed::new(hashes, 1024, data.len());

    let block = Block::new(0, 0, &data[..]);

    file.process_block(block).unwrap();
    assert!(file.file.piece_is_complete(0).unwrap());

    // check file contents
    let span = file.file.get_block(BlockInfo { piece: 0, range: 0..1024 }).unwrap();
    assert_eq!(span, FileSpan { position: 0, length: 1024 });
    let buf = file.disk[span.position..span.position + span.length].to_vec();
    assert_eq!(buf, data);
}

#[test]
fn new_seeding_invariants() {
    let hashes = &[[0u8; DIGEST_SIZE]; 4];
    let file = DownloadFile::new_seeding(hashes, BLOCK_SIZE * 4, BLOCK_SIZE * 16).unwrap();

    assert!(file.is_complete());
    assert_eq!(file.bitfield(), &[0b11110000]);
    assert_eq!(file.left(), 0);
    for piece in 0..4 {
        assert!(file.piece_is_complete(piece).unwrap());
        assert_eq!(file.get_unfilled(piece).unwrap(), &[]);
    }
}

#[test]
fn two_pieces_out_of_order_blocks() {
    // piece length 32768, total 65536, blocks of 16384 bytes
    let data1 = vec![0; BLOCK_SIZE * 2];
    let data2 = vec![1; BLOCK_SIZE * 2];
    let hashes = &[
        hex("5188431849b4613152fd7bdba6a3ff0a4fd6424b"),
        hex("d3a26f5cc20679c826302154ccd89edd238cfaca"),
    ];
    let mut file = Backed::new(hashes, 32768, 65536);

    file.process_block(Block::new(0, BLOCK_SIZE, &data1[BLOCK_SIZE..])).unwrap();
    assert_eq!(file.file.get_unfilled(0).unwrap(), &[0..BLOCK_SIZE]);
    file.process_block(Block::new(0, 0, &data1[..BLOCK_SIZE])).unwrap();
    file.process_block(Block::new(1, 0, &data2[..BLOCK_SIZE])).unwrap();
    assert!(file.file.piece_is_complete(0).unwrap());
    assert!(!file.file.piece_is_complete(1).unwrap());
    assert_eq!(file.file.get_unfilled(1).unwrap(), &[BLOCK_SIZE..2 * BLOCK_SIZE]);
    assert_eq!(file.file.left(), 32768);
    assert!(!file.file.is_complete());
    file.process_block(Block::new(1, BLOCK_SIZE, &data2[BLOCK_SIZE..])).unwrap();
    assert!(file.file.piece_is_complete(1).unwrap());
    assert_eq!(file.file.bitfield(), &[0xC0]);
    assert_eq!(file.file.left(), 0);
    assert!(file.file.is_complete());
}

#[test]
fn layout_gives_last_piece_the_remainder() {
    let hashes = &[[0u8; DIGEST_SIZE]; 3];
    let file = DownloadFile::new(hashes, 40000, 100000).unwrap();
    assert_eq!(file.num_pieces(), 3);
    assert_eq!(file.get_unfilled(0).unwrap(), &[0..16384, 16384..32768, 32768..40000]);
    assert_eq!(file.get_unfilled(1).unwrap(), &[0..16384, 16384..32768, 32768..40000]);
    assert_eq!(file.get_unfilled(2).unwrap(), &[0..16384, 16384..20000]);
    assert!(file.get_unfilled(3).is_none());
    assert_eq!(file.left(), 100000);
    assert_eq!(file.bitfield(), &[0x00]);
    // the second block of the second piece lies at 40000 + 16384
    let plan = file.plan_block(&Block::new(1, 16384, &vec![7u8; 16384])).unwrap().unwrap();
    assert_eq!(plan.position, 56384);
    assert_eq!(plan.verify, None);
}

#[test]
fn bad_layouts_are_refused() {
    let none: &[[u8; DIGEST_SIZE]] = &[];
    assert_eq!(DownloadFile::new(none, 1024, 1024).err(), Some(StoreError::BadLayout));
    let two = &[[0u8; DIGEST_SIZE]; 2];
    assert_eq!(DownloadFile::new(two, 1024, 1000).err(), Some(StoreError::BadLayout));
    assert_eq!(DownloadFile::new_seeding(two, 1024, 1000).err(), Some(StoreError::BadLayout));
    assert!(DownloadFile::new(two, 1024, 1024).is_ok());
}

#[test]
fn store_errors_each_have_an_input() {
    let data = vec![0; 1024];
    let hashes = &[hex("60cacbf3d72e1e7834203da608037b1bf83b40e8")];
    let mut file = Backed::new(hashes, 1024, 1024);

    assert_eq!(file.process_block(Block::new(1, 0, &data)), Err(StoreError::PieceOutOfRange));
    assert_eq!(file.file.plan_block(&Block::new(5, 0, &data)), Err(StoreError::PieceOutOfRange));
    assert_eq!(file.file.piece_is_complete(1), Err(StoreError::PieceOutOfRange));
    assert_eq!(file.file.get_block(BlockInfo { piece: 1, range: 0..10 }), Err(StoreError::PieceOutOfRange));
    assert_eq!(file.file.get_block(BlockInfo { piece: 0, range: 0..10 }), Err(StoreError::PieceIncomplete));

    file.process_block(Block::new(0, 0, &data)).unwrap();
    assert_eq!(file.file.get_block(BlockInfo { piece: 0, range: 0..1025 }), Err(StoreError::RangeInvalid));
    assert_eq!(file.file.get_block(BlockInfo { piece: 0, range: 20..10 }), Err(StoreError::RangeInvalid));
    assert_eq!(
        file.file.get_block(BlockInfo { piece: 0, range: 100..300 }),
        Ok(FileSpan { position: 100, length: 200 })
    );
}

#[test]
fn duplicate_and_misaligned_blocks_change_nothing() {
    let data1 = vec![0; BLOCK_SIZE * 2];
    let hashes = &[hex("5188431849b4613152fd7bdba6a3ff0a4fd6424b")];
    let mut file = Backed::new(hashes, BLOCK_SIZE * 2, BLOCK_SIZE * 2);

    // misaligned: right start, wrong length
    file.process_block(Block::new(0, 0, &data1[..100])).unwrap();
    assert_eq!(file.file.get_unfilled(0).unwrap(), &[0..BLOCK_SIZE, BLOCK_SIZE..2 * BLOCK_SIZE]);
    assert_eq!(file.file.plan_block(&Block::new(0, 0, &data1[..100])), Ok(None));

    file.process_block(Block::new(0, 0, &data1[..BLOCK_SIZE])).unwrap();
    assert_eq!(file.file.get_unfilled(0).unwrap(), &[BLOCK_SIZE..2 * BLOCK_SIZE]);
    let left = file.file.left();

    // the same block again: nothing changes
    file.process_block(Block::new(0, 0, &data1[..BLOCK_SIZE])).unwrap();
    assert_eq!(file.file.get_unfilled(0).unwrap(), &[BLOCK_SIZE..2 * BLOCK_SIZE]);
    assert_eq!(file.file.left(), left);

    file.process_block(Block::new(0, BLOCK_SIZE, &data1[BLOCK_SIZE..])).unwrap();
    assert!(file.file.piece_is_complete(0).unwrap());
    assert_eq!(file.file.left(), 0);

    // a block for a piece that is complete: nothing changes
    file.process_block(Block::new(0, BLOCK_SIZE, &vec![9u8; BLOCK_SIZE])).unwrap();
    assert!(file.file.piece_is_complete(0).unwrap());
    assert_eq!(file.disk, data1);
}

#[test]
fn left_never_goes_up() {
    let data1 = vec![0; BLOCK_SIZE * 2];
    let data2 = vec![1; BLOCK_SIZE * 2];
    let hashes = &[
        hex("5188431849b4613152fd7bdba6a3ff0a4fd6424b"),
        hex("d3a26f5cc20679c826302154ccd89edd238cfaca"),
    ];
    let mut file = Backed::new(hashes, BLOCK_SIZE * 2, BLOCK_SIZE * 4);
    let blocks = vec![
        Block::new(1, 0, &data1[..BLOCK_SIZE]),
        Block::new(1, BLOCK_SIZE, &data1[BLOCK_SIZE..]),
        Block::new(0, 0, &data1[..BLOCK_SIZE]),
        Block::new(0, BLOCK_SIZE, &data1[BLOCK_SIZE..]),
        Block::new(1, 0, &data2[..BLOCK_SIZE]),
        Block::new(1, BLOCK_SIZE, &data2[BLOCK_SIZE..]),
    ];
    let mut left = file.file.left();
    let mut seen = Vec::new();
    for block in blocks {
        file.process_block(block).unwrap();
        assert!(file.file.left() <= left);
        left = file.file.left();
        seen.push(left);
    }
    // piece 1 fails its digest with the bytes of piece 0, and passes with its own
    assert_eq!(seen, vec![65536, 65536, 65536, 32768, 32768, 0]);
}

#[test]
fn bit_set_exactly_when_nothing_is_missing() {
    let data1 = vec![0; BLOCK_SIZE * 2];
    let hashes = &[
        hex("5188431849b4613152fd7bdba6a3ff0a4fd6424b"),
        hex("d3a26f5cc20679c826302154ccd89edd238cfaca"),
    ];
    let mut file = Backed::new(hashes, BLOCK_SIZE * 2, BLOCK_SIZE * 4);
    let check = |file: &Backed| {
        for piece in 0..2 {
            let bit = file.file.bitfield()[0] & (0x80 >> piece) != 0;
            assert_eq!(bit, file.file.get_unfilled(piece).unwrap().is_empty());
            assert_eq!(bit, file.file.piece_is_complete(piece).unwrap());
        }
    };
    check(&file);
    file.process_block(Block::new(0, 0, &data1[..BLOCK_SIZE])).unwrap();
    check(&file);
    file.process_block(Block::new(0, BLOCK_SIZE, &data1[BLOCK_SIZE..])).unwrap();
    check(&file);
    file.process_block(Block::new(1, 0, &data1[..BLOCK_SIZE])).unwrap();
    check(&file);
    file.process_block(Block::new(1, BLOCK_SIZE, &data1[BLOCK_SIZE..])).unwrap();
    check(&file);
}

#[test]
fn record_block_takes_the_digest_as_given() {
    let hash = hex("60cacbf3d72e1e7834203da608037b1bf83b40e8");
    let mut file = DownloadFile::new(&[hash], 1024, 1024).unwrap();
    let info = BlockInfo { piece: 0, range: 0..1024 };
    file.record_block(&info, &[3u8; DIGEST_SIZE]).unwrap();
    assert!(!file.piece_is_complete(0).unwrap());
    assert_eq!(file.get_unfilled(0).unwrap(), &[0..1024]);
    file.record_block(&info, &hash).unwrap();
    assert!(file.piece_is_complete(0).unwrap());
    assert_eq!(file.record_block(&BlockInfo { piece: 3, range: 0..4 }, &hash), Err(StoreError::PieceOutOfRange));
}

#[test]
fn block_info_is_piece_and_range() {
    let block = Block::new(3, 100, &[1, 2, 3, 4]);
    assert_eq!(block.info(), BlockInfo { piece: 3, range: 100..104 });
    assert_eq!(block.try_info(), Some(BlockInfo { piece: 3, range: 100..104 }));
    assert_eq!(block.bytes(), &[1, 2, 3, 4]);
    assert_eq!(Block::new(0, usize::MAX, &[1, 2]).try_info(), None);
    assert_eq!(block.info().clone(), block.info());
}
