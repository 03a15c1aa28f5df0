use lsmtree::cell::{Cell, Offset};
use lsmtree::page::{PageError, SlottedHeader, SlottedPage, PAGE_IMAGE_SIZE, PAGE_SIZE};
use rand::{thread_rng, Rng};

const MAGIC: [u8; 7] = [b'b', b't', b'r', b'e', b'e', 0, 0];

fn page_serialize_happy(file: &mut Vec<u8>) {
    let mut pos_vec: Vec<usize> = vec![];
    let mut write_pos: usize = 0;
    let size = 10;
    (0..100).for_each(|i: usize| {
        let mut page = SlottedPage::new();
        for j in 0..size {
            let index = (size * i) + j;
            page.add_payload(&index.to_le_bytes().to_vec())
                .expect("add payload failed");
        }
        let write_size = SlottedPage::pack(&page, file, write_pos as u64);
        pos_vec.push(write_pos);
        write_pos += write_size;
    });

    (0..100).rev().for_each(|i: usize| {
        let pos = match pos_vec.pop() {
            Some(pos) => pos,
            None => panic!("position corruption detected"),
        };
        let page = SlottedPage::unpack(file, pos as u64).expect("fail to unpack");
        assert_eq!(MAGIC, page.header().magic());
        for j in 0..size {
            let index = (size * i) + j;
            let mut payload: [u8; 8] = [0; 8];
            payload.clone_from_slice(&page.read_payload(j).expect("add payload failed"));
            assert_eq!(index, usize::from_le_bytes(payload));
        }
    });
}

#[test]
fn serialize_happy() {
    let mut file: Vec<u8> = Vec::new();
    page_serialize_happy(&mut file);
    assert_eq!(file.len(), 100 * PAGE_IMAGE_SIZE);
}

fn is_same_payload(a: &Vec<u8>, b: &Vec<u8>) -> bool {
    let matching = a.iter().zip(b.iter()).filter(|&(a, b)| a == b).count();
    matching == a.len() && matching == b.len()
}

#[test]
fn add_payload_happy() {
    let mut rng = thread_rng();
    let mut page = SlottedPage::new();
    let test_cases: Vec<Vec<u8>> = (0..5)
        .map(|_| {
            let size: usize = rng.gen_range(1..4096);
            (0..size).map(|_| rng.gen::<u8>()).collect()
        })
        .collect();
    let (mut i, mut j) = (0, 0);
    test_cases.iter().for_each(|data: &Vec<u8>| {
        while let Err(_) = page.add_payload(data) {
            page = SlottedPage::new();
            i = 0;
        }
        let payload = page.read_payload(i).expect("fail to read payload");
        assert_eq!(
            true,
            is_same_payload(&test_cases[j], &payload),
            "{:.?} != {:.?}",
            test_cases[j].len(),
            payload.len()
        );
        i += 1;
        j += 1;
    });
}

#[test]
fn ten_payloads_then_page_full() {
    let mut page = SlottedPage::new();
    for i in 0..10u64 {
        assert!(page.add_payload(&i.to_le_bytes().to_vec()).is_ok());
    }
    for i in 0..10u64 {
        assert_eq!(page.read_payload(i as usize).unwrap(), i.to_le_bytes().to_vec());
    }
    // Each 8-byte payload takes a 16-byte offset and a 32-byte cell.
    assert_eq!(page.header().offset_cursor(), 160);
    assert_eq!(page.header().cell_cursor(), 320);
    let mut added = 10u64;
    loop {
        let oc = page.header().offset_cursor();
        let cc = page.header().cell_cursor();
        let before = page.to_image();
        match page.add_payload(&added.to_le_bytes().to_vec()) {
            Ok(()) => added += 1,
            Err(e) => {
                assert_eq!(e, PageError::PageFull);
                assert_eq!(page.header().offset_cursor(), oc);
                assert_eq!(page.header().cell_cursor(), cc);
                assert_eq!(page.to_image(), before);
                assert!(oc + 16 + cc + 32 > PAGE_SIZE as u64);
                break;
            }
        }
    }
    // 4096 / 48 = 85 payloads fit.
    assert_eq!(added, 85);
    for i in 0..added {
        assert_eq!(page.read_payload(i as usize).unwrap(), i.to_le_bytes().to_vec());
    }
}

#[test]
fn page_full_at_exact_boundary() {
    let mut page = SlottedPage::new();
    // 16 + 24 + 4056 == 4096: the payload fills the body exactly.
    let big = vec![7u8; 4056];
    assert_eq!(page.add_payload(&big), Ok(()));
    assert_eq!(page.read_payload(0).unwrap(), big);
    assert_eq!(page.add_payload(&vec![]), Err(PageError::PageFull));

    let mut page = SlottedPage::new();
    assert_eq!(page.add_payload(&vec![1u8; 4057]), Err(PageError::PageFull));
    assert_eq!(page.header().offset_cursor(), 0);
    assert_eq!(page.header().cell_cursor(), 0);
}

#[test]
fn read_payload_out_of_range() {
    let mut page = SlottedPage::new();
    assert_eq!(page.read_payload(0), Err(PageError::SlotOutOfRange));
    page.add_payload(&vec![1, 2, 3]).unwrap();
    assert_eq!(page.read_payload(0).unwrap(), vec![1, 2, 3]);
    assert_eq!(page.read_payload(1), Err(PageError::SlotOutOfRange));
}

#[test]
fn empty_payload_round_trip() {
    let mut page = SlottedPage::new();
    page.add_payload(&vec![]).unwrap();
    assert_eq!(page.read_payload(0).unwrap(), Vec::<u8>::new());
}

#[test]
fn page_layout_bytes() {
    let mut page = SlottedPage::new();
    page.add_payload(&vec![0xAA, 0xBB]).unwrap();
    let image = page.to_image();
    assert_eq!(image.len(), PAGE_IMAGE_SIZE);
    assert_eq!(&image[0..7], &MAGIC);
    assert_eq!(image[7], 0);
    assert_eq!(&image[8..16], &16u64.to_le_bytes());
    assert_eq!(&image[16..24], &26u64.to_le_bytes());
    assert_eq!(&image[24..32], &4096u64.to_le_bytes());
    assert_eq!(&image[32..40], &[0u8; 8]);
    let body = &image[40..];
    // Offset record: payload size 2, cell at 4096 - 26 = 4070.
    assert_eq!(&body[0..8], &2u64.to_le_bytes());
    assert_eq!(&body[8..16], &4070u64.to_le_bytes());
    // Cell: size 26, next 0, length 2, payload.
    assert_eq!(&body[4070..4078], &26u64.to_le_bytes());
    assert_eq!(&body[4078..4086], &0u64.to_le_bytes());
    assert_eq!(&body[4086..4094], &2u64.to_le_bytes());
    assert_eq!(&body[4094..4096], &[0xAA, 0xBB]);
}

#[test]
fn pack_unpack_round_trip() {
    let mut page = SlottedPage::new();
    page.add_payload(&b"hello".to_vec()).unwrap();
    page.add_payload(&b"world!".to_vec()).unwrap();
    let mut file = vec![9u8; 10];
    let n = SlottedPage::pack(&page, &mut file, PAGE_IMAGE_SIZE as u64);
    assert_eq!(n, PAGE_IMAGE_SIZE);
    assert_eq!(file.len(), 2 * PAGE_IMAGE_SIZE);
    assert_eq!(&file[0..10], &[9u8; 10]);
    assert!(file[10..PAGE_IMAGE_SIZE].iter().all(|b| *b == 0));
    let back = SlottedPage::unpack(&file, PAGE_IMAGE_SIZE as u64).unwrap();
    assert_eq!(back.to_image(), page.to_image());
    assert_eq!(back.read_payload(0).unwrap(), b"hello".to_vec());
    assert_eq!(back.read_payload(1).unwrap(), b"world!".to_vec());
}

#[test]
fn unpack_errors() {
    let page = SlottedPage::new();
    let mut file = Vec::new();
    SlottedPage::pack(&page, &mut file, 0);
    assert!(matches!(SlottedPage::unpack(&file, 1), Err(PageError::ShortRead)));
    assert!(matches!(SlottedPage::unpack(&file[..100].to_vec(), 0), Err(PageError::ShortRead)));
    let mut bad = file.clone();
    bad[0] = b'x';
    assert!(matches!(SlottedPage::unpack(&bad, 0), Err(PageError::CorruptHeader)));
    let mut bad = file.clone();
    bad[8] = 3; // offset cursor not a whole number of records
    assert!(matches!(SlottedPage::unpack(&bad, 0), Err(PageError::CorruptHeader)));
    let mut bad = file.clone();
    bad[24..32].copy_from_slice(&8192u64.to_le_bytes());
    assert!(matches!(SlottedPage::unpack(&bad, 0), Err(PageError::CorruptHeader)));
    assert!(SlottedPage::unpack(&file, 0).is_ok());
}

#[test]
fn corrupt_cell_is_an_error() {
    let mut page = SlottedPage::new();
    page.add_payload(&vec![5u8; 4]).unwrap();
    let mut file = Vec::new();
    SlottedPage::pack(&page, &mut file, 0);
    // Point offset record 0 past the end of the body.
    file[40 + 8..40 + 16].copy_from_slice(&5000u64.to_le_bytes());
    let bad = SlottedPage::unpack(&file, 0).unwrap();
    assert_eq!(bad.read_payload(0), Err(PageError::CorruptCell));
}

#[test]
fn header_cursors() {
    let mut h = SlottedHeader::new(100);
    assert_eq!(h.magic(), MAGIC);
    assert_eq!(h.try_add_offset_cursor(16), Ok(16));
    assert_eq!(h.add_offset_cursor(16), Ok(16));
    assert_eq!(h.add_cell_cursor(80), Ok(80));
    assert_eq!(h.try_add_offset_cursor(16), Err(PageError::CursorOverflow));
    assert_eq!(h.add_cell_cursor(5), Err(PageError::CursorOverflow));
    assert_eq!(h.offset_cursor(), 16);
    assert_eq!(h.cell_cursor(), 80);
    assert_eq!(h.try_add_cell_cursor(4), Ok(84));
    assert_eq!(h.total_body_size(), 100);
}

#[test]
fn offset_and_cell_bytes() {
    let o = Offset { payload_size: 3, start_cell_pos: 0x0102 };
    let b = o.to_bytes();
    assert_eq!(b, [3u64.to_le_bytes(), 0x0102u64.to_le_bytes()].concat());
    let back = Offset::from_bytes(&b, 0);
    assert_eq!(back.payload_size, 3);
    assert_eq!(back.start_cell_pos, 0x0102);
    let c = Cell { cell_size: 27, next_cell_pos: 0, payload: vec![1, 2, 3] };
    let b = c.to_bytes();
    assert_eq!(b.len(), 27);
    assert_eq!(&b[0..8], &27u64.to_le_bytes());
    assert_eq!(&b[16..24], &3u64.to_le_bytes());
    assert_eq!(&b[24..], &[1, 2, 3]);
}
