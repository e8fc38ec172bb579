//! Boot-image container round trips.

use kernel_core::bootimg::{
    encode_boot_image, BootFile, BootImageFS, FileIterator, DATA_BASE, FILE_HEADER_SIZE,
    HEADER_MAGIC, MAX_FILES,
};

fn file(name: &str, data: &[u8]) -> BootFile {
    BootFile { name: name.as_bytes().to_vec(), data: data.to_vec() }
}

fn padded(name: &str) -> Vec<u8> {
    let mut v = name.as_bytes().to_vec();
    while v.len() < 16 {
        v.push(0);
    }
    v
}

#[test]
fn round_trip_reproduces_names_lengths_and_bytes() {
    let files = vec![
        file("kernel", &[1, 2, 3, 4, 5]),
        file("driver", b"abcdefghij"),
        file("sixteen-chars-nm", &[0xFF; 4097]),
    ];
    let image = encode_boot_image(&files);
    assert_eq!(image.len(), DATA_BASE + 5 + 10 + 4097);
    let fs = BootImageFS::new(&image);
    assert_eq!(fs.len(), image.len());
    let headers = fs.files().unwrap();
    assert_eq!(headers.len(), 3);
    let mut prev_end = 0u32;
    for (i, h) in headers.iter().enumerate() {
        assert_eq!(h.magic, HEADER_MAGIC);
        assert_eq!(*h.name(), padded(std::str::from_utf8(&files[i].name).unwrap()));
        assert_eq!(h.file_length as usize, files[i].data.len());
        // Offsets are strictly increasing and the extents do not overlap.
        assert!(h.file_offset >= prev_end);
        if i > 0 {
            assert!(h.file_offset > headers[i - 1].file_offset);
        }
        prev_end = h.file_offset + h.file_length;
        assert_eq!(fs.file_data(h), files[i].data.as_slice());
    }
}

#[test]
fn round_trip_of_an_empty_container() {
    let files: Vec<BootFile> = vec![];
    let image = encode_boot_image(&files);
    assert_eq!(image.len(), DATA_BASE);
    assert_eq!(u16::from_le_bytes([image[0], image[1]]), 0);
    let fs = BootImageFS::new(&image);
    assert_eq!(fs.files().unwrap().len(), 0);
}

#[test]
fn round_trip_at_the_file_count_limit() {
    let mut files = Vec::new();
    for i in 0..MAX_FILES {
        files.push(BootFile { name: vec![b'f', b'0' + (i % 10) as u8], data: vec![i as u8; 3] });
    }
    let image = encode_boot_image(&files);
    assert_eq!(image.len(), DATA_BASE + 3 * MAX_FILES);
    let fs = BootImageFS::new(&image);
    let headers = fs.files().unwrap();
    assert_eq!(headers.len(), MAX_FILES);
    for (i, h) in headers.iter().enumerate() {
        assert_eq!(fs.file_data(h), vec![i as u8; 3].as_slice());
    }
}

#[test]
fn payloads_start_at_the_reserved_data_base() {
    let files = vec![file("a", b"xy")];
    let image = encode_boot_image(&files);
    let fs = BootImageFS::new(&image);
    let headers = fs.files().unwrap();
    assert_eq!(headers[0].file_offset as usize, DATA_BASE);
    assert_eq!(DATA_BASE, FILE_HEADER_SIZE * MAX_FILES + 4);
}

#[test]
fn truncated_container_is_rejected() {
    let fs = BootImageFS::new(&[7u8]);
    assert!(fs.files().is_err());
    // A declared count that runs past the buffer is malformed too.
    let bad = [64u8, 0u8, 1u8, 2u8];
    let fs = BootImageFS::new(&bad);
    assert!(fs.files().is_err());
}

#[test]
fn file_iterator_walks_the_records() {
    let files = vec![file("one", b"1"), file("two", b"22")];
    let image = encode_boot_image(&files);
    let fs = BootImageFS::new(&image);
    let headers = fs.files().unwrap();
    let mut it = FileIterator::new(headers);
    assert_eq!(it.next().unwrap().name(), &padded("one"));
    assert_eq!(it.next().unwrap().name(), &padded("two"));
    assert!(it.next().is_none());
    assert!(it.next().is_none());
}
