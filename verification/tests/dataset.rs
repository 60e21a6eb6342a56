use fraud_detection::archive::{decompress, DecompressError};
use fraud_detection::dataset::{
    image_is_complete, preprocess, touch_pages, Dataset, RefEntry, DIMS, HEADER_LEN, PADDED_DIMS,
};
use std::io::Write;

fn entry(seed: usize, label: &str) -> RefEntry {
    RefEntry {
        vector: (0..DIMS).map(|i| ((seed * 31 + i * 17) % 256) as u8).collect(),
        label: label.to_string(),
    }
}

fn entries(n: usize) -> Vec<RefEntry> {
    (0..n).map(|s| entry(s, if s % 3 == 0 { "fraud" } else { "legit" })).collect()
}

#[test]
fn image_layout() {
    let image = preprocess(&vec![entry(1, "fraud"), entry(2, "legit"), entry(3, "Fraud")]);
    assert_eq!(image.len(), HEADER_LEN + 3 * PADDED_DIMS + 3);
    assert_eq!(&image[..4], &[3, 0, 0, 0]);
    assert!(image[4..64].iter().all(|&b| b == 0));
    assert_eq!(&image[64..64 + DIMS], &entry(1, "").vector[..]);
    assert_eq!(&image[64 + DIMS..80], &[128, 128]);
    assert_eq!(&image[80..80 + DIMS], &entry(2, "").vector[..]);
    assert_eq!(&image[112..], &[1, 0, 0]);
}

#[test]
fn vectors_are_taken_as_they_are() {
    let image = preprocess(&vec![RefEntry { vector: vec![7], label: "fraud".to_string() }]);
    assert_eq!(&image[64..], &[7, 128, 128, 1]);
    let empty = preprocess(&Vec::new());
    assert_eq!(empty, vec![0u8; 64]);
}

#[test]
fn reading_gives_back_what_was_laid_out() {
    for n in [0usize, 1, 5, 15, 16, 17, 31, 32, 100, 300] {
        let source = entries(n);
        let image = preprocess(&source);
        assert!(image_is_complete(&image));
        let ds = Dataset::from_mmap(&image);
        assert_eq!(ds.count, n);
        let counts: Vec<usize> = ds.chunks.iter().map(|c| c.count).collect();
        if n == 0 {
            assert!(counts.is_empty());
        } else if n < 16 {
            assert_eq!(counts, vec![n]);
        } else {
            assert_eq!(counts.len(), 16);
            assert!(counts[..15].iter().all(|&c| c == n / 16));
            assert_eq!(counts[15], n - 15 * (n / 16));
        }
        let mut i = 0;
        for chunk in &ds.chunks {
            for j in 0..chunk.count {
                let v = &chunk.vectors[j * PADDED_DIMS..(j + 1) * PADDED_DIMS];
                assert_eq!(&v[..DIMS], &source[i].vector[..]);
                assert_eq!(&v[DIMS..], &[128, 128]);
                assert_eq!(chunk.labels[j], if source[i].label == "fraud" { 1 } else { 0 });
                i += 1;
            }
        }
        assert_eq!(i, n);
    }
}

#[test]
fn incomplete_images() {
    let image = preprocess(&entries(2));
    assert!(image_is_complete(&image));
    assert!(!image_is_complete(&image[..image.len() - 1]));
    assert!(!image_is_complete(&image[..63]));
    assert!(!image_is_complete(&[]));
    assert!(image_is_complete(&[0u8; 64]));
    assert!(!image_is_complete(&[255u8; 64]));
}

#[test]
fn large_counts_are_little_endian() {
    let mut image = preprocess(&entries(300));
    assert_eq!(&image[..4], &[44, 1, 0, 0]);
    image[2] = 1;
    assert!(!image_is_complete(&image));
}

#[test]
fn pages_are_summed() {
    assert_eq!(touch_pages(&[]), 0);
    assert_eq!(touch_pages(&[9]), 9);
    let mut data = vec![1u8; 3 * 4096 + 1];
    data[0] = 200;
    data[4096] = 100;
    assert_eq!(touch_pages(&data), 46);
    assert_eq!(touch_pages(&data[..4096]), 200);
}

#[test]
fn archives_decompress() {
    let text: Vec<u8> = (0..100_000u32).map(|i| (i / 7 % 251) as u8).collect();
    let mut encoder = flate2::write::GzEncoder::new(Vec::new(), flate2::Compression::default());
    encoder.write_all(&text).unwrap();
    let gz = encoder.finish().unwrap();
    assert!(gz.len() < text.len());
    assert!(matches!(decompress(&gz), Ok(out) if out == text));
    assert!(matches!(decompress(&gz[..gz.len() - 1]), Err(DecompressError::Malformed)));
    assert!(matches!(decompress(&text), Err(DecompressError::Malformed)));
    assert!(matches!(decompress(&[]), Err(DecompressError::Malformed)));
}
