use fraud_detection::dataset::{preprocess, Dataset, RefEntry, DIMS, PADDED_DIMS};
use fraud_detection::response::{not_found_response, verdict_response};
use fraud_detection::service::score;

fn image(frauds: usize) -> Vec<u8> {
    let mut entries: Vec<RefEntry> = (0..5)
        .map(|i| RefEntry {
            vector: vec![10; DIMS],
            label: if i < frauds { "fraud".to_string() } else { "legit".to_string() },
        })
        .collect();
    for _ in 0..40 {
        entries.push(RefEntry { vector: vec![200; DIMS], label: "fraud".to_string() });
    }
    preprocess(&entries)
}

#[test]
fn scores_are_a_fifth_of_the_frauds() {
    for frauds in 0usize..=5 {
        let image = image(frauds);
        let ds = Dataset::from_mmap(&image);
        let resp = score(&ds, Some([11u8; PADDED_DIMS]));
        assert_eq!(resp, Some(verdict_response(frauds as u32)));
    }
}

#[test]
fn transactions_that_could_not_be_read() {
    let image = image(1);
    let ds = Dataset::from_mmap(&image);
    assert_eq!(score(&ds, None), Some(not_found_response()));
}

#[test]
fn labels_above_one_have_no_score() {
    let mut image = image(5);
    let n = image.len();
    for label in &mut image[n - 45..] {
        *label = 2;
    }
    let ds = Dataset::from_mmap(&image);
    assert_eq!(score(&ds, Some([11u8; PADDED_DIMS])), None);
}
