use itools::Aggregator;
use itools::HashField;
use itools::ProcessOutcome;
use itools::base64::encode_base64;
use itools::hash_files;
use itools::process_file;
use sha2::Digest;

fn tiny_png() -> Vec<u8> {
    let img = image::DynamicImage::new_rgb8(4, 4);
    let mut buf: Vec<u8> = Vec::new();
    img.write_to(&mut buf, image::ImageOutputFormat::Png).unwrap();
    buf
}

#[test]
fn decodable_file_gets_all_four_fingerprints() {
    let bytes = tiny_png();
    let path = "tiny.png".to_string();
    match process_file(&path, &bytes) {
        ProcessOutcome::Complete(fi) => {
            assert_eq!("tiny.png", fi.filename);
            assert!(fi.is_complete());
            let expected = encode_base64(&sha2::Sha256::digest(&bytes).to_vec());
            assert_eq!(Some(expected), fi.sha2_hash);
        },
        ProcessOutcome::Undecodable(p, msg) => {
            panic!("png did not decode: {} {}", p, msg)
        },
    }
}

fn split_png() -> Vec<u8> {
    let buf = image::RgbImage::from_fn(8, 8, |x, _| {
        if x < 4 {
            image::Rgb([0u8, 0, 0])
        } else {
            image::Rgb([255u8, 255, 255])
        }
    });
    let img = image::DynamicImage::ImageRgb8(buf);
    let mut out: Vec<u8> = Vec::new();
    img.write_to(&mut out, image::ImageOutputFormat::Png).unwrap();
    out
}

fn complete_record(name: &str, bytes: &Vec<u8>) -> itools::FileInfo {
    match process_file(&name.to_string(), bytes) {
        ProcessOutcome::Complete(fi) => fi,
        ProcessOutcome::Undecodable(p, msg) => panic!("png did not decode: {} {}", p, msg),
    }
}

#[test]
fn perceptual_hashes_are_functions_of_the_bytes() {
    let flat = tiny_png();
    let split = split_png();
    let first = complete_record("first.png", &flat);
    let again = complete_record("again.png", &flat);
    let other = complete_record("other.png", &split);
    // the same bytes always yield the same three perceptual hashes
    assert!(first.a_hash.is_some());
    assert_eq!(first.a_hash, again.a_hash);
    assert_eq!(first.d_hash, again.d_hash);
    assert_eq!(first.p_hash, again.p_hash);
    // a 64-bit fingerprint encodes as twelve base64 characters
    assert_eq!(12, first.a_hash.as_ref().unwrap().len());
    assert_eq!(12, first.d_hash.as_ref().unwrap().len());
    assert_eq!(12, first.p_hash.as_ref().unwrap().len());
    // a flat raster and a half-and-half raster get different mean hashes
    assert_ne!(first.a_hash, other.a_hash);
}

#[test]
fn undecodable_file_is_reported_as_skipped() {
    let path = "garbage.bin".to_string();
    let bytes: Vec<u8> = b"this is not an image".to_vec();
    match process_file(&path, &bytes) {
        ProcessOutcome::Undecodable(p, _msg) => assert_eq!("garbage.bin", p),
        ProcessOutcome::Complete(_) => panic!("garbage decoded"),
    }
}

#[test]
fn one_corrupt_file_does_not_stop_the_others() {
    let good = tiny_png();
    let inputs = vec![
        ("one.png".to_string(), good.clone()),
        ("broken.bin".to_string(), b"xxxx".to_vec()),
        ("two.png".to_string(), good),
    ];
    let outcomes = hash_files(&inputs);
    assert_eq!(3, outcomes.len());
    assert!(matches!(&outcomes[0], ProcessOutcome::Complete(fi) if fi.filename == "one.png" && fi.is_complete()));
    assert!(matches!(&outcomes[1], ProcessOutcome::Undecodable(p, _) if p == "broken.bin"));
    assert!(matches!(&outcomes[2], ProcessOutcome::Complete(fi) if fi.filename == "two.png" && fi.is_complete()));
}

#[test]
fn exactly_one_reclaim_per_record() {
    let mut agg = Aggregator::new();
    let a = "a.png".to_string();
    let b = "b.png".to_string();
    assert!(agg.start_record(&a));
    assert!(agg.start_record(&b));
    assert!(!agg.start_record(&a));

    // four writes and four arrivals per record, interleaved across records
    assert!(agg.record_write(&a, HashField::Sha2, "s".to_string()));
    assert!(agg.record_write(&b, HashField::Sha2, "s".to_string()));
    assert!(agg.record_arrival(&a).is_none());
    assert!(agg.record_write(&a, HashField::Mean, "m".to_string()));
    assert!(agg.record_write(&a, HashField::Gradient, "g".to_string()));
    assert!(agg.record_write(&a, HashField::Dct, "d".to_string()));
    // the record is complete, but three of its messages are still pending
    assert!(agg.record_arrival(&a).is_none());
    assert!(agg.record_arrival(&a).is_none());
    // a repeated write is refused: fields are write-once
    assert!(!agg.record_write(&a, HashField::Mean, "again".to_string()));
    // the fourth arrival reclaims the record, exactly once
    let done = agg.record_arrival(&a).expect("fourth arrival reclaims");
    assert_eq!("a.png", done.filename);
    assert!(done.is_complete());
    assert_eq!(Some("m".to_string()), done.a_hash);
    assert_eq!(Some("g".to_string()), done.d_hash);
    assert_eq!(Some("d".to_string()), done.p_hash);
    assert_eq!(Some("s".to_string()), done.sha2_hash);

    // the other record is untouched and still in flight
    assert_eq!(1, agg.in_flight());
    assert!(agg.record_write(&b, HashField::Mean, "m".to_string()));
    assert!(agg.record_write(&b, HashField::Gradient, "g".to_string()));
    assert!(agg.record_write(&b, HashField::Dct, "d".to_string()));
    assert!(agg.record_arrival(&b).is_none());
    assert!(agg.record_arrival(&b).is_none());
    assert!(agg.record_arrival(&b).is_none());
    assert!(agg.record_arrival(&b).is_some());
    assert_eq!(0, agg.in_flight());
}
