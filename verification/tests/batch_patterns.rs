use ars_dl::batch::{
    batch_file_name, batch_url_is_parsable, determine_folder, determine_folder_checked,
    format_template, is_batch_url, parse_batch_url, parse_batch_url_checked, BatchTally,
    ItemOutcome,
};

fn parsed(raw: &str) -> (String, Vec<u32>) {
    parse_batch_url(raw).expect("a valid batch pattern")
}

#[test]
fn zero_padded_range_expands_with_padding() {
    let (template, nums) = parsed("https://example.com/pic[001-100].jpg");
    assert_eq!(template, "https://example.com/pic%03d.jpg");
    assert_eq!(nums, (1..=100).collect::<Vec<u32>>());
    assert_eq!(format_template(&template, 1), "https://example.com/pic001.jpg");
    assert_eq!(format_template(&template, 42), "https://example.com/pic042.jpg");
    assert_eq!(format_template(&template, 100), "https://example.com/pic100.jpg");
}

#[test]
fn unpadded_range_expands_without_padding() {
    let (template, nums) = parsed("https://example.com/pic[1-100].jpg");
    assert_eq!(template, "https://example.com/pic%01d.jpg");
    assert_eq!(nums.len(), 100);
    assert_eq!(format_template(&template, 1), "https://example.com/pic1.jpg");
    assert_eq!(format_template(&template, 100), "https://example.com/pic100.jpg");
}

#[test]
fn stepped_range_takes_every_step() {
    let (template, nums) = parsed("https://example.com/file[0-100:2].png");
    assert_eq!(template, "https://example.com/file%01d.png");
    assert_eq!(nums, (0..=100).step_by(2).collect::<Vec<u32>>());
    assert_eq!(nums.len(), 51);
    assert_eq!(format_template(&template, 4), "https://example.com/file4.png");
    let (_, nums) = parsed("x[3-10:4]");
    assert_eq!(nums, vec![3, 7]);
    let (_, nums) = parsed("x[7-7]");
    assert_eq!(nums, vec![7]);
}

#[test]
fn every_number_expands_to_its_url() {
    let raw = "https://example.com/a/img_[0008-0012:2]_x.jpg?size=big";
    let (template, nums) = parsed(raw);
    let urls: Vec<String> = nums.iter().map(|n| format_template(&template, *n)).collect();
    assert_eq!(
        urls,
        vec![
            "https://example.com/a/img_0008_x.jpg?size=big",
            "https://example.com/a/img_0010_x.jpg?size=big",
            "https://example.com/a/img_0012_x.jpg?size=big",
        ]
    );
}

#[test]
fn parse_errors() {
    assert_eq!(parse_batch_url("https://example.com/pic.jpg"), Err("invalid batch pattern".to_string()));
    assert_eq!(parse_batch_url("x[1-2:]"), Err("invalid batch pattern".to_string()));
    assert_eq!(parse_batch_url("x[-2]"), Err("invalid batch pattern".to_string()));
    assert_eq!(parse_batch_url("x[5-1]"), Err("invalid range".to_string()));
    assert_eq!(parse_batch_url("x[1-5:0]"), Err("invalid range".to_string()));
}

#[test]
fn leftmost_range_is_used() {
    let (template, nums) = parsed("a[x-1]b[2-3]c[4-5]");
    assert_eq!(template, "a[x-1]b%01dc[4-5]");
    assert_eq!(nums, vec![2, 3]);
}

#[test]
fn unreadable_numbers_are_reported() {
    assert!(batch_url_is_parsable("x[1-2]"));
    assert!(batch_url_is_parsable("no range here"));
    assert!(!batch_url_is_parsable("x[1-99999999999]"));
    assert!(!batch_url_is_parsable("x[1-2:4294967296]"));
    // Arabic-Indic digit three: a regex digit that `u32` parsing refuses
    assert!(!batch_url_is_parsable("x[\u{0663}-5]y[1-2]"));
    assert_eq!(parse_batch_url_checked("x[1-99999999999]"), None);
    assert_eq!(
        parse_batch_url_checked("x[1-4294967295:4294967295]"),
        Some(Ok(("x%01d".to_string(), vec![1])))
    );
}

#[test]
fn template_without_placeholder_is_unchanged() {
    assert_eq!(format_template("https://e.com/a.jpg", 3), "https://e.com/a.jpg");
    assert_eq!(format_template("https://e.com/a%20b.jpg", 3), "https://e.com/a%20b.jpg");
    assert_eq!(format_template("a%0d", 3), "a%0d");
    assert_eq!(format_template("a%012d.bin", 5), "a000000000005.bin");
    assert_eq!(format_template("a%00d", 5), "a5");
}

#[test]
fn placeholder_is_the_first_zero_padded_one() {
    assert_eq!(format_template("https://e.com/a%20b%01d.jpg", 3), "https://e.com/a%20b3.jpg");
    assert_eq!(format_template("a%01db%01d", 1), "a1b1");
    assert_eq!(format_template("a%02db%03d", 7), "a07b%03d");
    let (template, nums) = parsed("https://e.com/a%20b/pic[1-3].jpg");
    assert_eq!(template, "https://e.com/a%20b/pic%01d.jpg");
    assert_eq!(nums, vec![1, 2, 3]);
    assert_eq!(format_template(&template, 2), "https://e.com/a%20b/pic2.jpg");
}

#[test]
fn folder_defaults_to_file_stem() {
    assert_eq!(determine_folder("https://example.com/pic%03d.jpg", None), "pic%03d");
    assert_eq!(determine_folder("https://example.com/dir/", None), "dir");
    assert_eq!(determine_folder("https://example.com/", None), "");
    assert_eq!(determine_folder("anything", Some("图片")), "图片");
    assert_eq!(determine_folder_checked("pic%03d.jpg", None), None);
    assert_eq!(determine_folder_checked("pic%03d.jpg", Some("out")), Some("out".to_string()));
}

#[test]
fn batch_file_names() {
    assert_eq!(batch_file_name("https://e.com/a/pic001.jpg", 1), "pic001.jpg");
    assert_eq!(batch_file_name("https://e.com/a/", 7), "file_7");
    assert_eq!(batch_file_name("not a url", 3), "file_3");
}

#[test]
fn batch_url_detection() {
    assert!(is_batch_url("https://e.com/pic[1-3].jpg"));
    assert!(!is_batch_url("https://e.com/pic.jpg"));
    assert!(!is_batch_url("https://e.com/pic[1-3.jpg"));
    assert!(is_batch_url("]["));
}

#[test]
fn tally_summary() {
    let mut tally = BatchTally::new();
    for _ in 0..100 {
        tally.record_success(10);
    }
    assert_eq!(tally.summary(4), "Succ:100 Fail:0 Skip:0 4s");
    tally.record_failure();
    tally.record_skip();
    tally.record_skip();
    assert_eq!(tally.bytes, 1000);
    assert_eq!(tally.summary(125), "Succ:100 Fail:1 Skip:2 2m5s");
    let mut full = BatchTally { succeeded: u32::MAX, failed: 0, skipped: 0, bytes: u64::MAX };
    full.record_success(2);
    assert_eq!(full.succeeded, 0);
    assert_eq!(full.bytes, 1);
}

#[test]
fn tally_from_item_outcomes() {
    let outcomes = vec![
        ItemOutcome::Succeeded(100),
        ItemOutcome::Skipped,
        ItemOutcome::Failed,
        ItemOutcome::Succeeded(23),
        ItemOutcome::Skipped,
    ];
    let tally = BatchTally::from_outcomes(&outcomes);
    assert_eq!((tally.succeeded, tally.failed, tally.skipped, tally.bytes), (2, 1, 2, 123));
    assert_eq!(
        (tally.succeeded + tally.failed + tally.skipped) as usize,
        outcomes.len()
    );
    assert_eq!(tally.summary(61), "Succ:2 Fail:1 Skip:2 1m1s");
    let empty = BatchTally::from_outcomes(&Vec::new());
    assert_eq!((empty.succeeded, empty.failed, empty.skipped, empty.bytes), (0, 0, 0, 0));
    let mut one = BatchTally::new();
    one.record(ItemOutcome::Succeeded(u64::MAX));
    one.record(ItemOutcome::Succeeded(2));
    assert_eq!((one.succeeded, one.bytes), (2, 1));
    one.record(ItemOutcome::Failed);
    one.record(ItemOutcome::Skipped);
    assert_eq!((one.failed, one.skipped), (1, 1));
}
