use ars_dl::mirror::{MirrorResolver, MirrorStep};
use ars_dl::plan::{
    can_plan_chunks, can_plan_resume, choose_strategy, format_eta, needs_single_stream, open_range_header, part_file_name, plan_chunks,
    plan_resume_chunks, range_header, stream_restart_needed, stream_status_ok, stream_total,
    Strategy,
};

fn reference_chunks(total: u64) -> Vec<(u64, u64)> {
    let dynamic = (total / 4).max(1024 * 1024);
    let count = ((total + dynamic - 1) / dynamic).min(16).max(1);
    let size = (total + count - 1) / count;
    if count >= 2 && total - (count - 1) * size < 1024 * 1024 {
        let base = total / count;
        let rem = total % count;
        let start = |i: u64| i * base + i.min(rem);
        (0..count).map(|i| (start(i), start(i + 1) - 1)).collect()
    } else {
        (0..count)
            .map(|i| {
                let start = i * size;
                (start, std::cmp::min(start + size - 1, total - 1))
            })
            .collect()
    }
}

fn assert_tiles(plan: &[(u64, u64)], total: u64) {
    assert_eq!(plan[0].0, 0);
    assert_eq!(plan[plan.len() - 1].1, total - 1);
    for w in plan.windows(2) {
        assert_eq!(w[1].0, w[0].1 + 1);
    }
    for r in plan {
        assert!(r.0 <= r.1);
    }
}

#[test]
fn strategies_by_size() {
    assert_eq!(choose_strategy(0), Strategy::SingleStream);
    assert_eq!(choose_strategy(5 * 1024 * 1024 - 1), Strategy::SingleStream);
    assert_eq!(choose_strategy(5 * 1024 * 1024), Strategy::ChunkedShared);
    assert_eq!(choose_strategy(50 * 1024 * 1024 - 1), Strategy::ChunkedShared);
    assert_eq!(choose_strategy(50 * 1024 * 1024), Strategy::ChunkedIndependent);
}

#[test]
fn chunk_plans_match_and_tile() {
    let plan = plan_chunks(5 * 1024 * 1024);
    assert_eq!(plan, vec![(0, 1310719), (1310720, 2621439), (2621440, 3932159), (3932160, 5242879)]);
    for total in [
        1u64, 2, 17, 1048575, 1048576, 1048577, 2097153, 4194303, 4194304, 4194305,
        5242880, 5242881, 52428800, 52428803, 328_000_000, 1u64 << 40, u64::MAX / 2,
    ] {
        let plan = plan_chunks(total);
        assert_eq!(plan, reference_chunks(total), "total {}", total);
        assert_tiles(&plan, total);
    }
    assert_eq!(plan_chunks(1), vec![(0, 0)]);
    assert!(can_plan_chunks(14757395258967641293));
    assert!(!can_plan_chunks(14757395258967641294));
    assert!(!can_plan_chunks(u64::MAX));
    assert!(!can_plan_chunks(0));
    assert_eq!(plan_chunks(4194305).len(), 5);
}

#[test]
fn resume_plans_tile_the_rest() {
    let cs = 5 * 1024 * 1024;
    let plan = plan_resume_chunks(12_000_000, 1_000_000);
    assert_eq!(
        plan,
        vec![
            (1_000_000, 1_000_000 + cs),
            (1_000_000 + cs, 1_000_000 + 2 * cs),
            (1_000_000 + 2 * cs, 12_000_000)
        ]
    );
    assert_eq!(plan_resume_chunks(100, 100), vec![]);
    assert_eq!(plan_resume_chunks(100, 200), vec![]);
    assert!(can_plan_resume(100, 200));
    assert!(can_plan_resume(12_000_000, 1_000_000));
    assert!(!can_plan_resume(u64::MAX, 0));
    assert_eq!(plan_resume_chunks(1, 0), vec![(0, 1)]);
    let plan = plan_resume_chunks(3 * cs, 0);
    assert_eq!(plan, vec![(0, cs), (cs, 2 * cs), (2 * cs, 3 * cs)]);
}

#[test]
fn range_headers() {
    assert_eq!(range_header(0, 1023), "bytes=0-1023");
    assert_eq!(range_header(1310720, 2621439), "bytes=1310720-2621439");
    assert_eq!(open_range_header(500), "bytes=500-");
}

#[test]
fn stream_decisions() {
    assert!(stream_restart_needed(10, 200));
    assert!(!stream_restart_needed(10, 206));
    assert!(!stream_restart_needed(0, 200));
    assert!(!stream_restart_needed(10, 404));
    assert!(stream_status_ok(200));
    assert!(stream_status_ok(206));
    assert!(!stream_status_ok(404));
    assert!(!stream_status_ok(301));
    assert_eq!(stream_total(100, Some(900)), 1000);
    assert_eq!(stream_total(100, None), 0);
}

#[test]
fn eta_text() {
    assert_eq!(format_eta(19), "00:19");
    assert_eq!(format_eta(0), "00:00");
    assert_eq!(format_eta(3599), "59:59");
    assert_eq!(format_eta(3725), "01:02:05");
    assert_eq!(format_eta(360_000), "100:00:00");
}

#[test]
fn part_file_names() {
    assert_eq!(part_file_name("video.mp4", 3), "ars-dl-video.mp4.part3");
    assert_eq!(part_file_name("dir/x.bin", 0), "ars-dl-x.bin.part0");
    assert_eq!(part_file_name("", 1), "ars-dl-.part1");
}

fn probe_url(step: &MirrorStep) -> Option<&str> {
    match step {
        MirrorStep::Probe(u) => Some(u.as_str()),
        MirrorStep::Resolved(_) => None,
    }
}

fn resolved_url(step: &MirrorStep) -> Option<&str> {
    match step {
        MirrorStep::Resolved(u) => Some(u.as_str()),
        MirrorStep::Probe(_) => None,
    }
}

#[test]
fn github_urls_try_mirrors_in_order() {
    let url = "https://github.com/u/r/releases/x.zip";
    let (mut resolver, step) = MirrorResolver::start(url);
    assert_eq!(probe_url(&step), Some("https://gh-proxy.com/https://github.com/u/r/releases/x.zip"));
    let step = resolver.on_probe(false);
    assert_eq!(probe_url(&step), Some("https://ghfast.top/https://github.com/u/r/releases/x.zip"));
    let step = resolver.on_probe(false);
    assert_eq!(resolved_url(&step), Some(url));

    let (mut resolver, _) = MirrorResolver::start(url);
    let step = resolver.on_probe(true);
    assert_eq!(resolved_url(&step), Some("https://gh-proxy.com/https://github.com/u/r/releases/x.zip"));
    let step = resolver.on_probe(true);
    assert_eq!(resolved_url(&step), Some(url));
}

#[test]
fn other_urls_are_used_as_given() {
    let (_, step) = MirrorResolver::start("https://example.com/github.com");
    assert_eq!(resolved_url(&step), Some("https://example.com/github.com"));
    let (_, step) = MirrorResolver::start("https://github.co");
    assert_eq!(resolved_url(&step), Some("https://github.co"));
}

#[test]
fn split_sizes_of_large_files() {
    for total in [5242880u64, 5242881, 5242884, 6291457, 52428800, 1u64 << 33, 987_654_321] {
        let plan = plan_chunks(total);
        assert!(plan.len() >= 4 && plan.len() <= 16, "total {}", total);
        for r in &plan {
            assert!(r.1 - r.0 + 1 >= 1048576, "total {}", total);
        }
    }
    let plan = plan_chunks(5242881);
    assert_eq!(
        plan,
        vec![
            (0, 1048576),
            (1048577, 2097152),
            (2097153, 3145728),
            (3145729, 4194304),
            (4194305, 5242880)
        ]
    );
    let sizes: Vec<u64> = plan.iter().map(|r| r.1 - r.0 + 1).collect();
    assert_eq!(sizes, vec![1048577, 1048576, 1048576, 1048576, 1048576]);
    let plan = plan_chunks(52428803);
    let sizes: Vec<u64> = plan.iter().map(|r| r.1 - r.0 + 1).collect();
    assert_eq!(sizes, vec![10485761, 10485761, 10485761, 10485761, 10485759]);
    let plan = plan_chunks(10485761);
    assert_eq!(
        plan,
        vec![
            (0, 2097152),
            (2097153, 4194305),
            (4194306, 6291458),
            (6291459, 8388611),
            (8388612, 10485760)
        ]
    );
}

#[test]
fn split_failure_falls_back_to_one_stream() {
    assert!(needs_single_stream(Strategy::SingleStream, false));
    assert!(needs_single_stream(Strategy::SingleStream, true));
    assert!(needs_single_stream(Strategy::ChunkedShared, false));
    assert!(!needs_single_stream(Strategy::ChunkedShared, true));
    assert!(needs_single_stream(Strategy::ChunkedIndependent, false));
    assert!(!needs_single_stream(Strategy::ChunkedIndependent, true));
}
