use apertin::grouping::{
    assign_group, clamp_threshold, hamming, progress_step, should_report_progress,
};
use apertin::library::{
    is_flag_argument, is_supported_extension, keep_entry, phash_source_range, plan_culling,
    CullDestination,
};

#[test]
fn hamming_counts_differing_bits() {
    assert_eq!(hamming(0, 0), 0);
    assert_eq!(hamming(0, u64::MAX), 64);
    assert_eq!(hamming(0b1011, 0b0001), 2);
    assert_eq!(hamming(0xF0F0, 0x0F0F), hamming(0x0F0F, 0xF0F0));
}

#[test]
fn threshold_is_at_most_64() {
    assert_eq!(clamp_threshold(10), 10);
    assert_eq!(clamp_threshold(64), 64);
    assert_eq!(clamp_threshold(1000), 64);
}

#[test]
fn complete_linkage_grouping() {
    let mut groups: Vec<Vec<u64>> = Vec::new();
    let t = 2;
    assert_eq!(assign_group(&mut groups, Some(0b0000), t), 0);
    assert_eq!(assign_group(&mut groups, Some(0b0011), t), 0); // 2 from 0b0000
    // 0b1100 is 2 from 0b0000 but 4 from 0b0011: a new group.
    assert_eq!(assign_group(&mut groups, Some(0b1100), t), 1);
    // No hash: a group of its own, which nobody joins.
    assert_eq!(assign_group(&mut groups, None, t), 2);
    assert_eq!(assign_group(&mut groups, Some(0b0001), t), 0); // first fitting group
    assert_eq!(assign_group(&mut groups, Some(0b1101), t), 1);
    assert_eq!(groups, vec![vec![0b0000, 0b0011, 0b0001], vec![0b1100, 0b1101], vec![]]);
    for g in &groups {
        for i in 0..g.len() {
            for j in 0..g.len() {
                assert!(hamming(g[i], g[j]) <= t);
            }
        }
    }
}

#[test]
fn progress_is_reported_at_steps_and_end() {
    assert_eq!(progress_step(10), 5);
    assert_eq!(progress_step(1000), 50);
    assert!(should_report_progress(5, 12, 5));
    assert!(!should_report_progress(6, 12, 5));
    assert!(should_report_progress(12, 12, 5));
}

#[test]
fn scan_skips_output_folders_and_hidden_files() {
    assert!(!keep_entry("Selected_to_Edit", true));
    assert!(!keep_entry("Starred", true));
    assert!(!keep_entry(".trash", true));
    assert!(keep_entry("2024-06 Trip", true));
    assert!(keep_entry(".hidden_dir", true));
    assert!(!keep_entry(".apertin_session.json", false));
    assert!(keep_entry("Starred", false));
    assert!(keep_entry("DSC0001.ARW", false));
}

#[test]
fn supported_extensions_ignore_case() {
    for e in ["arw", "NEF", "Cr2", "cr3", "RAF", "dng", "JPG", "jpeg", "png"] {
        assert!(is_supported_extension(e), "{}", e);
    }
    for e in ["tif", "", "jpe", "pngx", "txt"] {
        assert!(!is_supported_extension(e), "{}", e);
    }
}

#[test]
fn flag_arguments() {
    assert!(is_flag_argument("--verbose"));
    assert!(is_flag_argument("-psn_0_1234"));
    assert!(!is_flag_argument("/Users/me/Photos"));
    assert!(!is_flag_argument(""));
}

#[test]
fn hash_source_within_first_two_mib() {
    let mut d = vec![0u8; 10];
    d.extend_from_slice(&[0xFF, 0xD8, 0xFF, 1, 0xFF, 0xD9]);
    d.extend_from_slice(&[0; 10]);
    assert_eq!(phash_source_range(&d), Some((10, 16)));

    let mut far = vec![0u8; 2 * 1024 * 1024];
    far.extend_from_slice(&[0xFF, 0xD8, 0xFF, 1, 0xFF, 0xD9, 0, 0, 0, 0]);
    assert_eq!(phash_source_range(&far), None);
}

#[test]
fn star_overrides_keep_and_trash() {
    let keep = vec!["a".to_string(), "b".to_string()];
    let trash = vec!["c".to_string(), "b".to_string()];
    let star = vec!["b".to_string(), "d".to_string()];
    let plan = plan_culling(&keep, &trash, &star);
    assert_eq!(
        plan,
        vec![
            ("a".to_string(), CullDestination::SelectedToEdit),
            ("b".to_string(), CullDestination::Starred),
            ("d".to_string(), CullDestination::Starred),
            ("c".to_string(), CullDestination::Trash),
        ]
    );
}

#[test]
fn wide_threshold_puts_every_hashed_photo_in_one_group() {
    let hashes = [Some(0u64), Some(u64::MAX), None, Some(0xF0F0), Some(1)];
    let run = |t: u32| {
        let mut groups: Vec<Vec<u64>> = Vec::new();
        let ids: Vec<usize> = hashes.iter().map(|h| assign_group(&mut groups, *h, t)).collect();
        (groups, ids)
    };
    let (g64, ids64) = run(64);
    assert_eq!(ids64, vec![0, 0, 1, 0, 0]);
    assert_eq!(g64, vec![vec![0, u64::MAX, 0xF0F0, 1], vec![]]);
    assert_eq!(run(65), (g64.clone(), ids64.clone()));
    assert_eq!(run(u32::MAX), (g64, ids64));
    assert_eq!(run(clamp_threshold(500)).1, vec![0, 0, 1, 0, 0]);
}
