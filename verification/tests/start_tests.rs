use weight_folders::snapshot::RecentEntry;
use weight_folders::start::{drive_candidates, normalize_input_path, StartState};

#[test]
fn typed_paths_are_normalized() {
    assert_eq!(normalize_input_path("  C:\\Users\\me\\  "), "C:\\Users\\me");
    assert_eq!(normalize_input_path("c:"), "c:\\");
    assert_eq!(normalize_input_path("D:/"), "D:\\");
    assert_eq!(normalize_input_path("\\\\"), "\\\\");
    assert_eq!(normalize_input_path("   "), "");
    assert_eq!(normalize_input_path("C:\\a/b//"), "C:\\a/b");
}

#[test]
fn the_drive_letters() {
    let d = drive_candidates();
    assert_eq!(d.len(), 26);
    assert_eq!(d[0], "A:\\");
    assert_eq!(d[2], "C:\\");
    assert_eq!(d[25], "Z:\\");
}

#[test]
fn start_screen_states() {
    let recent = vec![RecentEntry { root: "C:\\x".to_string(), created_at: 1, file_count: 2, total_size: 3 }];
    let mut present = vec![false; 26];
    present[2] = true;
    let s = StartState::new(&present, recent);
    assert!(s.path.is_empty());
    assert_eq!(s.drives, vec!["C:\\".to_string()]);
    assert_eq!(s.recent.len(), 1);
    assert!(s.error.is_none());

    let s = s.after_scan("C:\\x".to_string(), Some("access denied".to_string()));
    assert_eq!(s.path, "C:\\x");
    assert_eq!(s.error.as_deref(), Some("Scan failed: access denied"));
    let mut s = s.after_scan("C:\\y".to_string(), None);
    assert_eq!(s.path, "C:\\y");
    assert!(s.error.is_none());
    s.reject("Q:\\nothing");
    assert_eq!(s.error.as_deref(), Some("Q:\\nothing is not a folder."));
}

#[test]
fn existing_drives_in_letter_order() {
    let mut present = vec![false; 26];
    present[25] = true;
    present[3] = true;
    present[2] = true;
    let s = StartState::new(&present, vec![]);
    assert_eq!(s.drives, vec!["C:\\".to_string(), "D:\\".to_string(), "Z:\\".to_string()]);
    // a short list of flags leaves the later drives out
    let s = StartState::new(&vec![true], vec![]);
    assert_eq!(s.drives, vec!["A:\\".to_string()]);
    let s = StartState::new(&vec![false; 26], vec![]);
    assert!(s.drives.is_empty());
}
