use multi_horizon::marker::{is_marker, marker_file_name, marker_user};
use multi_horizon::profiles::Listed;
use multi_horizon::slot::{active_user, detect_slot, SlotMode};

fn files(v: &[&str]) -> Vec<Listed> {
    v.iter().map(|s| Listed { name: s.to_string(), is_dir: false }).collect()
}

#[test]
fn marker_file_name_appends_extension() {
    assert_eq!(marker_file_name("alice"), "alice.mhzd");
}

#[test]
fn marker_extension_is_recognised() {
    assert!(is_marker("alice.mhzd"));
    assert!(is_marker("a.b.mhzd"));
    assert!(!is_marker(".mhzd"));
    assert!(!is_marker("alice.mhz"));
    assert!(!is_marker("alice.mhzdx"));
    assert!(!is_marker("alicemhzd"));
    assert!(!is_marker(""));
}

#[test]
fn marker_user_drops_only_the_extension() {
    assert_eq!(marker_user("bob.mhzd"), Some("bob".to_string()));
    assert_eq!(marker_user("bob.old.mhzd"), Some("bob.old".to_string()));
    assert_eq!(marker_user("save.dat"), None);
    assert_eq!(marker_user(".mhzd"), None);
}

#[test]
fn active_user_takes_first_marker() {
    let children = files(&["profile", "carol.mhzd", "dave.mhzd"]);
    assert_eq!(active_user(&children), Some("carol".to_string()));
    assert_eq!(active_user(&files(&["a", "b.txt"])), None);
    let with_dir = vec![
        Listed { name: "old.mhzd".to_string(), is_dir: true },
        Listed { name: "erin.mhzd".to_string(), is_dir: false },
    ];
    assert_eq!(active_user(&with_dir), Some("erin".to_string()));
    assert_eq!(active_user(&Vec::new()), None);
}

#[test]
fn detect_slot_modes() {
    let children = files(&["x.bin", "erin.mhzd"]);
    assert_eq!(detect_slot(false, None, &children), SlotMode::Absent);
    assert_eq!(
        detect_slot(true, Some("erin".to_string()), &children),
        SlotMode::Link("erin".to_string())
    );
    assert_eq!(
        detect_slot(true, None, &children),
        SlotMode::CopyWithMarker("erin".to_string())
    );
    assert_eq!(detect_slot(true, None, &files(&["x.bin"])), SlotMode::CopyNoMarker);
}
