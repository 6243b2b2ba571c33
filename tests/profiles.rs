use multi_horizon::profiles::{
    check_new_name, contains_name, is_new_profile_label, list_profiles, menu_options,
    new_profile_label_text, strip_quotes, Listed, ProfileError,
};

fn names(v: &[&str]) -> Vec<String> {
    v.iter().map(|s| s.to_string()).collect()
}

fn entry(name: &str, is_dir: bool) -> Listed {
    Listed { name: name.to_string(), is_dir }
}

#[test]
fn list_profiles_keeps_directories_in_order() {
    let entries = vec![entry("zed", true), entry("notes.txt", false), entry("amy", true)];
    assert_eq!(list_profiles(&entries), names(&["zed", "amy"]));
    assert!(list_profiles(&Vec::new()).is_empty());
}

#[test]
fn menu_options_end_with_new_profile_label() {
    let menu = menu_options(&names(&["amy", "zed"]));
    assert_eq!(menu, names(&["amy", "zed", "New User"]));
    assert_eq!(menu_options(&Vec::new()), names(&["New User"]));
    assert_eq!(new_profile_label_text(), "New User");
    assert!(is_new_profile_label("New User"));
    assert!(!is_new_profile_label("new user"));
}

#[test]
fn check_new_name_errors() {
    let existing = names(&["amy", "zed"]);
    assert_eq!(check_new_name(&existing, ""), Err(ProfileError::InvalidInput));
    assert_eq!(check_new_name(&existing, "New User"), Err(ProfileError::InvalidInput));
    assert_eq!(check_new_name(&existing, "a.b"), Ok(()));
    assert_eq!(check_new_name(&existing, "a/b"), Err(ProfileError::InvalidInput));
    assert_eq!(check_new_name(&existing, "a\\b"), Err(ProfileError::InvalidInput));
    assert_eq!(check_new_name(&existing, "amy"), Err(ProfileError::AlreadyExists));
    assert_eq!(check_new_name(&existing, "Amy"), Ok(()));
    assert_eq!(check_new_name(&existing, "bob"), Ok(()));
}

#[test]
fn created_name_listed_exactly_once() {
    let mut entries = vec![entry("amy", true), entry("zed", true)];
    let before = list_profiles(&entries);
    assert_eq!(check_new_name(&before, "bob"), Ok(()));
    entries.push(entry("bob", true));
    let after = list_profiles(&entries);
    assert_eq!(after.iter().filter(|n| n.as_str() == "bob").count(), 1);
    assert!(contains_name(&after, "bob"));
    assert!(!contains_name(&before, "bob"));
}

#[test]
fn strip_quotes_trims_surrounding_quotes() {
    assert_eq!(strip_quotes("\"amy\""), "amy");
    assert_eq!(strip_quotes("a\"b\"c"), "a\"b\"c");
    assert_eq!(strip_quotes("\"\"x\"y\"\""), "x\"y");
    assert_eq!(strip_quotes("\"\"\""), "");
    assert_eq!(strip_quotes("plain"), "plain");
    assert_eq!(strip_quotes(""), "");
}
