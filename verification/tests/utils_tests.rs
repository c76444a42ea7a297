use brakoll::utils::{
    get_valid_file_ext, has_valid_extension, shorten_path, shorten_path_with_home, should_ignore,
};

fn words(w: &[&str]) -> Vec<String> {
    w.iter().map(|s| s.to_string()).collect()
}

#[test]
fn extensions_follow_path_extension() {
    let exts = words(&["rs", "py", ""]);
    assert!(has_valid_extension("main.rs", &exts));
    assert!(has_valid_extension("a.b.py", &exts));
    assert!(!has_valid_extension("main.c", &exts));
    assert!(!has_valid_extension(".rs", &exts));
    assert!(!has_valid_extension("Makefile", &exts));
    assert!(!has_valid_extension("..", &exts));
    assert!(has_valid_extension("..rs", &exts));
    assert!(has_valid_extension("trailing.", &exts));
}

#[test]
fn blacklisted_names_are_ignored() {
    let bl = words(&["target", ".git"]);
    assert!(should_ignore("target", &bl));
    assert!(should_ignore(".git", &bl));
    assert!(!should_ignore("targets", &bl));
}

#[test]
fn home_prefix_becomes_tilde() {
    let home = Some("/home/ana".to_string());
    assert_eq!(shorten_path_with_home("/home/ana/p/x.rs", &home), "~/p/x.rs");
    assert_eq!(shorten_path_with_home("/srv/p/x.rs", &home), "/srv/p/x.rs");
    assert_eq!(shorten_path_with_home("/home/an", &home), "/home/an");
    assert_eq!(shorten_path_with_home("/home/ana/p", &None), "/home/ana/p");
}

#[test]
fn shorten_path_replaces_the_real_home_directory() {
    if let Some(h) = dirs::home_dir() {
        let h = h.to_string_lossy().into_owned();
        let p = format!("{}/proj/main.rs", h);
        assert_eq!(shorten_path(p), "~/proj/main.rs");
    }
    assert_eq!(shorten_path("relative/x.rs".to_string()), "relative/x.rs");
}

#[test]
fn the_extension_list_is_trimmed_lines() {
    let exts = get_valid_file_ext();
    assert!(exts.contains(&"rs".to_string()));
    assert!(exts.iter().all(|e| e.trim() == e && !e.is_empty()));
}
