use slammer::presets::{sanitize_filename, MAX_FILENAME_LEN};

#[test]
fn sanitize_strips_path_separators() {
    assert_eq!(sanitize_filename("../etc/passwd"), "___etc_passwd");
    assert_eq!(sanitize_filename("a\\b"), "a_b");
}

#[test]
fn sanitize_replaces_spaces_with_underscore() {
    assert_eq!(sanitize_filename("my kick"), "my_kick");
}

#[test]
fn sanitize_caps_length() {
    let long = "a".repeat(500);
    assert_eq!(sanitize_filename(&long).len(), MAX_FILENAME_LEN);
}

#[test]
fn sanitize_empty_becomes_untitled() {
    assert_eq!(sanitize_filename(""), "untitled");
    assert_eq!(sanitize_filename("   "), "untitled");
}

#[test]
fn sanitize_trims_before_replacing_spaces() {
    assert_eq!(sanitize_filename("  big  kick  "), "big__kick");
    assert_eq!(sanitize_filename("a-b_c"), "a-b_c");
    assert_eq!(sanitize_filename("kick!?"), "kick__");
}

#[test]
fn sanitize_replaces_non_ascii_characters() {
    assert_eq!(sanitize_filename("café"), "caf_");
    assert_eq!(sanitize_filename("日本 kick"), "___kick");
}

#[test]
fn sanitize_cut_is_always_on_a_character_boundary() {
    let longer = format!("{}éé", "a".repeat(118));
    assert_eq!(sanitize_filename(&longer), "a".repeat(118) + "__");
    let straddling = format!("{}é", "a".repeat(119));
    assert_eq!(sanitize_filename(&straddling), "a".repeat(119) + "_");
    let many = "é".repeat(200);
    assert_eq!(sanitize_filename(&many), "_".repeat(120));
}

use slammer::presets::{delete_target, listed_factories, parse_last_preset_name, DeleteTarget, HiddenFactories};

fn strings(v: &[&str]) -> Vec<String> {
    v.iter().map(|s| s.to_string()).collect()
}

#[test]
fn last_preset_name_is_trimmed() {
    assert_eq!(parse_last_preset_name("  Punchy Techno\n"), Some("Punchy Techno".to_string()));
    assert_eq!(parse_last_preset_name(" \n\t "), None);
    assert_eq!(parse_last_preset_name(""), None);
}

#[test]
fn hidden_set_insert_contains_remove() {
    let mut h = HiddenFactories::new();
    assert!(!h.contains("Clean Sub"));
    h.insert("Clean Sub");
    h.insert("Clean Sub");
    assert!(h.contains("Clean Sub"));
    assert!(h.remove("Clean Sub"));
    assert!(!h.contains("Clean Sub"));
    assert!(!h.remove("Clean Sub"));
}

#[test]
fn hidden_file_is_sorted_lines() {
    let mut h = HiddenFactories::new();
    h.insert("Punchy Techno");
    h.insert("Clean Sub");
    h.insert("909");
    assert_eq!(h.to_file(), "909\nClean Sub\nPunchy Techno");
    assert_eq!(HiddenFactories::new().to_file(), "");
}

#[test]
fn hidden_file_parses_trimmed_non_empty_lines() {
    let h = HiddenFactories::from_file("  Clean Sub \r\n\n909\n   \nClean Sub");
    assert!(h.contains("Clean Sub"));
    assert!(h.contains("909"));
    assert!(!h.contains(""));
    assert_eq!(h.to_file(), "909\nClean Sub");
}

#[test]
fn hidden_file_round_trips() {
    let mut h = HiddenFactories::new();
    for n in ["b", "a", "Zed", "é", "a b"] {
        h.insert(n);
    }
    let back = HiddenFactories::from_file(&h.to_file());
    assert_eq!(back.to_file(), h.to_file());
    for n in ["b", "a", "Zed", "é", "a b"] {
        assert!(back.contains(n));
    }
}

#[test]
fn user_presets_shadow_factories_ignoring_case() {
    let factory = strings(&["Clean Sub", "Punchy Techno", "909"]);
    let user = strings(&["clean sub", "Mine"]);
    let mut hidden = HiddenFactories::new();
    assert_eq!(listed_factories(&factory, &hidden, &user), vec![1, 2]);
    hidden.insert("909");
    assert_eq!(listed_factories(&factory, &hidden, &user), vec![1]);
    assert_eq!(listed_factories(&factory, &HiddenFactories::new(), &Vec::new()), vec![0, 1, 2]);
}

#[test]
fn delete_prefers_user_file() {
    let factory = strings(&["Clean Sub", "909"]);
    let user = strings(&["Clean Sub", "Mine"]);
    assert_eq!(delete_target(&user, &factory, "Clean Sub"), DeleteTarget::UserFile);
    assert_eq!(delete_target(&user, &factory, "909"), DeleteTarget::HideFactory);
    assert_eq!(delete_target(&user, &factory, "Mine"), DeleteTarget::UserFile);
    assert_eq!(delete_target(&user, &factory, "clean sub"), DeleteTarget::NotFound);
}

#[test]
fn sanitized_names_hold_only_safe_characters() {
    let names = [
        "../../etc/passwd",
        "..",
        ".hidden",
        "C:\\Windows\\system32",
        "  spaced  out  ",
        "ünïcödé kick",
        "tab\there",
        "",
        "   ",
    ];
    for n in names.iter() {
        let r = sanitize_filename(n);
        assert!(!r.is_empty());
        assert!(r.len() <= MAX_FILENAME_LEN);
        assert!(r.chars().all(|c| c.is_ascii_alphanumeric() || c == '-' || c == '_'), "{r}");
    }
    assert_eq!(sanitize_filename(".."), "__");
    assert_eq!(sanitize_filename("   "), "untitled");
}

#[test]
fn sanitize_is_idempotent() {
    let names = [
        "../etc/passwd",
        "my kick",
        "  spaced  out  ",
        "ünïcödé kick",
        "",
        "a-b_c",
        "日本語 キック",
    ];
    for n in names.iter() {
        let once = sanitize_filename(n);
        assert_eq!(sanitize_filename(&once), once);
    }
    let long = "x".repeat(300);
    let once = sanitize_filename(&long);
    assert_eq!(sanitize_filename(&once), once);
}
