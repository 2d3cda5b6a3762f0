use r_archiver::dirreader::{
    add_trailing_slash, archive_member_name, archive_name, date_directory,
    is_excluded, join_path, last_path_component, plan_nested_entry, plan_top_level_entry,
    remove_extension, NestedPlan, TopLevelPlan,
};

fn strings(items: &[&str]) -> Vec<String> {
    items.iter().map(|s| s.to_string()).collect()
}

#[test]
fn trailing_slash_is_added_once() {
    assert_eq!(add_trailing_slash("/mnt/backups"), "/mnt/backups/");
    assert_eq!(add_trailing_slash("/mnt/backups/"), "/mnt/backups/");
    assert_eq!(add_trailing_slash(""), "/");
    let once = add_trailing_slash("relative/dir");
    assert_eq!(add_trailing_slash(&once), once);
    assert!(once.ends_with('/'));
}

#[test]
fn extension_is_cut_at_the_last_dot() {
    assert_eq!(remove_extension("file.txt"), "file");
    assert_eq!(remove_extension("archive.tar.gz"), "archive.tar");
    assert_eq!(remove_extension("noext"), "noext");
    assert_eq!(remove_extension(".bashrc"), "");
    assert_eq!(remove_extension("trailing."), "trailing");
    assert_eq!(remove_extension("ünïcode.ß"), "ünïcode");
}

#[test]
fn removed_extension_splits_the_name() {
    let name = "report.2024.pdf";
    let stem = remove_extension(name);
    let ext = &name[stem.len() + 1..];
    assert_eq!(format!("{}.{}", stem, ext), name);
    assert!(!ext.contains('.'));
}

#[test]
fn last_component_follows_the_last_slash() {
    assert_eq!(last_path_component("/var/www/site"), Some("site".to_string()));
    assert_eq!(last_path_component("/var/www/"), Some(String::new()));
    assert_eq!(last_path_component("name"), None);
    assert_eq!(
        last_path_component("/var/www/site").as_deref(),
        "/var/www/site".rsplit_once('/').map(|(_, b)| b)
    );
}

#[test]
fn archive_name_drops_empty_components() {
    assert_eq!(
        archive_name("/mnt/backups/", "2024-01-02", "site"),
        "/mnt/backups/2024-01-02/site.tar.gz"
    );
    assert_eq!(
        archive_name("mnt//backups///", "2024-01-02", "site"),
        "/mnt/backups/2024-01-02/site.tar.gz"
    );
    assert_eq!(archive_name("", "2024-01-02", "site"), "/2024-01-02/site.tar.gz");
    assert_eq!(archive_name("/mnt/b", "d", ""), "/mnt/b/d/.tar.gz");
}

#[test]
fn archive_name_is_normalized_already() {
    let name = archive_name("//mnt///b//", "2024-05-06", "x");
    let parts: Vec<&str> = name.split('/').filter(|s| !s.is_empty()).collect();
    assert_eq!(format!("/{}", parts.join("/")), name);
    assert!(!name.contains("//"));
    assert!(name.starts_with('/'));
}

#[test]
fn member_name_drops_one_leading_slash() {
    assert_eq!(archive_member_name("/var/www/a.txt"), "var/www/a.txt");
    assert_eq!(archive_member_name("rel/a"), "rel/a");
    assert_eq!(archive_member_name("//x"), "/x");
    assert_eq!(archive_member_name(""), "");
}

#[test]
fn exclusion_is_a_substring_match() {
    let excluded = strings(&["/var/www/rustlings", "/.git/"]);
    assert!(is_excluded("/var/www/rustlings/src/main.rs", &excluded));
    assert!(is_excluded("/var/www/site/.git/HEAD", &excluded));
    assert!(!is_excluded("/var/www/site/index.html", &excluded));
    assert!(!is_excluded("/var/www/rust", &excluded));
    assert!(!is_excluded("/anything", &Vec::new()));
    assert!(is_excluded("/anything", &strings(&[""])));
}

#[test]
fn top_level_folder_gets_an_archive() {
    let plan = plan_top_level_entry("/var/www/site", true, "/mnt/backups/", "2024-01-02", &Vec::new());
    assert_eq!(
        plan,
        TopLevelPlan::ArchiveDirectory { tar_name: "/mnt/backups/2024-01-02/site.tar.gz".to_string() }
    );
}

#[test]
fn top_level_folder_is_archived_even_when_listed_as_excluded() {
    let excluded = strings(&["/var/www/site"]);
    let plan = plan_top_level_entry("/var/www/site", true, "/mnt", "d", &excluded);
    assert_eq!(plan, TopLevelPlan::ArchiveDirectory { tar_name: "/mnt/d/site.tar.gz".to_string() });
}

#[test]
fn top_level_file_gets_an_archive_without_its_extension() {
    let plan = plan_top_level_entry("/var/www/notes.txt", false, "/mnt/backups", "2024-01-02", &Vec::new());
    assert_eq!(
        plan,
        TopLevelPlan::ArchiveFile {
            tar_name: "/mnt/backups/2024-01-02/notes.tar.gz".to_string(),
            member_name: "var/www/notes.txt".to_string(),
        }
    );
}

#[test]
fn top_level_excluded_file_is_reported() {
    let excluded = strings(&["notes"]);
    let plan = plan_top_level_entry("/var/www/notes.txt", false, "/mnt", "d", &excluded);
    assert_eq!(plan, TopLevelPlan::ExcludedFile { tar_name: "/mnt/d/notes.tar.gz".to_string() });
}

#[test]
fn top_level_path_without_slash_is_skipped() {
    let plan = plan_top_level_entry("notes.txt", false, "/mnt", "d", &Vec::new());
    assert_eq!(plan, TopLevelPlan::Skip);
}

#[test]
fn nested_entries_are_planned() {
    let excluded = strings(&["target"]);
    assert_eq!(plan_nested_entry("/w/src", true, false, &excluded), NestedPlan::Descend);
    assert_eq!(plan_nested_entry("/w/target", true, false, &excluded), NestedPlan::Excluded);
    assert_eq!(
        plan_nested_entry("/w/src/main.rs", false, true, &excluded),
        NestedPlan::AppendFile { member_name: "w/src/main.rs".to_string() }
    );
    assert_eq!(plan_nested_entry("/w/target/x", false, true, &excluded), NestedPlan::Excluded);
    assert_eq!(plan_nested_entry("/w/socket", false, false, &excluded), NestedPlan::Ignore);
}

#[test]
fn join_follows_path_join() {
    for (base, child) in [("/mnt/b/", "2024"), ("/mnt/b", "x"), ("", "x"), ("/a", "/b"), ("a", "")] {
        let expected = std::path::Path::new(base).join(child);
        assert_eq!(join_path(base, child), expected.to_str().unwrap(), "{} {}", base, child);
    }
}

#[test]
fn date_directory_joins_the_date() {
    assert_eq!(date_directory("/mnt/backups/", "2024-01-02"), "/mnt/backups/2024-01-02");
    assert_eq!(date_directory("/mnt/backups", "2024-01-02"), "/mnt/backups/2024-01-02");
    assert_eq!(date_directory("", "2024-01-02"), "2024-01-02");
}

#[test]
fn archive_names_depend_on_destination_segments_only() {
    let names: Vec<String> = ["backups", "/backups/", "//backups", "backups///"]
        .iter()
        .map(|d| archive_name(d, "2024-01-02", "site"))
        .collect();
    for name in &names {
        assert_eq!(name, "/backups/2024-01-02/site.tar.gz");
    }
}

#[test]
fn paths_below_an_excluded_folder_are_excluded() {
    let excluded = strings(&["/var/www/rustlings"]);
    assert!(is_excluded("/var/www/rustlings", &excluded));
    for child in ["/var/www/rustlings/a", "/var/www/rustlings/deep/er/file.rs"] {
        assert!(is_excluded(child, &excluded));
        assert_eq!(plan_nested_entry(child, false, true, &excluded), NestedPlan::Excluded);
        assert_eq!(plan_nested_entry(child, true, false, &excluded), NestedPlan::Excluded);
    }
}
