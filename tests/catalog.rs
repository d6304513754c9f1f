use vimcast::discovery::{
    add_unless_named, bundle_entry, catalog_from_bundles, catalog_from_shortcuts, shortcut_entry,
};
use vimcast::loader::{apps_json_path, eq_ignore_ascii_case, find_target, load, App, LaunchError};
use vimcast::search::RadixNode;

fn pairs(apps: &[App]) -> Vec<(String, String)> {
    apps.iter().map(|a| (a.name.clone(), a.path.clone())).collect()
}

#[test]
fn launch_matches_name_ignoring_case() {
    let apps = vec![App::new("C:\\Windows\\notepad.exe", "notepad"), App::new("/usr/bin/vim", "vim")];
    assert_eq!(find_target(&apps, "Notepad"), Ok("C:\\Windows\\notepad.exe".to_string()));
    assert_eq!(find_target(&apps, "VIM"), Ok("/usr/bin/vim".to_string()));
    assert_eq!(find_target(&apps, "nosuchapp"), Err(LaunchError::NotFound));
}

#[test]
fn launch_takes_the_first_match() {
    let apps = vec![App::new("first", "Mail"), App::new("second", "mail")];
    assert_eq!(find_target(&apps, "MAIL"), Ok("first".to_string()));
    assert_eq!(find_target(&Vec::new(), "mail"), Err(LaunchError::NotFound));
}

#[test]
fn ascii_case_is_ignored_but_nothing_else() {
    assert!(eq_ignore_ascii_case("Safari", "sAFARI"));
    assert!(!eq_ignore_ascii_case("Safari", "Safar"));
    assert!(!eq_ignore_ascii_case("É", "é"));
    assert!(eq_ignore_ascii_case("", ""));
    assert!(!eq_ignore_ascii_case("a[", "A{"));
}

#[test]
fn bundles_become_open_commands() {
    let a = bundle_entry("Safari.app").unwrap();
    assert_eq!(a.name, "Safari");
    assert_eq!(a.path, "open -a \"Safari\"");
    let b = bundle_entry("Visual Studio Code.app").unwrap();
    assert_eq!(b.name, "Visual Studio Code");
    assert_eq!(b.path, "open -a \"Visual Studio Code\"");
    let c = bundle_entry("my.tool.app").unwrap();
    assert_eq!(c.name, "my.tool");
    assert!(bundle_entry("README.md").is_none());
    assert!(bundle_entry(".app").is_none());
    assert!(bundle_entry("app").is_none());
    assert!(bundle_entry("Thing.app.bak").is_none());
    assert!(bundle_entry("Thing.App").is_none());
}

#[test]
fn bundle_catalog_keeps_first_of_each_name() {
    let files: Vec<String> = ["Safari.app", "notes.txt", "Mail.app", "safari.app", "Chess.app"]
        .iter()
        .map(|s| s.to_string())
        .collect();
    let apps = catalog_from_bundles(&files);
    assert_eq!(
        pairs(&apps),
        vec![
            ("Safari".to_string(), "open -a \"Safari\"".to_string()),
            ("Mail".to_string(), "open -a \"Mail\"".to_string()),
            ("Chess".to_string(), "open -a \"Chess\"".to_string()),
        ]
    );
    assert!(catalog_from_bundles(&Vec::new()).is_empty());
}

#[test]
fn dangling_shortcut_is_left_out() {
    let links = vec![
        ("Word.lnk".to_string(), Some("C:\\Office\\word.exe".to_string())),
        ("Gone.lnk".to_string(), None),
        ("Excel.lnk".to_string(), Some("C:\\Office\\excel.exe".to_string())),
        ("desktop.ini".to_string(), Some("C:\\desktop.ini".to_string())),
    ];
    let apps = catalog_from_shortcuts(&links);
    assert_eq!(
        pairs(&apps),
        vec![
            ("Word.lnk".to_string(), "C:\\Office\\word.exe".to_string()),
            ("Excel.lnk".to_string(), "C:\\Office\\excel.exe".to_string()),
        ]
    );
}

#[test]
fn shortcut_catalog_keeps_first_of_each_name() {
    let links = vec![
        ("Word.lnk".to_string(), Some("a".to_string())),
        ("WORD.lnk".to_string(), Some("b".to_string())),
    ];
    assert_eq!(pairs(&catalog_from_shortcuts(&links)), vec![("Word.lnk".to_string(), "a".to_string())]);
}

#[test]
fn shortcut_entry_needs_lnk_and_target() {
    let a = shortcut_entry("Paint.lnk", Some("C:\\paint.exe".to_string())).unwrap();
    assert_eq!(a.name, "Paint.lnk");
    assert_eq!(a.path, "C:\\paint.exe");
    assert!(shortcut_entry("Paint.lnk", None).is_none());
    assert!(shortcut_entry("Paint.exe", Some("C:\\paint.exe".to_string())).is_none());
}

#[test]
fn catalog_names_feed_the_index() {
    let apps = vec![App::new("p1", "Calculator"), App::new("p2", "Calendar"), App::new("p3", "Chess")];
    let mut db = RadixNode::new();
    load(&mut db, &apps);
    let mut found = db.collect("CAL");
    found.sort();
    assert_eq!(found, vec!["calculator".to_string(), "calendar".to_string()]);
    assert!(db.search("chess"));
}

#[test]
fn catalog_file_lives_under_vimcast() {
    assert_eq!(apps_json_path("/home/u/.config"), "/home/u/.config/vimcast/apps.json");
}

#[test]
fn app_new_keeps_fields() {
    let a = App::new("/bin/ls", "ls");
    assert_eq!(a.path, "/bin/ls");
    assert_eq!(a.name, "ls");
}

#[test]
fn adding_a_known_name_changes_nothing() {
    let mut apps = vec![App::new("a", "Chess")];
    add_unless_named(&mut apps, App::new("b", "CHESS"));
    assert_eq!(pairs(&apps), vec![("Chess".to_string(), "a".to_string())]);
    add_unless_named(&mut apps, App::new("c", "Chest"));
    assert_eq!(
        pairs(&apps),
        vec![("Chess".to_string(), "a".to_string()), ("Chest".to_string(), "c".to_string())]
    );
}
