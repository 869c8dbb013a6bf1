use rmenu::desktop::{choice_from_fields, desktop_choices, parse_desktop_file};
use rmenu::sources::{is_desktop_file, path_dirs, unique_bins};

fn strings(v: &[&str]) -> Vec<String> {
    v.iter().map(|s| s.to_string()).collect()
}

#[test]
fn path_scan_keeps_first_of_duplicates() {
    let found = vec![strings(&["foo", "bar"]), strings(&["baz", "foo"])];
    let out = unique_bins(&found);
    let names: Vec<String> = out.iter().map(|c| c.name.clone()).collect();
    assert_eq!(names, vec!["foo", "bar", "baz"]);
    let foos: Vec<_> = out.iter().filter(|c| c.name == "foo").collect();
    assert_eq!(foos.len(), 1);
    assert_eq!(foos[0].value, "foo");
    assert!(out.iter().all(|c| c.icon.is_empty()));
}

#[test]
fn path_scan_handles_empty_and_repeated_dirs() {
    let found = vec![vec![], strings(&["a", "a"]), vec![]];
    let out = unique_bins(&found);
    assert_eq!(out.len(), 1);
    assert!(unique_bins(&vec![]).is_empty());
}

#[test]
fn path_dirs_split_on_colons() {
    assert_eq!(path_dirs(&"/bin:/usr/bin".to_string()), vec!["/bin", "/usr/bin"]);
    assert_eq!(path_dirs(&"/only".to_string()), vec!["/only"]);
}

#[test]
fn desktop_suffix_detection() {
    assert!(is_desktop_file(&"/usr/share/applications/firefox.desktop".to_string()));
    assert!(!is_desktop_file(&"/usr/share/applications/readme.txt".to_string()));
    assert!(!is_desktop_file(&"desktop".to_string()));
    assert!(is_desktop_file(&".desktop".to_string()));
}

#[test]
fn desktop_file_fields() {
    let file = b"[Desktop Entry]\nName=Firefox\nExec=firefox %u\nIcon=firefox\n".to_vec();
    let c = parse_desktop_file(file).expect("well-formed entry");
    assert_eq!(c.name, "Firefox");
    assert_eq!(c.value, "firefox %u");
    assert_eq!(c.icon, "firefox");
}

#[test]
fn desktop_file_missing_fields_are_empty() {
    let file = b"[Desktop Entry]\nName=Tool\n".to_vec();
    let c = parse_desktop_file(file).expect("well-formed entry");
    assert_eq!(c.name, "Tool");
    assert_eq!(c.value, "");
    assert_eq!(c.icon, "");
}

#[test]
fn desktop_scan_skips_malformed() {
    let good = b"[Desktop Entry]\nName=Editor\nExec=editor\n".to_vec();
    let bad = b"[Desktop Entry]\nthis line has no separator\n".to_vec();
    let out = desktop_choices(vec![bad, good]);
    assert_eq!(out.len(), 1);
    assert_eq!(out[0].name, "Editor");
    assert_eq!(out[0].value, "editor");
}

#[test]
fn fields_default_to_empty() {
    let c = choice_from_fields(Some("N".to_string()), None, None);
    assert_eq!(c.name, "N");
    assert_eq!(c.value, "");
    assert_eq!(c.icon, "");
}

#[test]
fn desktop_scan_keeps_fields_of_good_file() {
    let good = b"[Desktop Entry]\nName=N\nExec=E\nIcon=I\n".to_vec();
    let bad = b"[Desktop Entry]\nno separator here\n".to_vec();
    let out = desktop_choices(vec![good, bad]);
    assert_eq!(out.len(), 1);
    assert_eq!(out[0].name, "N");
    assert_eq!(out[0].value, "E");
    assert_eq!(out[0].icon, "I");
}
