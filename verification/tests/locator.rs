use ctenv::locate::{locate_config_file, locate_shared_config};

fn comps(parts: &[&str]) -> Vec<Vec<u8>> {
    parts.iter().map(|p| p.as_bytes().to_vec()).collect()
}

#[test]
fn walks_up_to_the_shared_output_root() {
    let out_dir = comps(&["/", "home", "me", "proj", "target", "debug", "build", "foo-1", "out"]);
    let path = locate_shared_config(&out_dir).unwrap();
    assert_eq!(path, comps(&["/", "home", "me", "proj", ".env"]));
}

#[test]
fn deepest_conventional_directory_wins() {
    let out_dir = comps(&["/", "target", "work", "target", "debug", "out"]);
    let path = locate_shared_config(&out_dir).unwrap();
    assert_eq!(path, comps(&["/", "target", "work", ".env"]));
}

#[test]
fn missing_conventional_directory_is_an_explicit_failure() {
    let out_dir = comps(&["/", "home", "me", "proj", "build", "out"]);
    assert!(locate_shared_config(&out_dir).is_err());
}

#[test]
fn empty_path_is_an_explicit_failure() {
    assert!(locate_shared_config(&comps(&[])).is_err());
}

#[test]
fn similar_names_do_not_match() {
    let out_dir = comps(&["/", "proj", "targets", "target2", "my-target", "out"]);
    assert!(locate_shared_config(&out_dir).is_err());
}

#[test]
fn custom_marker_and_file_name() {
    let out_dir = comps(&["/", "proj", "build-output", "pkg", "out"]);
    let path = locate_config_file(&out_dir, b"build-output", b"settings.conf").unwrap();
    assert_eq!(path, comps(&["/", "proj", "settings.conf"]));
}

#[test]
fn root_level_shared_output_root() {
    let out_dir = comps(&["target", "debug", "out"]);
    let path = locate_shared_config(&out_dir).unwrap();
    assert_eq!(path, comps(&[".env"]));
}
