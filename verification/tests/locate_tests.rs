use docuum_state::locate::{locate_in, state_location};

#[test]
fn locate_in_joins_fixed_subpath() {
    let p = locate_in("/home/user/.local/share");
    assert_eq!(p.dir, "/home/user/.local/share/docuum");
    assert_eq!(p.file, "/home/user/.local/share/docuum/state.yml");
}

#[test]
fn locate_in_empty_base() {
    let p = locate_in("");
    assert_eq!(p.dir, "/docuum");
    assert_eq!(p.file, "/docuum/state.yml");
}

#[test]
fn state_location_file_lies_in_its_directory() {
    // Whether the host exposes a data directory is environment-dependent;
    // when it does, the resolved file must lie directly in the resolved
    // directory, under the fixed name.
    if let Some(p) = state_location() {
        assert!(p.file.starts_with(p.dir.as_str()));
        assert!(p.file.ends_with("/docuum/state.yml"));
    }
}
