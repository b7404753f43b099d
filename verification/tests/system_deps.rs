use aerodesk::system_deps::{accessibility_disabled, install_hint, join, linux_lib_packages, missing_linux_packages, missing_report};

#[test]
fn nothing_missing() {
    assert!(missing_linux_packages(true, &vec![true; 6], true, true).is_empty());
}

#[test]
fn everything_missing() {
    assert_eq!(
        missing_linux_packages(false, &vec![false; 6], false, false),
        vec![
            "pkg-config",
            "libdbus-1-dev",
            "libwebkit2gtk-4.1-dev",
            "libssl-dev",
            "libayatana-appindicator3-dev",
            "librsvg2-dev",
            "at-spi2-core",
            "libxdo-dev",
            "build-essential",
        ]
    );
}

#[test]
fn some_missing() {
    let found = vec![true, false, true, true, false, true];
    let missing = missing_linux_packages(true, &found, true, false);
    assert_eq!(missing, vec!["libwebkit2gtk-4.1-dev", "librsvg2-dev", "build-essential"]);
    assert_eq!(missing_report(&missing), "Missing Linux system dependencies: libwebkit2gtk-4.1-dev, librsvg2-dev, build-essential");
    assert_eq!(install_hint(&missing), "  sudo apt install libwebkit2gtk-4.1-dev librsvg2-dev build-essential");
}

#[test]
fn lib_table() {
    let libs = linux_lib_packages();
    assert_eq!(libs.len(), 6);
    assert_eq!(libs[0], ("dbus-1", "libdbus-1-dev"));
    assert_eq!(libs[5], ("atspi-2", "at-spi2-core"));
}

#[test]
fn join_matches_std() {
    for items in [vec![], vec!["a"], vec!["a", "b", "c"]] {
        assert_eq!(join(&items, ", "), items.join(", "));
    }
}

#[test]
fn accessibility_switch() {
    assert!(accessibility_disabled("false\n"));
    assert!(!accessibility_disabled("true\n"));
    assert!(!accessibility_disabled(""));
}
