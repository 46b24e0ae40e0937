use radar_monitor::archive::{
    base_name, confirm_new_files, init_background, is_held, is_new, level_dir, local_path,
    mark_files_as_new, mark_new, root_path, select_state, state_of, str_eq, Archive, FileState, Rename,
    ZoomLevel, ARCHIVE_ROOT, NEW_MARKER,
};

fn names(list: &[&str]) -> Vec<String> {
    list.iter().map(|s| s.to_string()).collect()
}

fn pairs(plan: &[Rename]) -> Vec<(String, String)> {
    plan.iter().map(|r| (r.from.clone(), r.to.clone())).collect()
}

fn expected(list: &[(&str, &str)]) -> Vec<(String, String)> {
    list.iter().map(|(a, b)| (a.to_string(), b.to_string())).collect()
}

#[test]
fn levels_have_their_codes() {
    assert_eq!(ZoomLevel::Low.code(), "IDR042");
    assert_eq!(ZoomLevel::Mid.code(), "IDR043");
    assert_eq!(ZoomLevel::High.code(), "IDR044");
    assert_eq!(ZoomLevel::Low.index(), 0);
    assert_eq!(ZoomLevel::Mid.index(), 1);
    assert_eq!(ZoomLevel::High.index(), 2);
}

#[test]
fn the_marker_tells_the_state() {
    assert_eq!(NEW_MARKER, 'x');
    assert!(is_new("xIDR043.T.202401011200.png"));
    assert!(!is_new("IDR043.T.202401011200.png"));
    assert!(!is_new(""));
    assert!(!is_new("Xa"));
    assert_eq!(state_of("xa"), FileState::New);
    assert_eq!(state_of("a"), FileState::Confirmed);
    assert_eq!(state_of(""), FileState::Confirmed);
}

#[test]
fn marking_puts_the_marker_in_front() {
    assert_eq!(mark_new("IDR043.T.202401011200.png"), "xIDR043.T.202401011200.png");
    assert_eq!(mark_new(""), "x");
    assert_eq!(mark_new("xa"), "xxa");
}

#[test]
fn the_base_name_is_the_name_without_marker() {
    assert_eq!(base_name("xIDR043.T.202401011200.png"), "IDR043.T.202401011200.png");
    assert_eq!(base_name("IDR043.T.202401011200.png"), "IDR043.T.202401011200.png");
    assert_eq!(base_name("x"), "");
    assert_eq!(base_name(""), "");
    assert_eq!(base_name("xx\u{e9}"), "x\u{e9}");
    assert_eq!(base_name(&mark_new("abc")), "abc");
}

#[test]
fn a_file_is_held_in_either_state() {
    let listing = names(&["xIDR043.a", "IDR043.b"]);
    assert!(is_held(&listing, "IDR043.a"));
    assert!(is_held(&listing, "IDR043.b"));
    assert!(is_held(&listing, "xIDR043.a"));
    assert!(!is_held(&listing, "IDR043.c"));
    assert!(!is_held(&listing, "xIDR043.b"));
    assert!(!is_held(&Vec::new(), "IDR043.a"));
}

#[test]
fn str_eq_compares_names() {
    assert!(str_eq("abc", "abc"));
    assert!(!str_eq("abc", "abd"));
    assert!(!str_eq("abc", "ab"));
    assert!(str_eq("", ""));
}

#[test]
fn select_state_keeps_the_order() {
    let listing = names(&["xb", "a", "xa", "c", ""]);
    assert_eq!(select_state(&listing, true), names(&["xb", "xa"]));
    assert_eq!(select_state(&listing, false), names(&["a", "c", ""]));
}

#[test]
fn marking_renames_the_confirmed_files_in_order() {
    let listing = names(&["IDR043.b", "xIDR043.c", "IDR043.a"]);
    assert_eq!(
        pairs(&mark_files_as_new(&listing)),
        expected(&[("IDR043.a", "xIDR043.a"), ("IDR043.b", "xIDR043.b")])
    );
}

#[test]
fn marking_leaves_a_new_directory_alone() {
    assert!(mark_files_as_new(&names(&["xa", "xb"])).is_empty());
    assert!(mark_files_as_new(&Vec::new()).is_empty());
}

#[test]
fn confirming_renames_the_new_files_in_order() {
    let listing = names(&["xIDR043.b", "IDR043.c", "xIDR043.a"]);
    assert_eq!(
        pairs(&confirm_new_files(&listing)),
        expected(&[("xIDR043.a", "IDR043.a"), ("xIDR043.b", "IDR043.b")])
    );
    assert!(confirm_new_files(&names(&["a", "b"])).is_empty());
}

#[test]
fn marking_undoes_confirming() {
    let listing = names(&["xIDR043.b", "xIDR043.a"]);
    let confirmed: Vec<String> = confirm_new_files(&listing).into_iter().map(|r| r.to).collect();
    let marked_again: Vec<String> =
        mark_files_as_new(&confirmed).into_iter().map(|r| r.to).collect();
    assert_eq!(marked_again, names(&["xIDR043.a", "xIDR043.b"]));
}

#[test]
fn paths_are_built_from_root_and_code() {
    assert_eq!(ARCHIVE_ROOT, "img/");
    assert_eq!(level_dir(ZoomLevel::Low), "img/IDR042/");
    assert_eq!(level_dir(ZoomLevel::High), "img/IDR044/");
    assert_eq!(local_path(ZoomLevel::Mid, "xIDR043.T.1.png"), "img/IDR043/xIDR043.T.1.png");
    assert_eq!(root_path("IDR043.background.png"), "img/IDR043.background.png");
}

#[test]
fn reference_images_are_named_by_the_code() {
    assert_eq!(
        init_background(ZoomLevel::Mid),
        ("IDR043.background.png".to_string(), "IDR043.locations.png".to_string())
    );
    assert_eq!(
        init_background(ZoomLevel::Low),
        ("IDR042.background.png".to_string(), "IDR042.locations.png".to_string())
    );
}

#[test]
fn an_archive_lists_each_level() {
    let archive = Archive { low: names(&["a"]), mid: names(&["b", "c"]), high: Vec::new() };
    assert_eq!(archive.listing(ZoomLevel::Low), &names(&["a"]));
    assert_eq!(archive.listing(ZoomLevel::Mid), &names(&["b", "c"]));
    assert!(archive.listing(ZoomLevel::High).is_empty());
    let empty = Archive::new();
    assert!(empty.low.is_empty() && empty.mid.is_empty() && empty.high.is_empty());
}
