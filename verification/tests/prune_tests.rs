use radar_monitor::prune::{clean, find_cut};
use radar_monitor::timecode::TimecodeError;

fn names(list: &[&str]) -> Vec<String> {
    list.iter().map(|s| s.to_string()).collect()
}

#[test]
fn deletes_everything_before_the_newest_gap() {
    let listing = names(&[
        "IDR043.T.202401011210.png",
        "IDR043.T.202401011216.png",
        "IDR043.T.202401011222.png",
        "IDR043.T.202401011240.png",
        "IDR043.T.202401011246.png",
    ]);
    assert_eq!(
        clean(&listing),
        Ok(names(&[
            "IDR043.T.202401011222.png",
            "IDR043.T.202401011216.png",
            "IDR043.T.202401011210.png",
        ]))
    );
}

#[test]
fn sorts_the_listing_before_it_scans() {
    let listing = names(&[
        "IDR043.T.202401011246.png",
        "IDR043.T.202401011210.png",
        "IDR043.T.202401011240.png",
        "IDR043.T.202401011222.png",
        "IDR043.T.202401011216.png",
    ]);
    assert_eq!(
        clean(&listing),
        Ok(names(&[
            "IDR043.T.202401011222.png",
            "IDR043.T.202401011216.png",
            "IDR043.T.202401011210.png",
        ]))
    );
}

#[test]
fn keeps_a_run_without_a_gap() {
    let listing = names(&[
        "IDR043.T.202401011248.png",
        "IDR043.T.202401011254.png",
        "IDR043.T.202401011300.png",
        "IDR043.T.202401011306.png",
    ]);
    assert_eq!(clean(&listing), Ok(Vec::new()));
}

#[test]
fn keeps_only_the_newest_run_of_several() {
    let listing = names(&[
        "IDR043.T.202401011200.png",
        "IDR043.T.202401011206.png",
        "IDR043.T.202401011230.png",
        "IDR043.T.202401011236.png",
        "IDR043.T.202401011310.png",
    ]);
    assert_eq!(
        clean(&listing),
        Ok(names(&[
            "IDR043.T.202401011236.png",
            "IDR043.T.202401011230.png",
            "IDR043.T.202401011206.png",
            "IDR043.T.202401011200.png",
        ]))
    );
}

#[test]
fn an_empty_directory_loses_nothing() {
    assert_eq!(clean(&Vec::new()), Ok(Vec::new()));
}

#[test]
fn a_single_file_is_kept_unread() {
    assert_eq!(clean(&names(&["not a frame"])), Ok(Vec::new()));
}

#[test]
fn a_bad_name_among_the_newest_stops_the_scan() {
    let listing = names(&[
        "IDR043.T.202401011200.png",
        "IDR043.T.202401011206.png",
        "IDR043.T.2024.png",
    ]);
    assert_eq!(clean(&listing), Err(TimecodeError::TooShort));
    let listing = names(&["IDR043.T.202401011200.png", "IDR043.png"]);
    assert_eq!(clean(&listing), Err(TimecodeError::MissingSegment));
    let listing = names(&["IDR043.T.202401011200.png", "IDR043.T.2024010112zz.png"]);
    assert_eq!(clean(&listing), Err(TimecodeError::NotNumeric));
}

#[test]
fn a_bad_name_behind_the_gap_is_deleted_unread() {
    let listing = names(&[
        "IDR043.T..png",
        "IDR043.T.202401011200.png",
        "IDR043.T.202401011240.png",
        "IDR043.T.202401011246.png",
    ]);
    assert_eq!(
        clean(&listing),
        Ok(names(&["IDR043.T.202401011200.png", "IDR043.T..png"]))
    );
}

#[test]
fn find_cut_counts_the_files_in_front_of_the_gap() {
    let sorted = names(&[
        "IDR043.T.202401011210.png",
        "IDR043.T.202401011216.png",
        "IDR043.T.202401011222.png",
        "IDR043.T.202401011240.png",
        "IDR043.T.202401011246.png",
    ]);
    assert_eq!(find_cut(&sorted), Ok(3));
    assert_eq!(find_cut(&sorted[3..].to_vec()), Ok(0));
    assert_eq!(find_cut(&sorted[..3].to_vec()), Ok(0));
    assert_eq!(find_cut(&sorted[2..].to_vec()), Ok(1));
}

#[test]
fn new_files_sort_behind_confirmed_ones() {
    let listing = names(&[
        "xIDR043.T.202401011200.png",
        "IDR043.T.202401011206.png",
        "IDR043.T.202401011212.png",
    ]);
    assert_eq!(
        clean(&listing),
        Ok(names(&["IDR043.T.202401011212.png", "IDR043.T.202401011206.png"]))
    );
}
