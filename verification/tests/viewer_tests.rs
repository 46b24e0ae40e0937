use radar_monitor::archive::ZoomLevel;
use radar_monitor::startup::{init, InitStep};
use radar_monitor::viewer::{
    change_speed, change_zoom, frame_after_zoom, next_frame, RenderableType, SPEED_FAST,
    SPEED_MID, SPEED_SLOW,
};

#[test]
fn zoom_steps_between_the_three_levels() {
    assert_eq!(change_zoom(0, true), 1);
    assert_eq!(change_zoom(1, true), 2);
    assert_eq!(change_zoom(2, true), 2);
    assert_eq!(change_zoom(2, false), 1);
    assert_eq!(change_zoom(1, false), 0);
    assert_eq!(change_zoom(0, false), 0);
    assert_eq!(change_zoom(7, true), 2);
    assert_eq!(change_zoom(7, false), 0);
}

#[test]
fn speed_steps_between_the_three_frame_times() {
    assert_eq!((SPEED_SLOW, SPEED_MID, SPEED_FAST), (200, 100, 60));
    assert_eq!(change_speed(SPEED_SLOW, true), SPEED_MID);
    assert_eq!(change_speed(SPEED_MID, true), SPEED_FAST);
    assert_eq!(change_speed(SPEED_FAST, true), SPEED_FAST);
    assert_eq!(change_speed(SPEED_FAST, false), SPEED_MID);
    assert_eq!(change_speed(SPEED_MID, false), SPEED_SLOW);
    assert_eq!(change_speed(SPEED_SLOW, false), SPEED_SLOW);
    assert_eq!(change_speed(17, true), SPEED_FAST);
    assert_eq!(change_speed(17, false), SPEED_SLOW);
}

#[test]
fn frames_wrap_around() {
    assert_eq!(next_frame(0, 3), 1);
    assert_eq!(next_frame(1, 3), 2);
    assert_eq!(next_frame(2, 3), 0);
    assert_eq!(next_frame(5, 3), 0);
    assert_eq!(next_frame(0, 0), 0);
    assert_eq!(next_frame(0, 1), 0);
    assert_eq!(next_frame(usize::MAX, usize::MAX), 0);
    assert_eq!(next_frame(usize::MAX - 1, usize::MAX), 0);
    assert_eq!(next_frame(usize::MAX - 2, usize::MAX), usize::MAX - 1);
}

#[test]
fn a_frame_beyond_the_new_level_goes_back_to_the_first() {
    assert_eq!(frame_after_zoom(4, 10), 4);
    assert_eq!(frame_after_zoom(4, 4), 0);
    assert_eq!(frame_after_zoom(4, 0), 0);
    assert_eq!(frame_after_zoom(0, 0), 0);
}

#[test]
fn renderable_types_differ() {
    assert_ne!(RenderableType::MainImage, RenderableType::BottomSlice);
    assert_eq!(RenderableType::MainImage, RenderableType::MainImage.clone());
}

#[test]
fn the_first_run_marks_after_it_synced() {
    assert_eq!(
        init(),
        vec![
            InitStep::CreateRoot,
            InitStep::Background(ZoomLevel::Low),
            InitStep::Background(ZoomLevel::Mid),
            InitStep::Background(ZoomLevel::High),
            InitStep::InitialSync,
            InitStep::MarkNew(ZoomLevel::Low),
            InitStep::MarkNew(ZoomLevel::Mid),
            InitStep::MarkNew(ZoomLevel::High),
        ]
    );
}
