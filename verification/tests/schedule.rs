use vestra::schedule::{plan_windows, FrameWindow, ScheduleError, WindowSettings};

#[test]
fn default_schedule_matches_pinned_cpp_loop() {
    let windows = plan_windows(60, WindowSettings::default()).unwrap();
    assert_eq!(
        windows.first().unwrap(),
        &FrameWindow {
            index: 0,
            start: 0,
            end: 12
        }
    );
    assert_eq!(
        windows[1],
        FrameWindow {
            index: 1,
            start: 9,
            end: 21
        }
    );
    assert_eq!(
        windows.last().unwrap(),
        &FrameWindow {
            index: 6,
            start: 54,
            end: 60
        }
    );
}

#[test]
fn sporting_workload_matches_the_cpp_terminal_window_rule() {
    let windows = plan_windows(120, WindowSettings::default()).unwrap();
    assert_eq!(windows.len(), 13);
    assert_eq!(windows.last().unwrap().start, 108);
    assert_eq!(windows.last().unwrap().end, 120);
}

#[test]
fn invalid_overlap_is_rejected() {
    assert_eq!(
        plan_windows(
            10,
            WindowSettings {
                chunk_size: 12,
                overlap: 12
            }
        ),
        Err(ScheduleError::OverlapTooLarge)
    );
}

#[test]
fn a_chunk_below_two_is_rejected() {
    let settings = WindowSettings {
        chunk_size: 1,
        overlap: 0,
    };
    assert_eq!(plan_windows(10, settings), Err(ScheduleError::ChunkTooSmall));
    assert_eq!(
        ScheduleError::ChunkTooSmall.message(),
        "chunk size must be at least 2"
    );
}

#[test]
fn no_frames_need_no_window() {
    assert_eq!(plan_windows(0, WindowSettings::default()), Ok(Vec::new()));
}

#[test]
fn a_single_frame_is_one_window() {
    let windows = plan_windows(1, WindowSettings::default()).unwrap();
    assert_eq!(windows.len(), 1);
    assert_eq!(windows[0].len(), 1);
    assert!(!windows[0].is_empty());
}

#[test]
fn a_huge_chunk_covers_everything_at_once() {
    let settings = WindowSettings {
        chunk_size: usize::MAX,
        overlap: 3,
    };
    let windows = plan_windows(40, settings).unwrap();
    assert_eq!(
        windows,
        vec![FrameWindow {
            index: 0,
            start: 0,
            end: 40
        }]
    );
}

#[test]
fn consecutive_windows_share_the_overlap() {
    let settings = WindowSettings {
        chunk_size: 5,
        overlap: 2,
    };
    let windows = plan_windows(17, settings).unwrap();
    for pair in windows.windows(2) {
        assert_eq!(pair[0].end - pair[1].start, 2);
    }
    assert_eq!(windows.last().unwrap().end, 17);
}
