use voxel_terrain::runtime::input::Input;
use voxel_terrain::runtime::tasks::{TaskId, TaskPriority, Tasks};
use voxel_terrain::runtime::time::{TargetFrameRate, Time};

fn priority(class_priority: i32, priority_within_class: i32) -> TaskPriority {
    TaskPriority { class_priority, priority_within_class }
}

#[test]
fn tasks_ids_increase() {
    let mut tasks: Tasks<u32> = Tasks::new(2);
    let a = tasks.submit(priority(0, 0), 10);
    let b = tasks.submit(priority(0, 0), 11);
    assert_eq!(a, TaskId(0));
    assert_eq!(b, TaskId(1));
}

#[test]
fn tasks_run_by_priority_then_submission() {
    let mut tasks: Tasks<&str> = Tasks::new(4);
    tasks.submit(priority(2, 0), "loading");
    tasks.submit(priority(1, 5), "far mesh");
    tasks.submit(priority(1, 1), "near mesh");
    tasks.submit(priority(1, 1), "near mesh later");
    assert_eq!(tasks.take_next_task(), Some((TaskId(2), "near mesh")));
    assert_eq!(tasks.take_next_task(), Some((TaskId(3), "near mesh later")));
    assert_eq!(tasks.take_next_task(), Some((TaskId(1), "far mesh")));
    assert_eq!(tasks.take_next_task(), Some((TaskId(0), "loading")));
    assert_eq!(tasks.take_next_task(), None);
    assert_eq!(tasks.active_worker_count(), 4);
}

#[test]
fn tasks_cancel_only_pending() {
    let mut tasks: Tasks<u8> = Tasks::new(1);
    let a = tasks.submit(priority(0, 0), 1);
    let b = tasks.submit(priority(0, 1), 2);
    assert!(tasks.cancel_if_pending(b));
    assert!(!tasks.cancel_if_pending(b));
    assert_eq!(tasks.take_next_task(), Some((a, 1)));
    assert!(!tasks.cancel_if_pending(a));
    assert!(!tasks.block_until_finished());
    tasks.finish_task();
    assert!(tasks.block_until_finished());
}

#[test]
fn tasks_stop_handing_out_after_termination() {
    let mut tasks: Tasks<u8> = Tasks::new(3);
    tasks.submit(priority(0, 0), 1);
    tasks.request_termination();
    assert!(tasks.is_terminating());
    assert_eq!(tasks.take_next_task(), None);
    assert_eq!(tasks.total_worker_count(), 3);
}

#[test]
fn task_priority_compares_class_first() {
    assert!(priority(0, 100).runs_before(&priority(1, 0)));
    assert!(priority(1, 0).runs_before(&priority(1, 1)));
    assert!(!priority(1, 1).runs_before(&priority(1, 1)));
    assert_eq!(TaskPriority::default(), priority(0, 0));
}

#[test]
fn time_delta_and_elapsed() {
    let mut time = Time::new(TargetFrameRate::UnlimitedOrVsync, 1_000);
    time.begin_frame(1_500);
    assert_eq!(time.delta(), 500);
    time.begin_frame(2_250);
    assert_eq!(time.delta(), 750);
    assert_eq!(time.elapsed(), 1_250);
    assert_eq!(time.last_frame_instant(), 2_250);
}

#[test]
fn time_counts_frames_per_second() {
    let second = 1_000_000_000u64;
    let mut time = Time::new(TargetFrameRate::Limited(60), 0);
    time.update_frame_count(10);
    time.update_frame_count(20);
    assert_eq!(time.frames_this_second(), 2);
    assert_eq!(time.get_frames_last_second(), 0);
    time.update_frame_count(second);
    assert_eq!(time.get_frames_last_second(), 3);
    assert_eq!(time.frames_this_second(), 0);
}

#[test]
fn input_press_and_release() {
    let mut input = Input::new();
    input.handle_key(7, true);
    assert!(input.is_key_down(7));
    assert!(input.is_key_just_pressed(7));
    assert!(!input.is_key_just_released(7));
    input.reset();
    assert!(input.is_key_down(7));
    assert!(!input.is_key_just_pressed(7));
    input.handle_key(7, false);
    assert!(!input.is_key_down(7));
    assert!(input.is_key_just_released(7));
    input.handle_mouse_button(1, true);
    assert!(input.is_mouse_button_down(1));
    assert!(input.is_mouse_button_just_pressed(1));
    input.reset();
    assert!(!input.is_mouse_button_just_pressed(1));
    input.handle_mouse_button(1, false);
    assert!(input.is_mouse_button_just_released(1));
    assert!(!input.is_mouse_button_down(1));
}
