use voxel_engine::inputs::{Input, InputsState};

#[test]
fn press_and_release_within_a_frame() {
    let mut state = InputsState::new();
    let w = Input::Key(17);
    state.register_input_event(w, true);
    assert!(state.just_pressed(w));
    assert!(state.pressed(w));
    state.register_input_event(w, false);
    // Still counts as down for this frame.
    assert!(state.pressed(w));
    assert!(state.just_released(w));
    state.frame_clear();
    assert!(!state.pressed(w));
    assert!(!state.just_pressed(w));
    assert!(!state.just_released(w));
}

#[test]
fn held_inputs_stay_down_across_frames() {
    let mut state = InputsState::new();
    let left = Input::Button(0);
    let key = Input::Key(0);
    state.register_input_event(left, true);
    state.frame_clear();
    assert!(state.pressed(left));
    assert!(!state.just_pressed(left));
    // A key and a button with the same code are different inputs.
    assert!(!state.pressed(key));
    state.register_input_event(left, false);
    assert!(!state.pressed(left));
    assert!(state.just_released(left));
}
