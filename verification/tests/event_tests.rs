use optimize::event::{ButtonId, CheckboxId, Input, InputId, MouseButton, MouseEvent, NumberInputId, SelectId};

#[test]
fn button_ids_are_stable() {
    assert_eq!(ButtonId::Reset.id_str(), "btn-reset");
    assert_eq!(ButtonId::Step.id_str(), "btn-step");
    assert_eq!(ButtonId::Finish.id_str(), "btn-finish");
    assert_eq!(ButtonId::ToggleEdit.id_str(), "btn-mode-edit");
    assert_eq!(ButtonId::SetOnewayTarget.id_str(), "btn-oneway-target-set");
}

#[test]
fn button_iterate_lists_all_once() {
    let all = ButtonId::iterate();
    assert_eq!(all.len(), 13);
    assert_eq!(all[0], ButtonId::Reset);
    assert_eq!(all[12], ButtonId::DoubleMap);
    for (i, a) in all.iter().enumerate() {
        for b in &all[i + 1..] {
            assert_ne!(a, b);
        }
    }
}

#[test]
fn key_codes_map_to_buttons() {
    assert_eq!(ButtonId::from_key_code("r"), Some(ButtonId::Reset));
    assert_eq!(ButtonId::from_key_code("t"), Some(ButtonId::Step));
    assert_eq!(ButtonId::from_key_code("f"), Some(ButtonId::Finish));
    assert_eq!(ButtonId::from_key_code("e"), Some(ButtonId::ToggleEdit));
    assert_eq!(ButtonId::from_key_code("s"), Some(ButtonId::EditSave));
    assert_eq!(ButtonId::from_key_code("p"), Some(ButtonId::SelectPoint));
    assert_eq!(ButtonId::from_key_code("x"), None);
    assert_eq!(ButtonId::from_key_code(""), None);
    assert_eq!(ButtonId::from_key_code("rr"), None);
}

#[test]
fn web_buttons_map_to_mouse_buttons() {
    assert_eq!(MouseButton::from_web_button(0), Some(MouseButton::Main));
    assert_eq!(MouseButton::from_web_button(1), Some(MouseButton::Auxillary));
    assert_eq!(MouseButton::from_web_button(2), Some(MouseButton::Secondary));
    assert_eq!(MouseButton::from_web_button(3), None);
    assert_eq!(MouseButton::from_web_button(-1), None);
}

#[test]
fn input_ids_delegate_and_enumerate() {
    assert_eq!(InputId::Number(NumberInputId::Rows).id_str(), "input-rows");
    assert_eq!(InputId::Checkbox(CheckboxId::AutoStep).id_str(), "input-auto-step");
    assert_eq!(
        InputId::Select(SelectId::BackgroundPreset).id_str(),
        "input-select-background"
    );
    let all = InputId::iterate();
    assert_eq!(all.len(), 10);
    assert_eq!(all[0], InputId::Number(NumberInputId::Rows));
    assert_eq!(all[6], InputId::Checkbox(CheckboxId::AutoStep));
    assert_eq!(all[9], InputId::Select(SelectId::BackgroundPreset));
    assert_eq!(NumberInputId::iterate().len(), 6);
    assert_eq!(CheckboxId::iterate().len(), 3);
    assert_eq!(SelectId::iterate().len(), 1);
}

#[test]
fn number_input_ids_are_stable() {
    assert_eq!(NumberInputId::Rows.id_str(), "input-rows");
    assert_eq!(NumberInputId::Cols.id_str(), "input-cols");
    assert_eq!(NumberInputId::BackgroundAlpha.id_str(), "input-background-alpha");
    assert_eq!(NumberInputId::AutoScaleFactor.id_str(), "input-auto-scale-factor");
    assert_eq!(CheckboxId::DrawGrid.id_str(), "input-draw-grid");
    assert_eq!(CheckboxId::DrawPathfindDebug.id_str(), "input-draw-pathfind-debug");
}

#[test]
fn input_tracks_mouse_position() {
    let mut input = Input::default();
    assert_eq!(input.current_mouse_position(), None);
    let event = MouseEvent {
        x: 10,
        y: -3,
        button: MouseButton::Main,
        ctrl_pressed: false,
        shift_pressed: true,
    };
    input.on_mouse_at(&event);
    assert_eq!(input.current_mouse_position(), Some((10, -3)));
    input.on_mouse_leave();
    assert_eq!(input.current_mouse_position(), None);
}
