//! Identifiers for the UI controls a front end wires to the search engine,
//! and a small tracker for the mouse position.

use vstd::prelude::*;

verus! {

/// The buttons of the control panel.
#[derive(Debug, Clone, Copy, PartialEq, Eq, Structural)]
pub enum ButtonId {
    Reset,
    Step,
    Finish,
    ToggleEdit,
    LoadPreset,
    ClearStorage,
    EditSave,
    SelectPoint,
    AutoScale,
    AutoCreateMap,
    LoadBackground,
    SetOnewayTarget,
    DoubleMap,
}

impl ButtonId {
    pub open spec fn id_str_spec(&self) -> Seq<char> {
        match self {
            ButtonId::Reset => "btn-reset"@,
            ButtonId::Step => "btn-step"@,
            ButtonId::Finish => "btn-finish"@,
            ButtonId::ToggleEdit => "btn-mode-edit"@,
            ButtonId::LoadPreset => "btn-load-preset"@,
            ButtonId::ClearStorage => "btn-clear-storage"@,
            ButtonId::EditSave => "btn-edit-save"@,
            ButtonId::SelectPoint => "btn-select-point"@,
            ButtonId::AutoScale => "btn-auto-scale"@,
            ButtonId::AutoCreateMap => "btn-auto-create-map"@,
            ButtonId::LoadBackground => "btn-load-background"@,
            ButtonId::SetOnewayTarget => "btn-oneway-target-set"@,
            ButtonId::DoubleMap => "btn-double-map"@,
        }
    }

    /// Get the html id of the button.
    pub fn id_str(&self) -> (r: &'static str)
        ensures
            r@ == self.id_str_spec(),
    {
        match self {
            ButtonId::Reset => "btn-reset",
            ButtonId::Step => "btn-step",
            ButtonId::Finish => "btn-finish",
            ButtonId::ToggleEdit => "btn-mode-edit",
            ButtonId::LoadPreset => "btn-load-preset",
            ButtonId::ClearStorage => "btn-clear-storage",
            ButtonId::EditSave => "btn-edit-save",
            ButtonId::SelectPoint => "btn-select-point",
            ButtonId::AutoScale => "btn-auto-scale",
            ButtonId::AutoCreateMap => "btn-auto-create-map",
            ButtonId::LoadBackground => "btn-load-background",
            ButtonId::SetOnewayTarget => "btn-oneway-target-set",
            ButtonId::DoubleMap => "btn-double-map",
        }
    }

    pub open spec fn all_spec() -> Seq<ButtonId> {
        seq![
            ButtonId::Reset,
            ButtonId::Step,
            ButtonId::Finish,
            ButtonId::ToggleEdit,
            ButtonId::LoadPreset,
            ButtonId::ClearStorage,
            ButtonId::EditSave,
            ButtonId::SelectPoint,
            ButtonId::AutoScale,
            ButtonId::AutoCreateMap,
            ButtonId::LoadBackground,
            ButtonId::SetOnewayTarget,
            ButtonId::DoubleMap,
        ]
    }

    /// All button ids, in panel order.
    pub fn iterate() -> (r: Vec<ButtonId>)
        ensures
            r@ == Self::all_spec(),
    {
        let mut r: Vec<ButtonId> = Vec::new();
        r.push(ButtonId::Reset);
        r.push(ButtonId::Step);
        r.push(ButtonId::Finish);
        r.push(ButtonId::ToggleEdit);
        r.push(ButtonId::LoadPreset);
        r.push(ButtonId::ClearStorage);
        r.push(ButtonId::EditSave);
        r.push(ButtonId::SelectPoint);
        r.push(ButtonId::AutoScale);
        r.push(ButtonId::AutoCreateMap);
        r.push(ButtonId::LoadBackground);
        r.push(ButtonId::SetOnewayTarget);
        r.push(ButtonId::DoubleMap);
        proof {
            assert(r@ =~= Self::all_spec());
        }
        r
    }

    pub open spec fn from_key_code_spec(key: Seq<char>) -> Option<ButtonId> {
        if key == "r"@ {
            Some(ButtonId::Reset)
        } else if key == "t"@ {
            Some(ButtonId::Step)
        } else if key == "f"@ {
            Some(ButtonId::Finish)
        } else if key == "e"@ {
            Some(ButtonId::ToggleEdit)
        } else if key == "s"@ {
            Some(ButtonId::EditSave)
        } else if key == "p"@ {
            Some(ButtonId::SelectPoint)
        } else {
            None
        }
    }

    /// The button a keyboard shortcut triggers, if any.
    pub fn from_key_code(key: &str) -> (r: Option<ButtonId>)
        ensures
            r == Self::from_key_code_spec(key@),
    {
        let k = key.to_owned();
        if k == "r".to_owned() {
            Some(ButtonId::Reset)
        } else if k == "t".to_owned() {
            Some(ButtonId::Step)
        } else if k == "f".to_owned() {
            Some(ButtonId::Finish)
        } else if k == "e".to_owned() {
            Some(ButtonId::ToggleEdit)
        } else if k == "s".to_owned() {
            Some(ButtonId::EditSave)
        } else if k == "p".to_owned() {
            Some(ButtonId::SelectPoint)
        } else {
            None
        }
    }
}

/// The mouse buttons a browser reports.
#[derive(Debug, Clone, Copy, PartialEq, Eq, Structural)]
pub enum MouseButton {
    Main,
    Auxillary,
    Secondary,
}

impl MouseButton {
    pub open spec fn from_web_button_spec(button: i16) -> Option<MouseButton> {
        if button == 0 {
            Some(MouseButton::Main)
        } else if button == 1 {
            Some(MouseButton::Auxillary)
        } else if button == 2 {
            Some(MouseButton::Secondary)
        } else {
            None
        }
    }

    /// Converts a browser mouse-event button number to a `MouseButton`.
    pub fn from_web_button(button: i16) -> (r: Option<MouseButton>)
        ensures
            r == Self::from_web_button_spec(button),
    {
        match button {
            0 => Some(MouseButton::Main),
            1 => Some(MouseButton::Auxillary),
            2 => Some(MouseButton::Secondary),
            _ => None,
        }
    }
}

/// A mouse event, reduced to what the engine's front end reads.
#[derive(Debug, Clone, Copy, PartialEq, Eq, Structural)]
pub struct MouseEvent {
    pub x: i32,
    pub y: i32,
    pub button: MouseButton,
    pub ctrl_pressed: bool,
    pub shift_pressed: bool,
}

/// The drop-down selectors of the control panel.
#[derive(Debug, Clone, Copy, PartialEq, Eq, Structural)]
pub enum SelectId {
    BackgroundPreset,
}

impl SelectId {
    pub open spec fn id_str_spec(&self) -> Seq<char> {
        "input-select-background"@
    }

    pub fn id_str(&self) -> (r: &'static str)
        ensures
            r@ == self.id_str_spec(),
    {
        match self {
            SelectId::BackgroundPreset => "input-select-background",
        }
    }

    pub fn iterate() -> (r: Vec<SelectId>)
        ensures
            r@ == seq![SelectId::BackgroundPreset],
    {
        let mut r: Vec<SelectId> = Vec::new();
        r.push(SelectId::BackgroundPreset);
        proof {
            assert(r@ =~= seq![SelectId::BackgroundPreset]);
        }
        r
    }
}

/// The checkboxes of the control panel.
#[derive(Debug, Clone, Copy, PartialEq, Eq, Structural)]
pub enum CheckboxId {
    AutoStep,
    DrawGrid,
    DrawPathfindDebug,
}

impl CheckboxId {
    pub open spec fn id_str_spec(&self) -> Seq<char> {
        match self {
            CheckboxId::AutoStep => "input-auto-step"@,
            CheckboxId::DrawGrid => "input-draw-grid"@,
            CheckboxId::DrawPathfindDebug => "input-draw-pathfind-debug"@,
        }
    }

    pub fn id_str(&self) -> (r: &'static str)
        ensures
            r@ == self.id_str_spec(),
    {
        match self {
            CheckboxId::AutoStep => "input-auto-step",
            CheckboxId::DrawGrid => "input-draw-grid",
            CheckboxId::DrawPathfindDebug => "input-draw-pathfind-debug",
        }
    }

    pub open spec fn all_spec() -> Seq<CheckboxId> {
        seq![CheckboxId::AutoStep, CheckboxId::DrawGrid, CheckboxId::DrawPathfindDebug]
    }

    pub fn iterate() -> (r: Vec<CheckboxId>)
        ensures
            r@ == Self::all_spec(),
    {
        let mut r: Vec<CheckboxId> = Vec::new();
        r.push(CheckboxId::AutoStep);
        r.push(CheckboxId::DrawGrid);
        r.push(CheckboxId::DrawPathfindDebug);
        proof {
            assert(r@ =~= Self::all_spec());
        }
        r
    }
}

/// The numeric inputs of the control panel.
#[derive(Debug, Clone, Copy, PartialEq, Eq, Structural)]
pub enum NumberInputId {
    Rows,
    Cols,
    BackgroundAlpha,
    ForegroundAlpha,
    BackgroundScale,
    AutoScaleFactor,
}

impl NumberInputId {
    pub open spec fn id_str_spec(&self) -> Seq<char> {
        match self {
            NumberInputId::Rows => "input-rows"@,
            NumberInputId::Cols => "input-cols"@,
            NumberInputId::BackgroundAlpha => "input-background-alpha"@,
            NumberInputId::ForegroundAlpha => "input-foreground-alpha"@,
            NumberInputId::BackgroundScale => "input-background-scale"@,
            NumberInputId::AutoScaleFactor => "input-auto-scale-factor"@,
        }
    }

    pub fn id_str(&self) -> (r: &'static str)
        ensures
            r@ == self.id_str_spec(),
    {
        match self {
            NumberInputId::Rows => "input-rows",
            NumberInputId::Cols => "input-cols",
            NumberInputId::BackgroundAlpha => "input-background-alpha",
            NumberInputId::ForegroundAlpha => "input-foreground-alpha",
            NumberInputId::BackgroundScale => "input-background-scale",
            NumberInputId::AutoScaleFactor => "input-auto-scale-factor",
        }
    }

    pub open spec fn all_spec() -> Seq<NumberInputId> {
        seq![
            NumberInputId::Rows,
            NumberInputId::Cols,
            NumberInputId::BackgroundAlpha,
            NumberInputId::ForegroundAlpha,
            NumberInputId::BackgroundScale,
            NumberInputId::AutoScaleFactor,
        ]
    }

    pub fn iterate() -> (r: Vec<NumberInputId>)
        ensures
            r@ == Self::all_spec(),
    {
        let mut r: Vec<NumberInputId> = Vec::new();
        r.push(NumberInputId::Rows);
        r.push(NumberInputId::Cols);
        r.push(NumberInputId::BackgroundAlpha);
        r.push(NumberInputId::ForegroundAlpha);
        r.push(NumberInputId::BackgroundScale);
        r.push(NumberInputId::AutoScaleFactor);
        proof {
            assert(r@ =~= Self::all_spec());
        }
        r
    }
}

/// Any queryable input of the control panel.
#[derive(Debug, Clone, Copy, PartialEq, Eq, Structural)]
pub enum InputId {
    Number(NumberInputId),
    Checkbox(CheckboxId),
    Select(SelectId),
}

impl InputId {
    pub open spec fn id_str_spec(&self) -> Seq<char> {
        match self {
            InputId::Number(id) => id.id_str_spec(),
            InputId::Checkbox(id) => id.id_str_spec(),
            InputId::Select(id) => id.id_str_spec(),
        }
    }

    pub fn id_str(&self) -> (r: &'static str)
        ensures
            r@ == self.id_str_spec(),
    {
        match self {
            InputId::Number(id) => id.id_str(),
            InputId::Checkbox(id) => id.id_str(),
            InputId::Select(id) => id.id_str(),
        }
    }

    pub open spec fn all_spec() -> Seq<InputId> {
        NumberInputId::all_spec().map_values(|id: NumberInputId| InputId::Number(id))
            + CheckboxId::all_spec().map_values(|id: CheckboxId| InputId::Checkbox(id)) + seq![
            InputId::Select(SelectId::BackgroundPreset),
        ]
    }

    /// All input ids: the numeric inputs, then the checkboxes, then the
    /// selectors.
    pub fn iterate() -> (r: Vec<InputId>)
        ensures
            r@ == Self::all_spec(),
    {
        let mut r: Vec<InputId> = Vec::new();
        r.push(InputId::Number(NumberInputId::Rows));
        r.push(InputId::Number(NumberInputId::Cols));
        r.push(InputId::Number(NumberInputId::BackgroundAlpha));
        r.push(InputId::Number(NumberInputId::ForegroundAlpha));
        r.push(InputId::Number(NumberInputId::BackgroundScale));
        r.push(InputId::Number(NumberInputId::AutoScaleFactor));
        r.push(InputId::Checkbox(CheckboxId::AutoStep));
        r.push(InputId::Checkbox(CheckboxId::DrawGrid));
        r.push(InputId::Checkbox(CheckboxId::DrawPathfindDebug));
        r.push(InputId::Select(SelectId::BackgroundPreset));
        proof {
            assert(r@ =~= Self::all_spec());
        }
        r
    }
}

/// Tracks where the mouse currently is, if it is over the canvas at all.
pub struct Input {
    mouse_position: Option<(i32, i32)>,
}

impl Input {
    /// Where the tracker believes the mouse to be.
    pub closed spec fn mouse_position_spec(&self) -> Option<(i32, i32)> {
        self.mouse_position
    }

    /// The mouse entered the canvas or moved over it.
    pub fn on_mouse_at(&mut self, event: &MouseEvent)
        ensures
            final(self).mouse_position_spec() == Some((event.x, event.y)),
    {
        self.mouse_position = Some((event.x, event.y));
    }

    /// The mouse left the canvas.
    pub fn on_mouse_leave(&mut self)
        ensures
            final(self).mouse_position_spec() is None,
    {
        self.mouse_position = None;
    }

    pub fn current_mouse_position(&self) -> (r: Option<(i32, i32)>)
        ensures
            r == self.mouse_position_spec(),
    {
        self.mouse_position
    }
}

impl Default for Input {
    fn default() -> (r: Self)
        ensures
            r.mouse_position_spec() is None,
    {
        Input { mouse_position: None }
    }
}

} // verus!
