//! Window controls of the title bar: which ones are shown, what they are
//! called, and what a click on each asks the window to do.
use vstd::prelude::*;

verus! {

/// A window control button.
#[derive(Clone, Copy, Debug, PartialEq, Eq, Structural, Hash)]
pub enum ControlKind {
    Minimize,
    Restore,
    Maximize,
    Close,
}

/// The platform area a control stands for.
#[derive(Clone, Copy, Debug, PartialEq, Eq, Structural, Hash)]
pub enum WindowControlArea {
    Min,
    Max,
    Close,
}

/// What a click on a control asks of the window.
#[derive(Clone, Copy, Debug, PartialEq, Eq, Structural, Hash)]
pub enum WindowAction {
    Minimize,
    Zoom,
    Remove,
}

impl ControlKind {
    /// The element identifier of the control.
    pub fn id(self) -> (id: &'static str)
        ensures
            id@ == match self {
                ControlKind::Minimize => "window-minimize"@,
                ControlKind::Restore => "window-restore"@,
                ControlKind::Maximize => "window-maximize"@,
                ControlKind::Close => "window-close"@,
            },
    {
        match self {
            ControlKind::Minimize => "window-minimize",
            ControlKind::Restore => "window-restore",
            ControlKind::Maximize => "window-maximize",
            ControlKind::Close => "window-close",
        }
    }

    /// The accessible label of the control.
    pub fn label(self) -> (label: &'static str)
        ensures
            label@ == match self {
                ControlKind::Minimize => "Minimize window"@,
                ControlKind::Restore => "Restore window"@,
                ControlKind::Maximize => "Maximize window"@,
                ControlKind::Close => "Close window"@,
            },
    {
        match self {
            ControlKind::Minimize => "Minimize window",
            ControlKind::Restore => "Restore window",
            ControlKind::Maximize => "Maximize window",
            ControlKind::Close => "Close window",
        }
    }

    /// The platform area of the control.
    pub fn control_area(self) -> (area: WindowControlArea)
        ensures
            area == match self {
                ControlKind::Minimize => WindowControlArea::Min,
                ControlKind::Restore | ControlKind::Maximize => WindowControlArea::Max,
                ControlKind::Close => WindowControlArea::Close,
            },
    {
        match self {
            ControlKind::Minimize => WindowControlArea::Min,
            ControlKind::Restore | ControlKind::Maximize => WindowControlArea::Max,
            ControlKind::Close => WindowControlArea::Close,
        }
    }

    /// Whether this is the close control.
    pub fn is_close(self) -> (close: bool)
        ensures
            close == (self == ControlKind::Close),
    {
        match self {
            ControlKind::Close => true,
            _ => false,
        }
    }

    /// What a click asks of the window: minimizing, zooming, or removing it.
    pub fn action(self) -> (action: WindowAction)
        ensures
            action == match self {
                ControlKind::Minimize => WindowAction::Minimize,
                ControlKind::Restore | ControlKind::Maximize => WindowAction::Zoom,
                ControlKind::Close => WindowAction::Remove,
            },
    {
        match self {
            ControlKind::Minimize => WindowAction::Minimize,
            ControlKind::Restore | ControlKind::Maximize => WindowAction::Zoom,
            ControlKind::Close => WindowAction::Remove,
        }
    }
}

/// One control button of the title bar.
#[derive(Clone, Copy, Debug, PartialEq, Eq, Structural, Hash)]
pub struct WindowControl {
    pub kind: ControlKind,
}

impl WindowControl {
    pub fn new(kind: ControlKind) -> (control: WindowControl)
        ensures
            control.kind == kind,
    {
        WindowControl { kind }
    }
}

/// The controls a client-decorated window shows, left to right: minimize
/// when the window may be minimized, restore or maximize (by whether it is
/// maximized) when it may be resized, and always close.
pub open spec fn shown_controls(minimizable: bool, resizable: bool, maximized: bool) -> Seq<ControlKind> {
    (if minimizable {
        seq![ControlKind::Minimize]
    } else {
        Seq::empty()
    }) + (if resizable {
        seq![if maximized {
            ControlKind::Restore
        } else {
            ControlKind::Maximize
        }]
    } else {
        Seq::empty()
    }) + seq![ControlKind::Close]
}

/// Lists the controls a client-decorated window shows.
pub fn window_controls(minimizable: bool, resizable: bool, maximized: bool) -> (controls: Vec<
    WindowControl,
>)
    ensures
        controls@.len() == shown_controls(minimizable, resizable, maximized).len(),
        forall|k: int|
            0 <= k < controls@.len() ==> (#[trigger] controls@[k]).kind == shown_controls(
                minimizable,
                resizable,
                maximized,
            )[k],
{
    let mut controls: Vec<WindowControl> = Vec::new();
    if minimizable {
        controls.push(WindowControl::new(ControlKind::Minimize));
    }
    if resizable {
        controls.push(
            WindowControl::new(
                if maximized {
                    ControlKind::Restore
                } else {
                    ControlKind::Maximize
                },
            ),
        );
    }
    controls.push(WindowControl::new(ControlKind::Close));
    controls
}

} // verus!
