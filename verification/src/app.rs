//! What an application is set up with, and what it does on the events of
//! its window.

pub mod app_builder;

use vstd::prelude::*;

verus! {

/// Descriptor for creating a new UI App.
#[derive(Debug)]
pub struct UIAppCreateDescriptor {
    pub initial_window_title: String,
    pub initial_window_size: (i32, i32),
}

impl Default for UIAppCreateDescriptor {
    fn default() -> (descriptor: Self)
        ensures
            descriptor.initial_window_title@ == "UI Composer App"@,
            descriptor.initial_window_size == (640i32, 360i32),
    {
        UIAppCreateDescriptor {
            initial_window_title: "UI Composer App".to_owned(),
            initial_window_size: (640, 360),
        }
    }
}

/// An event of the window, as far as the application decides on it.
#[derive(Debug, Clone, Copy, PartialEq, Eq, Structural)]
pub enum WindowEvent {
    /// The user asked for the window to be closed.
    CloseRequested,
    /// The window has the given size now.
    Resized { width: u32, height: u32 },
    /// The scale factor changed, and the window has the given size now.
    ScaleFactorChanged { width: u32, height: u32 },
    /// The space bar was pressed.
    SpacePressed,
    /// Any other event.
    Other,
}

/// How an attempt to draw a frame ended.
#[derive(Debug, Clone, Copy, PartialEq, Eq, Structural)]
pub enum RenderOutcome {
    /// The frame was drawn.
    Drawn,
    /// The surface was lost.
    SurfaceLost,
    /// The device is out of memory.
    OutOfMemory,
    /// The frame was not drawn for a reason that may pass.
    Failed,
}

/// What the application does next.
#[derive(Debug, Clone, Copy, PartialEq, Eq, Structural)]
pub enum Action {
    /// Nothing.
    Proceed,
    /// Leave the event loop.
    Exit,
    /// Take the given size for the window and its surface.
    Resize { width: u32, height: u32 },
    /// Let the program change its state.
    Update,
    /// Configure the surface again.
    Reconfigure,
    /// Report that a frame was not drawn.
    Report,
}

/// A window of this size can be drawn to: neither side is zero.
pub open spec fn drawable(width: u32, height: u32) -> bool {
    width > 0 && height > 0
}

/// What the size that a window has taken asks of the application: to take
/// it if it can be drawn to, and nothing if a side of it is zero.
pub open spec fn asked_by_size(width: u32, height: u32) -> Action {
    if drawable(width, height) {
        Action::Resize { width, height }
    } else {
        Action::Proceed
    }
}

/// What a window event asks of every application: to exit when the window
/// is to be closed, and to take the size that the window has after it was
/// resized or its scale factor changed. Every other event, a pressed key
/// among them, asks nothing.
pub open spec fn asked_by(event: WindowEvent) -> Action {
    match event {
        WindowEvent::CloseRequested => Action::Exit,
        WindowEvent::Resized { width, height } => asked_by_size(width, height),
        WindowEvent::ScaleFactorChanged { width, height } => asked_by_size(width, height),
        WindowEvent::SpacePressed => Action::Proceed,
        WindowEvent::Other => Action::Proceed,
    }
}

/// What a window event asks of a program that changes its state when the
/// space bar is pressed, if the program handles the event at all: it
/// handles a close request, a new size, and the space bar.
pub open spec fn input_asks(event: WindowEvent) -> Option<Action> {
    match event {
        WindowEvent::CloseRequested => Some(Action::Exit),
        WindowEvent::Resized { width, height } => Some(asked_by_size(width, height)),
        WindowEvent::ScaleFactorChanged { width, height } => Some(asked_by_size(width, height)),
        WindowEvent::SpacePressed => Some(Action::Update),
        WindowEvent::Other => None,
    }
}

/// Decides what every application does on a window event.
pub fn handle_basic_window_events(event: WindowEvent) -> (action: Action)
    ensures
        action == asked_by(event),
{
    match event {
        WindowEvent::CloseRequested => Action::Exit,
        WindowEvent::Resized { width, height } => resize_window(width, height),
        WindowEvent::ScaleFactorChanged { width, height } => resize_window(width, height),
        _ => Action::Proceed,
    }
}

/// Decides what the program does on a window event. There is an action if
/// and only if the program handles the event.
pub fn handle_input(event: WindowEvent) -> (handled: Option<Action>)
    ensures
        handled == input_asks(event),
{
    match event {
        WindowEvent::CloseRequested => Some(Action::Exit),
        WindowEvent::Resized { width, height } => Some(resize_window(width, height)),
        WindowEvent::ScaleFactorChanged { width, height } => Some(resize_window(width, height)),
        WindowEvent::SpacePressed => Some(Action::Update),
        WindowEvent::Other => None,
    }
}

/// Decides whether a new size is taken.
pub fn resize_window(width: u32, height: u32) -> (action: Action)
    ensures
        action == asked_by_size(width, height),
{
    if !(width > 0 && height > 0) {
        return Action::Proceed;
    }
    Action::Resize { width, height }
}

/// Decides what the application does after it was asked to draw a frame
/// and has tried to: a lost surface is configured again, a device out of
/// memory ends the application, and any other failure is reported.
pub fn request_redraw(outcome: RenderOutcome) -> (action: Action)
    ensures
        action == match outcome {
            RenderOutcome::Drawn => Action::Proceed,
            RenderOutcome::SurfaceLost => Action::Reconfigure,
            RenderOutcome::OutOfMemory => Action::Exit,
            RenderOutcome::Failed => Action::Report,
        },
{
    match outcome {
        RenderOutcome::Drawn => Action::Proceed,
        RenderOutcome::SurfaceLost => Action::Reconfigure,
        RenderOutcome::OutOfMemory => Action::Exit,
        RenderOutcome::Failed => Action::Report,
    }
}

} // verus!
