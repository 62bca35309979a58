//! Building an application step by step.

use vstd::prelude::*;
use super::UIAppCreateDescriptor;

verus! {

/// Collects what an application starts with.
pub struct UIAppBuilder<TState> {
    initial_state: TState,
    window_title: String,
    window_size: (i32, i32),
}

/// What a builder has collected.
pub struct Collected<TState> {
    pub initial_state: TState,
    pub window_title: Seq<char>,
    pub window_size: (i32, i32),
}

impl<TState> View for UIAppBuilder<TState> {
    type V = Collected<TState>;

    closed spec fn view(&self) -> Collected<TState> {
        Collected {
            initial_state: self.initial_state,
            window_title: self.window_title@,
            window_size: self.window_size,
        }
    }
}

impl<TState> UIAppBuilder<TState> {
    /// A builder for an application that starts in `initial_state`, in a
    /// window of 640 by 360 with the title "Untitled App".
    pub fn new(initial_state: TState) -> (builder: Self)
        ensures
            builder@ == (Collected {
                initial_state,
                window_title: "Untitled App"@,
                window_size: (640i32, 360i32),
            }),
    {
        Self { initial_state, window_title: "Untitled App".to_owned(), window_size: (640, 360) }
    }

    /// Changes the window title of the main app window.
    pub fn with_window_title(self, title: &str) -> (builder: Self)
        ensures
            builder@ == (Collected { window_title: title@, ..self@ }),
    {
        Self {
            initial_state: self.initial_state,
            window_title: title.to_owned(),
            window_size: self.window_size,
        }
    }

    /// Changes the window size of the main app window. This has no effect
    /// where the window is fullscreen.
    pub fn with_window_size(self, size: (i32, i32)) -> (builder: Self)
        ensures
            builder@ == (Collected { window_size: size, ..self@ }),
    {
        Self {
            initial_state: self.initial_state,
            window_title: self.window_title,
            window_size: size,
        }
    }

    /// Hands out the initial state and the descriptor of the window that the
    /// application is created with.
    pub fn into_parts(self) -> (parts: (TState, UIAppCreateDescriptor))
        ensures
            parts.0 == self@.initial_state,
            parts.1.initial_window_title@ == self@.window_title,
            parts.1.initial_window_size == self@.window_size,
    {
        (
            self.initial_state,
            UIAppCreateDescriptor {
                initial_window_title: self.window_title,
                initial_window_size: self.window_size,
            },
        )
    }
}

} // verus!
