use ui_composer::app::app_builder::UIAppBuilder;
use ui_composer::app::{
    handle_basic_window_events, handle_input, request_redraw, resize_window, Action,
    RenderOutcome, UIAppCreateDescriptor, WindowEvent,
};

#[test]
fn builder_starts_with_defaults() {
    let (state, descriptor) = UIAppBuilder::new(5u8).into_parts();
    assert_eq!(state, 5);
    assert_eq!(descriptor.initial_window_title, "Untitled App");
    assert_eq!(descriptor.initial_window_size, (640, 360));
}

#[test]
fn builder_takes_title_and_size() {
    let (state, descriptor) = UIAppBuilder::new(())
        .with_window_title("My Window")
        .with_window_size((300, 300))
        .into_parts();
    assert_eq!(state, ());
    assert_eq!(descriptor.initial_window_title, "My Window");
    assert_eq!(descriptor.initial_window_size, (300, 300));
    let (_, descriptor) =
        UIAppBuilder::new(()).with_window_size((1, 2)).with_window_title("").into_parts();
    assert_eq!(descriptor.initial_window_title, "");
    assert_eq!(descriptor.initial_window_size, (1, 2));
}

#[test]
fn descriptor_has_defaults() {
    let descriptor = UIAppCreateDescriptor::default();
    assert_eq!(descriptor.initial_window_title, "UI Composer App");
    assert_eq!(descriptor.initial_window_size, (640, 360));
}

#[test]
fn window_events_are_decided() {
    assert_eq!(handle_basic_window_events(WindowEvent::CloseRequested), Action::Exit);
    assert_eq!(
        handle_basic_window_events(WindowEvent::Resized { width: 800, height: 600 }),
        Action::Resize { width: 800, height: 600 }
    );
    assert_eq!(
        handle_basic_window_events(WindowEvent::ScaleFactorChanged { width: 1, height: 1 }),
        Action::Resize { width: 1, height: 1 }
    );
    assert_eq!(
        handle_basic_window_events(WindowEvent::Resized { width: 0, height: 600 }),
        Action::Proceed
    );
    assert_eq!(
        handle_basic_window_events(WindowEvent::ScaleFactorChanged { width: 5, height: 0 }),
        Action::Proceed
    );
    assert_eq!(handle_basic_window_events(WindowEvent::Other), Action::Proceed);
}

#[test]
fn pressed_key_is_no_basic_window_event() {
    assert_eq!(handle_basic_window_events(WindowEvent::SpacePressed), Action::Proceed);
}

#[test]
fn program_handles_the_space_bar() {
    assert_eq!(handle_input(WindowEvent::SpacePressed), Some(Action::Update));
    assert_eq!(handle_input(WindowEvent::CloseRequested), Some(Action::Exit));
    assert_eq!(
        handle_input(WindowEvent::Resized { width: 3, height: 4 }),
        Some(Action::Resize { width: 3, height: 4 })
    );
    assert_eq!(
        handle_input(WindowEvent::ScaleFactorChanged { width: 3, height: 4 }),
        Some(Action::Resize { width: 3, height: 4 })
    );
    assert_eq!(handle_input(WindowEvent::Resized { width: 0, height: 4 }), Some(Action::Proceed));
    assert_eq!(handle_input(WindowEvent::Other), None);
}

#[test]
fn size_with_a_zero_side_is_ignored() {
    assert_eq!(resize_window(0, 0), Action::Proceed);
    assert_eq!(resize_window(0, 1), Action::Proceed);
    assert_eq!(resize_window(1, 0), Action::Proceed);
    assert_eq!(resize_window(640, 360), Action::Resize { width: 640, height: 360 });
}

#[test]
fn failed_frames_are_decided() {
    assert_eq!(request_redraw(RenderOutcome::Drawn), Action::Proceed);
    assert_eq!(request_redraw(RenderOutcome::SurfaceLost), Action::Reconfigure);
    assert_eq!(request_redraw(RenderOutcome::OutOfMemory), Action::Exit);
    assert_eq!(request_redraw(RenderOutcome::Failed), Action::Report);
}
