use schematic_diff::terminal::{is_pipe_or_socket, route, Route, Screen, Stdout, WindowSize};

fn size(columns: u16, rows: u16, width: u16, height: u16) -> Option<WindowSize> {
    Some(WindowSize { columns, rows, width, height })
}

fn parts(screen: Screen) -> (u32, u32, (u32, u32)) {
    (screen.columns, screen.rows, screen.cell_px)
}

#[test]
fn screens_are_measured() {
    assert_eq!(parts(Screen::measure(size(80, 24, 800, 480))), (80, 24, (10, 20)));
    assert_eq!(parts(Screen::measure(size(80, 24, 0, 480))), (80, 24, (12, 24)));
    assert_eq!(parts(Screen::measure(size(80, 24, 80, 24))), (80, 24, (4, 8)));
    for unknown in [None, size(0, 24, 1, 1), size(80, 0, 1, 1)] {
        assert_eq!(parts(Screen::measure(unknown)), (100, 30, (12, 24)));
    }
}

#[test]
fn images_span_the_width() {
    assert_eq!(Screen::fallback().image_pixels(10), (1200, 240));
    let largest = Screen::measure(size(u16::MAX, 1, u16::MAX, u16::MAX));
    assert_eq!(largest.image_pixels(65535), (262140, 65535 * 65535));
}

#[test]
fn images_leave_room_for_the_text() {
    let screen = Screen::fallback();
    assert_eq!(screen.image_rows(4), 25);
    assert_eq!(screen.image_rows(17), 12);
    assert_eq!(screen.image_rows(18), 25);
    assert_eq!(screen.image_rows(u32::MAX), 25);
    let small = Screen::measure(size(80, 10, 0, 0));
    assert_eq!(small.image_rows(4), 18);
}

#[test]
fn the_output_goes_to_a_terminal_where_there_is_one() {
    assert_eq!(route(Stdout::Terminal, false), Route::StdoutTerminal);
    assert_eq!(route(Stdout::PipeOrSocket, true), Route::ControllingTerminal);
    assert_eq!(route(Stdout::PipeOrSocket, false), Route::StdoutPlain);
    assert_eq!(route(Stdout::Other, true), Route::StdoutPlain);
}

#[test]
fn pipes_and_sockets_are_told_by_their_mode() {
    let test = |mode: u32| is_pipe_or_socket(mode, 0o170000, 0o010000, 0o140000);
    assert!(test(0o010644));
    assert!(test(0o140777));
    assert!(!test(0o100644));
    assert!(!test(0o020620));
}
