//! Terminal geometry, and which stream the output goes to.
//!
//! Git can send an external diff's stdout to a terminal, pipe, or regular file.
//! Image escapes are safe only on a terminal. A pipe's reader cannot render the
//! image, so then the terminal itself is looked for; a file is an explicit
//! redirect and stays untouched.

use vstd::prelude::*;

verus! {

/// What the system reports of a terminal's size: in cells, and in pixels where it
/// knows.
#[derive(Clone, Copy, Debug)]
pub struct WindowSize {
    pub columns: u16,
    pub rows: u16,
    pub width: u16,
    pub height: u16,
}

/// The size of a terminal: in cells, and of one cell in pixels.
#[derive(Clone, Copy, Debug)]
pub struct Screen {
    pub columns: u32,
    pub rows: u32,
    pub cell_px: (u32, u32),
}

/// The size of a cell along one axis: the pixels shared out, but at least so many.
pub open spec fn cell_size(pixels: int, cells: int, floor: int) -> int {
    if pixels / cells < floor {
        floor
    } else {
        pixels / cells
    }
}

impl Screen {
    /// A screen has cells, and its pixels can be counted.
    pub open spec fn wf(self) -> bool {
        &&& 1 <= self.columns <= 65535
        &&& 1 <= self.rows <= 65535
        &&& 4 <= self.cell_px.0 <= 65535
        &&& 8 <= self.cell_px.1 <= 65535
    }

    /// A screen is the one that is taken where nothing is known.
    pub open spec fn is_fallback(self) -> bool {
        self.columns == 100 && self.rows == 30 && self.cell_px == (12u32, 24u32)
    }

    /// Read cell counts and pixel dimensions. Where the pixel dimensions are not
    /// known a cell is taken to be 12 by 24, whose 1:2 ratio preserves terminal
    /// text proportions.
    pub fn measure(size: Option<WindowSize>) -> (r: Self)
        ensures
            r.wf(),
            match size {
                Some(size) => if size.columns == 0 || size.rows == 0 {
                    r.is_fallback()
                } else {
                    r.columns == size.columns && r.rows == size.rows && (if size.width > 0
                        && size.height > 0 {
                        r.cell_px.0 == cell_size(size.width as int, size.columns as int, 4)
                            && r.cell_px.1 == cell_size(size.height as int, size.rows as int, 8)
                    } else {
                        r.cell_px == (12u32, 24u32)
                    })
                },
                None => r.is_fallback(),
            },
    {
        match size {
            None => Self::fallback(),
            Some(size) => {
                if size.columns == 0 || size.rows == 0 {
                    return Self::fallback();
                }
                let columns: u32 = size.columns as u32;
                let rows: u32 = size.rows as u32;
                let cell_px = if size.width > 0 && size.height > 0 {
                    let wide: u32 = size.width as u32 / columns;
                    let high: u32 = size.height as u32 / rows;
                    proof {
                        assert(wide <= size.width) by (nonlinear_arith)
                            requires
                                wide == size.width as int / columns as int,
                                columns >= 1,
                        ;
                        assert(high <= size.height) by (nonlinear_arith)
                            requires
                                high == size.height as int / rows as int,
                                rows >= 1,
                        ;
                    }
                    (
                        if wide < 4 {
                            4
                        } else {
                            wide
                        },
                        if high < 8 {
                            8
                        } else {
                            high
                        },
                    )
                } else {
                    (12, 24)
                };
                Screen { columns, rows, cell_px }
            },
        }
    }

    /// The screen that is taken where nothing is known.
    pub fn fallback() -> (r: Self)
        ensures
            r.wf(),
            r.is_fallback(),
    {
        Screen { columns: 100, rows: 30, cell_px: (12, 24) }
    }

    /// The pixel area available for an image `rows` cells tall, spanning the full
    /// width.
    pub fn image_pixels(&self, rows: u32) -> (r: (u32, u32))
        requires
            self.wf(),
            rows <= 65535,
        ensures
            r.0 == self.columns * self.cell_px.0,
            r.1 == rows * self.cell_px.1,
    {
        proof {
            assert(self.columns * self.cell_px.0 <= 65535 * 65535) by (nonlinear_arith)
                requires
                    self.columns <= 65535,
                    self.cell_px.0 <= 65535,
            ;
            assert(rows * self.cell_px.1 <= 65535 * 65535) by (nonlinear_arith)
                requires
                    rows <= 65535,
                    self.cell_px.1 <= 65535,
            ;
        }
        (self.columns * self.cell_px.0, rows * self.cell_px.1)
    }

    /// How many rows of cells an image takes where `lines` lines of text are
    /// printed with it. One spare row keeps the last text line from scrolling the
    /// image, since a placed image scrolls with the text it sits over. Where too
    /// little is left the image takes most of the screen, and the text scrolls.
    pub fn image_rows(&self, lines: u32) -> (r: u32)
        requires
            self.wf(),
        ensures
            r == (if self.rows >= lines + 1 + 12 {
                self.rows - lines - 1
            } else if self.rows >= 5 + 18 {
                self.rows - 5
            } else {
                18
            }),
            12 <= r <= 65535,
    {
        let rows: u64 = self.rows as u64;
        if rows >= lines as u64 + 13 {
            self.rows - lines - 1
        } else if self.rows >= 23 {
            self.rows - 5
        } else {
            18
        }
    }
}

/// Whether a file of the given mode is a pipe or a socket, by the bits that hold
/// the kind and the kinds of the two.
pub fn is_pipe_or_socket(mode: u32, mask: u32, pipe: u32, socket: u32) -> (r: bool)
    ensures
        r == (mode & mask == pipe || mode & mask == socket),
{
    let kind: u32 = mode & mask;
    kind == pipe || kind == socket
}

/// What stdout is.
#[derive(Clone, Copy, Debug, PartialEq, Eq, Structural)]
pub enum Stdout {
    Terminal,
    PipeOrSocket,
    Other,
}

/// Where the output goes.
#[derive(Clone, Copy, Debug, PartialEq, Eq, Structural)]
pub enum Route {
    /// To stdout, which is a terminal.
    StdoutTerminal,
    /// To the terminal itself, past stdout.
    ControllingTerminal,
    /// To stdout, which is not a terminal.
    StdoutPlain,
}

/// Where the output goes, by what stdout is and whether the controlling terminal
/// could be opened.
pub fn route(stdout: Stdout, terminal_opened: bool) -> (r: Route)
    ensures
        r == Route::StdoutTerminal <==> stdout == Stdout::Terminal,
        r == Route::ControllingTerminal <==> stdout == Stdout::PipeOrSocket && terminal_opened,
{
    match stdout {
        Stdout::Terminal => Route::StdoutTerminal,
        Stdout::PipeOrSocket => if terminal_opened {
            Route::ControllingTerminal
        } else {
            Route::StdoutPlain
        },
        Stdout::Other => Route::StdoutPlain,
    }
}

/// An image and the lines below it fit on the screen with a row to spare, wherever that
/// leaves the image twelve rows; and the image takes all that is left.
pub proof fn lemma_image_leaves_room_for_the_text(screen: &Screen, lines: u32, r: u32)
    requires
        call_ensures(Screen::image_rows, (screen, lines), r),
    ensures
        lines + 13 <= screen.rows ==> r + lines + 1 == screen.rows,
        lines + 13 > screen.rows && screen.rows >= 23 ==> r + 5 == screen.rows,
        lines + 13 > screen.rows && screen.rows < 23 ==> r == 18,
{
}

/// The pixels of an image are those of the cells it is placed over: the whole width of the
/// screen, and the rows that it was given.
pub proof fn lemma_image_fills_its_cells(screen: &Screen, rows: u32, r: (u32, u32))
    requires
        call_ensures(Screen::image_pixels, (screen, rows), r),
        screen.cell_px.0 > 0,
        screen.cell_px.1 > 0,
    ensures
        r.0 as int / screen.cell_px.0 as int == screen.columns,
        r.0 as int % screen.cell_px.0 as int == 0,
        r.1 as int / screen.cell_px.1 as int == rows,
        r.1 as int % screen.cell_px.1 as int == 0,
{
    let (w, h) = (screen.cell_px.0 as int, screen.cell_px.1 as int);
    vstd::arithmetic::div_mod::lemma_div_multiples_vanish(screen.columns as int, w);
    vstd::arithmetic::div_mod::lemma_div_multiples_vanish(rows as int, h);
    vstd::arithmetic::div_mod::lemma_mod_multiples_basic(screen.columns as int, w);
    vstd::arithmetic::div_mod::lemma_mod_multiples_basic(rows as int, h);
    assert(screen.columns * w == w * screen.columns) by (nonlinear_arith);
    assert(rows * h == h * rows) by (nonlinear_arith);
}

/// A screen has the cells that the system reports, and cells of the size that its pixels make
/// up, where it reports both: width by columns and height by rows, with nothing but a floor.
pub proof fn lemma_screen_is_as_reported(size: WindowSize, r: Screen)
    requires
        call_ensures(Screen::measure, (Some(size),), r),
        size.columns > 0,
        size.rows > 0,
    ensures
        r.columns == size.columns,
        r.rows == size.rows,
        size.width > 0 && size.height > 0 && size.width >= 4 * size.columns ==> r.cell_px.0
            * size.columns <= size.width < (r.cell_px.0 + 1) * size.columns,
        size.width > 0 && size.height > 0 && size.height >= 8 * size.rows ==> r.cell_px.1
            * size.rows <= size.height < (r.cell_px.1 + 1) * size.rows,
        size.width > 0 && size.height > 0 && size.width < 4 * size.columns ==> r.cell_px.0 == 4,
        size.width > 0 && size.height > 0 && size.height < 8 * size.rows ==> r.cell_px.1 == 8,
        size.width == 0 || size.height == 0 ==> r.cell_px.0 * 2 == r.cell_px.1 && r.cell_px.0
            == 12,
{
    lemma_shared_out(size.width as int, size.columns as int, 4);
    lemma_shared_out(size.height as int, size.rows as int, 8);
}

proof fn lemma_shared_out(pixels: int, cells: int, floor: int)
    requires
        pixels >= 0,
        cells > 0,
        floor > 0,
    ensures
        pixels >= floor * cells ==> cell_size(pixels, cells, floor) * cells <= pixels < (cell_size(
            pixels,
            cells,
            floor,
        ) + 1) * cells,
        pixels < floor * cells ==> cell_size(pixels, cells, floor) == floor,
{
    let q = pixels / cells;
    assert(q * cells <= pixels < (q + 1) * cells) by (nonlinear_arith)
        requires
            q == pixels / cells,
            cells > 0,
            pixels >= 0,
    ;
    assert(pixels >= floor * cells ==> q >= floor) by (nonlinear_arith)
        requires
            pixels < (q + 1) * cells,
            cells > 0,
    ;
    assert(pixels < floor * cells ==> q < floor) by (nonlinear_arith)
        requires
            q * cells <= pixels,
            cells > 0,
    ;
}

/// Images are never written to a stream that does not lead to a terminal: stdout gets them
/// where it is one, the controlling terminal where stdout is a pipe and the terminal could be
/// opened, and a file gets none.
pub proof fn lemma_route_leads_to_a_terminal(stdout: Stdout, opened: bool, r: Route)
    requires
        call_ensures(route, (stdout, opened), r),
    ensures
        stdout == Stdout::Terminal ==> r == Route::StdoutTerminal,
        stdout == Stdout::Other ==> r == Route::StdoutPlain,
        stdout == Stdout::PipeOrSocket && opened ==> r == Route::ControllingTerminal,
        stdout == Stdout::PipeOrSocket && !opened ==> r == Route::StdoutPlain,
{
}

/// A screen of which nothing is known, or that is said to have no cells, is taken to be of a
/// hundred columns and thirty rows, with cells twice as high as they are wide.
pub proof fn lemma_unknown_screen_has_a_size(size: Option<WindowSize>, r: Screen)
    requires
        call_ensures(Screen::measure, (size,), r),
        size matches Some(size) ==> size.columns == 0 || size.rows == 0,
    ensures
        r.columns == 100 && r.rows == 30,
        r.cell_px.0 == 12 && r.cell_px.1 == 2 * r.cell_px.0,
{
}

/// A file is a pipe or a socket by the bits that hold its kind, and not by any others.
pub proof fn lemma_kind_goes_by_its_bits(
    mode: u32,
    other: u32,
    mask: u32,
    pipe: u32,
    socket: u32,
    a: bool,
    b: bool,
)
    requires
        call_ensures(is_pipe_or_socket, (mode, mask, pipe, socket), a),
        call_ensures(is_pipe_or_socket, (other, mask, pipe, socket), b),
        mode & mask == other & mask,
    ensures
        a == b,
        mode & mask == pipe ==> a,
        mode & mask == socket ==> a,
        mode & mask != pipe && mode & mask != socket ==> !a,
{
}

} // verus!
