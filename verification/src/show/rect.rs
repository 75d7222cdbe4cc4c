//! A rectangular maze drawn with characters.

use crate::maze::rect::{RectDirection, RectMaze, RectPosition};
use crate::maze::Position2d;
use vstd::prelude::*;
use vstd::string::StringExecFns;

verus! {

/// The strings that a maze is drawn with: a stretch of wall and a stretch
/// without wall, along a row and along a column, and the corner where up
/// to four walls meet.
pub trait CmdBoxCharset {
    /// A stretch of wall along a row.
    spec fn horz_wall_text(&self) -> Seq<char>;

    /// A stretch without wall along a row.
    spec fn horz_empty_text(&self) -> Seq<char>;

    /// A stretch of wall along a column.
    spec fn vert_wall_text(&self) -> Seq<char>;

    /// A stretch without wall along a column.
    spec fn vert_empty_text(&self) -> Seq<char>;

    /// The corner at which the given walls meet.
    spec fn corner_text(&self, west: bool, north: bool, east: bool, south: bool) -> Seq<char>;

    /// The string for a stretch of wall along a row.
    fn horz_wall(&self) -> (text: &'static str)
        ensures
            text@ == self.horz_wall_text(),
    ;

    /// The string for a stretch without wall along a row.
    fn horz_empty(&self) -> (text: &'static str)
        ensures
            text@ == self.horz_empty_text(),
    ;

    /// The string for a stretch of wall along a column.
    fn vert_wall(&self) -> (text: &'static str)
        ensures
            text@ == self.vert_wall_text(),
    ;

    /// The string for a stretch without wall along a column.
    fn vert_empty(&self) -> (text: &'static str)
        ensures
            text@ == self.vert_empty_text(),
    ;

    /// The string for the corner at which the given walls meet.
    fn select_corner(
        &self,
        has_west_wall: bool,
        has_north_wall: bool,
        has_east_wall: bool,
        has_south_wall: bool,
    ) -> (text: &'static str)
        ensures
            text@ == self.corner_text(
                has_west_wall,
                has_north_wall,
                has_east_wall,
                has_south_wall,
            ),
    ;
}

/// Walls of `-`, `|` and `+`.
#[derive(Debug, Clone, Copy)]
pub struct AsciiBoxCharset;

impl CmdBoxCharset for AsciiBoxCharset {
    open spec fn horz_wall_text(&self) -> Seq<char> {
        "---"@
    }

    open spec fn horz_empty_text(&self) -> Seq<char> {
        "   "@
    }

    open spec fn vert_wall_text(&self) -> Seq<char> {
        "|"@
    }

    open spec fn vert_empty_text(&self) -> Seq<char> {
        " "@
    }

    open spec fn corner_text(&self, west: bool, north: bool, east: bool, south: bool) -> Seq<char> {
        if !west && !north && !east && !south {
            " "@
        } else {
            "+"@
        }
    }

    fn horz_wall(&self) -> (text: &'static str) {
        "---"
    }

    fn horz_empty(&self) -> (text: &'static str) {
        "   "
    }

    fn vert_wall(&self) -> (text: &'static str) {
        "|"
    }

    fn vert_empty(&self) -> (text: &'static str) {
        " "
    }

    fn select_corner(
        &self,
        has_west_wall: bool,
        has_north_wall: bool,
        has_east_wall: bool,
        has_south_wall: bool,
    ) -> (text: &'static str) {
        match (has_west_wall, has_north_wall, has_east_wall, has_south_wall) {
            (false, false, false, false) => " ",
            _ => "+",
        }
    }
}

/// Walls of box-drawing characters, with a corner piece for every way in
/// which walls can meet.
#[derive(Debug, Clone, Copy)]
pub struct UnicodeBoxCharset;

impl CmdBoxCharset for UnicodeBoxCharset {
    open spec fn horz_wall_text(&self) -> Seq<char> {
        "\u{2501}"@
    }

    open spec fn horz_empty_text(&self) -> Seq<char> {
        " "@
    }

    open spec fn vert_wall_text(&self) -> Seq<char> {
        "\u{2503}"@
    }

    open spec fn vert_empty_text(&self) -> Seq<char> {
        " "@
    }

    open spec fn corner_text(&self, west: bool, north: bool, east: bool, south: bool) -> Seq<char> {
        match (west, north, east, south) {
            (false, false, false, false) => " "@,
            (true, false, false, false) => "\u{2578}"@,
            (false, true, false, false) => "\u{2579}"@,
            (false, false, true, false) => "\u{257a}"@,
            (false, false, false, true) => "\u{257b}"@,
            (true, false, true, false) => "\u{2501}"@,
            (false, true, false, true) => "\u{2503}"@,
            (true, true, false, false) => "\u{251b}"@,
            (false, true, true, false) => "\u{2517}"@,
            (true, false, false, true) => "\u{2513}"@,
            (false, false, true, true) => "\u{250f}"@,
            (true, true, false, true) => "\u{252b}"@,
            (true, true, true, false) => "\u{253b}"@,
            (false, true, true, true) => "\u{2523}"@,
            (true, false, true, true) => "\u{2533}"@,
            (true, true, true, true) => "\u{254b}"@,
        }
    }

    fn horz_wall(&self) -> (text: &'static str) {
        "\u{2501}"
    }

    fn horz_empty(&self) -> (text: &'static str) {
        " "
    }

    fn vert_wall(&self) -> (text: &'static str) {
        "\u{2503}"
    }

    fn vert_empty(&self) -> (text: &'static str) {
        " "
    }

    fn select_corner(
        &self,
        has_west_wall: bool,
        has_north_wall: bool,
        has_east_wall: bool,
        has_south_wall: bool,
    ) -> (text: &'static str) {
        let west = "\u{2578}";
        let north = "\u{2579}";
        let east = "\u{257a}";
        let south = "\u{257b}";
        let horz = "\u{2501}";
        let vert = "\u{2503}";
        let north_west = "\u{251b}";
        let north_east = "\u{2517}";
        let south_west = "\u{2513}";
        let south_east = "\u{250f}";
        let west_vert = "\u{252b}";
        let north_horz = "\u{253b}";
        let east_vert = "\u{2523}";
        let south_horz = "\u{2533}";
        let cross = "\u{254b}";

        match (has_west_wall, has_north_wall, has_east_wall, has_south_wall) {
            (false, false, false, false) => " ",
            (true, false, false, false) => west,
            (false, true, false, false) => north,
            (false, false, true, false) => east,
            (false, false, false, true) => south,
            (true, false, true, false) => horz,
            (false, true, false, true) => vert,
            (true, true, false, false) => north_west,
            (false, true, true, false) => north_east,
            (true, false, false, true) => south_west,
            (false, false, true, true) => south_east,
            (true, true, false, true) => west_vert,
            (true, true, true, false) => north_horz,
            (false, true, true, true) => east_vert,
            (true, false, true, true) => south_horz,
            (true, true, true, true) => cross,
        }
    }
}

/// Whether a wall stands on the north side of the position in row `r` and
/// column `c`; none outside the rectangle.
pub open spec fn north_wall(maze: &RectMaze, r: int, c: int) -> bool {
    0 <= r < maze.dims().1 && 0 <= c < maze.dims().0 && maze.wall_at(
        RectPosition { row: r as usize, col: c as usize },
        RectDirection::North,
    )
}

/// Whether a wall stands on the west side of the position in row `r` and
/// column `c`; none outside the rectangle.
pub open spec fn west_wall(maze: &RectMaze, r: int, c: int) -> bool {
    0 <= r < maze.dims().1 && 0 <= c < maze.dims().0 && maze.wall_at(
        RectPosition { row: r as usize, col: c as usize },
        RectDirection::West,
    )
}

/// Whether the last position of row `r` is a cell, so that a wall stands at
/// the east border.
pub open spec fn east_border(maze: &RectMaze, r: int) -> bool {
    0 <= r < maze.dims().1 && maze.dims().0 > 0 && maze.cells().contains(
        Position2d(r as usize, (maze.dims().0 - 1) as usize),
    )
}

/// Whether the last position of column `c` is a cell, so that a wall stands
/// at the south border.
pub open spec fn south_border(maze: &RectMaze, c: int) -> bool {
    0 <= c < maze.dims().0 && maze.dims().1 > 0 && maze.cells().contains(
        Position2d((maze.dims().1 - 1) as usize, c as usize),
    )
}

/// The line above row `r`, up to column `n`: for every position the
/// corner at its north-west and its north side.
pub open spec fn ceil_cells<T: CmdBoxCharset>(maze: &RectMaze, charset: &T, r: int, n: nat) -> Seq<
    char,
>
    decreases n,
{
    if n == 0 {
        Seq::empty()
    } else {
        let c = n - 1;
        ceil_cells(maze, charset, r, c as nat) + charset.corner_text(
            north_wall(maze, r, c - 1),
            west_wall(maze, r - 1, c),
            north_wall(maze, r, c),
            west_wall(maze, r, c),
        ) + if north_wall(maze, r, c) {
            charset.horz_wall_text()
        } else {
            charset.horz_empty_text()
        }
    }
}

/// The line above row `r`.
pub open spec fn ceil_line<T: CmdBoxCharset>(maze: &RectMaze, charset: &T, r: int) -> Seq<char> {
    ceil_cells(maze, charset, r, maze.dims().0 as nat) + charset.corner_text(
        north_wall(maze, r, maze.dims().0 - 1),
        east_border(maze, r - 1),
        false,
        east_border(maze, r),
    )
}

/// The line of row `r`, up to column `n`: for every position its west
/// side and its inside.
pub open spec fn body_cells<T: CmdBoxCharset>(maze: &RectMaze, charset: &T, r: int, n: nat) -> Seq<
    char,
>
    decreases n,
{
    if n == 0 {
        Seq::empty()
    } else {
        let c = n - 1;
        body_cells(maze, charset, r, c as nat) + (if west_wall(maze, r, c) {
            charset.vert_wall_text()
        } else {
            charset.vert_empty_text()
        }) + charset.horz_empty_text()
    }
}

/// The line of row `r`.
pub open spec fn body_line<T: CmdBoxCharset>(maze: &RectMaze, charset: &T, r: int) -> Seq<char> {
    body_cells(maze, charset, r, maze.dims().0 as nat) + if east_border(maze, r) {
        charset.vert_wall_text()
    } else {
        charset.vert_empty_text()
    }
}

/// The line below the last row, up to column `n`.
pub open spec fn floor_cells<T: CmdBoxCharset>(maze: &RectMaze, charset: &T, n: nat) -> Seq<char>
    decreases n,
{
    if n == 0 {
        Seq::empty()
    } else {
        let c = n - 1;
        floor_cells(maze, charset, c as nat) + charset.corner_text(
            south_border(maze, c - 1),
            west_wall(maze, maze.dims().1 - 1, c),
            south_border(maze, c),
            false,
        ) + if south_border(maze, c) {
            charset.horz_wall_text()
        } else {
            charset.horz_empty_text()
        }
    }
}

/// The line below the last row.
pub open spec fn floor_line<T: CmdBoxCharset>(maze: &RectMaze, charset: &T) -> Seq<char> {
    floor_cells(maze, charset, maze.dims().0 as nat) + charset.corner_text(
        south_border(maze, maze.dims().0 - 1),
        east_border(maze, maze.dims().1 - 1),
        false,
        false,
    )
}

/// The lines of the first `n` rows, each row as the line above it and its
/// own line, each line with a line feed after it.
pub open spec fn rows_text<T: CmdBoxCharset>(maze: &RectMaze, charset: &T, n: nat) -> Seq<char>
    decreases n,
{
    if n == 0 {
        Seq::empty()
    } else {
        let r = n - 1;
        rows_text(maze, charset, r as nat) + ceil_line(maze, charset, r) + seq!['\n'] + body_line(
            maze,
            charset,
            r,
        ) + seq!['\n']
    }
}

/// The whole drawing: the rows and the line below the last.
pub open spec fn maze_text<T: CmdBoxCharset>(maze: &RectMaze, charset: &T) -> Seq<char> {
    rows_text(maze, charset, maze.dims().1 as nat) + floor_line(maze, charset)
}

/// A rectangular maze together with the strings to draw it with.
pub struct RectMazeCmdDisplay<'a, T: CmdBoxCharset>(pub &'a RectMaze, pub T);

impl<T: CmdBoxCharset> RectMazeCmdDisplay<'_, T> {
    /// The drawing of the maze: two lines of text for every row and one
    /// below the last.
    pub fn to_text(&self) -> (text: String)
        requires
            self.0.valid(),
        ensures
            text@ == maze_text(self.0, &self.1),
    {
        let maze = self.0;
        let charset = &self.1;
        let horz_wall = charset.horz_wall();
        let horz_empty = charset.horz_empty();
        let vert_wall = charset.vert_wall();
        let vert_empty = charset.vert_empty();

        let (width, height) = maze.size();
        let mut text = String::new();
        let mut last_row_has_vert_wall = vec![false; width];
        let mut east_column_has_north_wall = false;
        let mut r_ind: usize = 0;
        while r_ind < height
            invariant
                r_ind <= height,
                maze.valid(),
                (width, height) == maze.dims(),
                horz_wall@ == charset.horz_wall_text(),
                horz_empty@ == charset.horz_empty_text(),
                vert_wall@ == charset.vert_wall_text(),
                vert_empty@ == charset.vert_empty_text(),
                text@ == rows_text(maze, charset, r_ind as nat),
                last_row_has_vert_wall@.len() == width,
                forall|c: int|
                    0 <= c < width ==> #[trigger] last_row_has_vert_wall@[c] == west_wall(
                        maze,
                        r_ind - 1,
                        c,
                    ),
                east_column_has_north_wall == east_border(maze, r_ind - 1),
            decreases height - r_ind,
        {
            let mut ceil = String::new();
            let mut body = String::new();
            let mut has_west_wall = false;
            let mut c_ind: usize = 0;
            while c_ind < width
                invariant
                    r_ind < height,
                    c_ind <= width,
                    maze.valid(),
                    (width, height) == maze.dims(),
                    horz_wall@ == charset.horz_wall_text(),
                    horz_empty@ == charset.horz_empty_text(),
                    vert_wall@ == charset.vert_wall_text(),
                    vert_empty@ == charset.vert_empty_text(),
                    ceil@ == ceil_cells(maze, charset, r_ind as int, c_ind as nat),
                    body@ == body_cells(maze, charset, r_ind as int, c_ind as nat),
                    has_west_wall == north_wall(maze, r_ind as int, c_ind - 1),
                    last_row_has_vert_wall@.len() == width,
                    forall|c: int|
                        0 <= c < c_ind ==> #[trigger] last_row_has_vert_wall@[c] == west_wall(
                            maze,
                            r_ind as int,
                            c,
                        ),
                    forall|c: int|
                        c_ind <= c < width ==> #[trigger] last_row_has_vert_wall@[c] == west_wall(
                            maze,
                            r_ind - 1,
                            c,
                        ),
                decreases width - c_ind,
            {
                let pos = RectPosition::new(r_ind, c_ind);
                let has_east_wall = maze.has_wall(&pos, RectDirection::North);
                let has_north_wall = last_row_has_vert_wall[c_ind];
                let has_south_wall = maze.has_wall(&pos, RectDirection::West);
                let corner = charset.select_corner(
                    has_west_wall,
                    has_north_wall,
                    has_east_wall,
                    has_south_wall,
                );
                ceil.append(corner);
                ceil.append(
                    if has_east_wall {
                        horz_wall
                    } else {
                        horz_empty
                    },
                );
                body.append(
                    if has_south_wall {
                        vert_wall
                    } else {
                        vert_empty
                    },
                );
                body.append(horz_empty);

                last_row_has_vert_wall.set(c_ind, has_south_wall);
                has_west_wall = has_east_wall;
                c_ind += 1;
            }

            // Add the east border of the current row.
            let has_south_wall = width > 0 && maze.is_cell(&RectPosition::new(r_ind, width - 1));
            ceil.append(
                charset.select_corner(
                    has_west_wall,
                    east_column_has_north_wall,
                    false,
                    has_south_wall,
                ),
            );
            body.append(
                if has_south_wall {
                    vert_wall
                } else {
                    vert_empty
                },
            );
            east_column_has_north_wall = has_south_wall;
            text.append(ceil.as_str());
            text.append("\n");
            text.append(body.as_str());
            text.append("\n");
            proof {
                reveal_strlit("\n");
                assert("\n"@ =~= seq!['\n']);
            }
            r_ind += 1;
        }

        // Add the final south border.
        let mut ceil = String::new();
        let mut south_row_has_west_wall = false;
        let mut c_ind: usize = 0;
        while c_ind < width
            invariant
                c_ind <= width,
                maze.valid(),
                (width, height) == maze.dims(),
                horz_wall@ == charset.horz_wall_text(),
                horz_empty@ == charset.horz_empty_text(),
                ceil@ == floor_cells(maze, charset, c_ind as nat),
                south_row_has_west_wall == south_border(maze, c_ind - 1),
                last_row_has_vert_wall@.len() == width,
                forall|c: int|
                    0 <= c < width ==> #[trigger] last_row_has_vert_wall@[c] == west_wall(
                        maze,
                        height - 1,
                        c,
                    ),
            decreases width - c_ind,
        {
            let has_east_wall = height > 0 && maze.is_cell(&RectPosition::new(height - 1, c_ind));
            ceil.append(
                charset.select_corner(
                    south_row_has_west_wall,
                    last_row_has_vert_wall[c_ind],
                    has_east_wall,
                    false,
                ),
            );
            ceil.append(
                if has_east_wall {
                    horz_wall
                } else {
                    horz_empty
                },
            );
            south_row_has_west_wall = has_east_wall;
            c_ind += 1;
        }
        ceil.append(
            charset.select_corner(
                south_row_has_west_wall,
                east_column_has_north_wall,
                false,
                false,
            ),
        );
        text.append(ceil.as_str());
        text
    }
}

impl RectMaze {
    /// The drawing of the maze with walls of `-`, `|` and `+`.
    pub fn to_text(&self) -> (text: String)
        requires
            self.valid(),
        ensures
            text@ == maze_text(self, &AsciiBoxCharset),
    {
        RectMazeCmdDisplay(self, AsciiBoxCharset).to_text()
    }
}

} // verus!
