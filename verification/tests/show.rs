use try_mazes::maze::rect::{RectDirection, RectGrid, RectMask, RectMaze, RectPosition};
use try_mazes::maze::{NoMask, WithMask};
use try_mazes::show::rect::{AsciiBoxCharset, CmdBoxCharset, RectMazeCmdDisplay, UnicodeBoxCharset};
use try_mazes::show::SavePictureFormat;

#[test]
fn ascii_drawing_of_closed_cells() {
    let maze = RectMaze::NoMask(RectGrid::<NoMask>::new(2, 1));
    assert_eq!(maze.to_text(), "+---+---+\n|   |   |\n+---+---+");
    let maze = RectMaze::NoMask(RectGrid::<NoMask>::new(0, 0));
    assert_eq!(maze.to_text(), " ");
}

#[test]
fn ascii_drawing_of_a_small_maze() {
    let mut grid = RectGrid::<NoMask>::new(3, 2);
    assert!(grid.connect_to(&RectPosition::new(0, 0), RectDirection::East));
    assert!(grid.connect_to(&RectPosition::new(0, 1), RectDirection::South));
    assert!(grid.connect_to(&RectPosition::new(1, 1), RectDirection::West));
    assert!(grid.connect_to(&RectPosition::new(1, 1), RectDirection::East));
    assert!(grid.connect_to(&RectPosition::new(1, 2), RectDirection::North));
    let maze = RectMaze::NoMask(grid);
    let expected = [
        "+---+---+---+",
        "|       |   |",
        "+---+   +   +",
        "|           |",
        "+---+---+---+",
    ]
    .join("\n");
    assert_eq!(maze.to_text(), expected);
    assert_eq!(RectMazeCmdDisplay(&maze, AsciiBoxCharset).to_text(), expected);
    assert!(maze.has_wall(&RectPosition::new(0, 0), RectDirection::North));
    assert!(!maze.has_wall(&RectPosition::new(0, 1), RectDirection::West));
    assert!(maze.has_wall(&RectPosition::new(0, 2), RectDirection::West));
    assert!(!maze.has_wall(&RectPosition::new(1, 2), RectDirection::North));
    assert!(!maze.has_wall(&RectPosition::new(2, 0), RectDirection::South));
    assert!(maze.has_wall(&RectPosition::new(2, 0), RectDirection::North));
}

#[test]
fn unicode_drawing_picks_the_corner_pieces() {
    let maze = RectMaze::NoMask(RectGrid::<NoMask>::new(1, 1));
    assert_eq!(
        RectMazeCmdDisplay(&maze, UnicodeBoxCharset).to_text(),
        "\u{250f}\u{2501}\u{2513}\n\u{2503} \u{2503}\n\u{2517}\u{2501}\u{251b}"
    );
    let mut grid = RectGrid::<NoMask>::new(2, 2);
    assert!(grid.connect_to(&RectPosition::new(0, 0), RectDirection::East));
    assert!(grid.connect_to(&RectPosition::new(0, 0), RectDirection::South));
    assert!(grid.connect_to(&RectPosition::new(1, 0), RectDirection::East));
    let maze = RectMaze::NoMask(grid);
    let expected = [
        "\u{250f}\u{2501}\u{2501}\u{2501}\u{2513}",
        "\u{2503}   \u{2503}",
        "\u{2503} \u{257a}\u{2501}\u{252b}",
        "\u{2503}   \u{2503}",
        "\u{2517}\u{2501}\u{2501}\u{2501}\u{251b}",
    ]
    .join("\n");
    assert_eq!(RectMazeCmdDisplay(&maze, UnicodeBoxCharset).to_text(), expected);
}

#[test]
fn drawing_walls_off_what_the_mask_leaves_out() {
    let mut mask = RectMask::new(2, 2);
    mask.set_flag(&RectPosition::new(0, 0), true);
    mask.set_flag(&RectPosition::new(1, 0), true);
    mask.set_flag(&RectPosition::new(1, 1), true);
    let mut grid = RectGrid::<WithMask>::new(&mask);
    assert!(grid.connect_to(&RectPosition::new(0, 0), RectDirection::South));
    assert!(grid.connect_to(&RectPosition::new(1, 0), RectDirection::East));
    let maze = RectMaze::WithMask(grid);
    let expected = [
        "+---+    ",
        "|   |    ",
        "+   +---+",
        "|       |",
        "+---+---+",
    ]
    .join("\n");
    assert_eq!(maze.to_text(), expected);
}

#[test]
fn charsets_hand_out_their_pieces() {
    let ascii = AsciiBoxCharset;
    assert_eq!(ascii.horz_wall(), "---");
    assert_eq!(ascii.horz_empty(), "   ");
    assert_eq!(ascii.vert_wall(), "|");
    assert_eq!(ascii.vert_empty(), " ");
    assert_eq!(ascii.select_corner(false, false, false, false), " ");
    assert_eq!(ascii.select_corner(false, true, false, false), "+");
    assert_eq!(ascii.select_corner(true, true, true, true), "+");
    let unicode = UnicodeBoxCharset;
    assert_eq!(unicode.horz_wall(), "\u{2501}");
    assert_eq!(unicode.horz_empty(), " ");
    assert_eq!(unicode.vert_wall(), "\u{2503}");
    assert_eq!(unicode.vert_empty(), " ");
    let pieces = [
        (false, false, false, false, " "),
        (true, false, false, false, "\u{2578}"),
        (false, true, false, false, "\u{2579}"),
        (false, false, true, false, "\u{257a}"),
        (false, false, false, true, "\u{257b}"),
        (true, false, true, false, "\u{2501}"),
        (false, true, false, true, "\u{2503}"),
        (true, true, false, false, "\u{251b}"),
        (false, true, true, false, "\u{2517}"),
        (true, false, false, true, "\u{2513}"),
        (false, false, true, true, "\u{250f}"),
        (true, true, false, true, "\u{252b}"),
        (true, true, true, false, "\u{253b}"),
        (false, true, true, true, "\u{2523}"),
        (true, false, true, true, "\u{2533}"),
        (true, true, true, true, "\u{254b}"),
    ];
    for (west, north, east, south, piece) in pieces {
        assert_eq!(unicode.select_corner(west, north, east, south), piece);
    }
    assert_ne!(SavePictureFormat::PNG, SavePictureFormat::JPEG);
}
