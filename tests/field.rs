use std::collections::{HashMap, HashSet};

use gollib::field::DISPLAY_PADDING;
use gollib::{Cell, Field};

fn alive(field: &Field) -> HashSet<Cell> {
    field.cells().into_iter().collect()
}

fn field_of(cells: &[Cell]) -> Field {
    let mut field = Field::new();
    for cell in cells {
        field.add(*cell);
    }
    field
}

#[test]
fn create_cell() {
    let x = 1;
    let y = 2;
    let cell = Cell { x: x, y: y };
    assert_eq!(x, cell.x);
    assert_eq!(y, cell.y);
}

#[test]
fn generate_board() {
    let description = "X..\n.XX";
    let mut expected = Field::new();
    expected.add(Cell { x: 0, y: 0 });
    expected.add(Cell { x: 1, y: 1 });
    expected.add(Cell { x: 2, y: 1 });

    let actual = Field::from(description);
    assert_eq!(alive(&expected), alive(&actual));
}

#[test]
fn neighbors_works() {
    let cell = Cell { x: 0, y: 1 };
    let mut actual = [Cell { x: 0, y: 0 }; 8];
    let expected = [
        Cell { x: -1, y: 0 },
        Cell { x: -1, y: 1 },
        Cell { x: -1, y: 2 },
        Cell { x: 0, y: 0 },
        Cell { x: 0, y: 2 },
        Cell { x: 1, y: 0 },
        Cell { x: 1, y: 1 },
        Cell { x: 1, y: 2 },
    ];
    cell.neighbors(&mut actual);
    assert_eq!(expected, actual);
}

#[test]
fn neighbor_counts_work() {
    let field = Field::from("X.\n.X");

    let actual: HashMap<Cell, u64> = field.neighbor_counts().into_iter().collect();
    let mut expected = HashMap::new();
    expected.insert(Cell { x: 1, y: 2 }, 1);
    expected.insert(Cell { x: 1, y: -1 }, 1);
    expected.insert(Cell { x: 1, y: 0 }, 2);
    expected.insert(Cell { x: 2, y: 0 }, 1);
    expected.insert(Cell { x: 0, y: 2 }, 1);
    expected.insert(Cell { x: 2, y: 1 }, 1);
    expected.insert(Cell { x: 2, y: 2 }, 1);
    expected.insert(Cell { x: 0, y: 0 }, 1);
    expected.insert(Cell { x: 0, y: -1 }, 1);
    expected.insert(Cell { x: -1, y: 0 }, 1);
    expected.insert(Cell { x: 0, y: 1 }, 2);
    expected.insert(Cell { x: 1, y: 1 }, 1);
    expected.insert(Cell { x: -1, y: 1 }, 1);
    expected.insert(Cell { x: -1, y: -1 }, 1);

    assert_eq!(14, actual.len());
    assert_eq!(expected, actual);
}

#[test]
fn empty_string() {
    let actual = Field::new().to_string(DISPLAY_PADDING);
    let expected = "empty";
    assert_eq!(expected, actual);
}

#[test]
fn simple_field() {
    let description = ".X.\nX.X\n";
    let field = Field::from(description);
    let actual = field.to_string(0);
    assert_eq!(description, actual);
}

#[test]
fn simple_step() {
    let description = "...\nXXX\n...";
    let field = Field::from(description);
    let actual = field.step();

    let expected = Field::from(".X\n.X\n.X\n");
    assert_eq!(alive(&expected), alive(&actual));
}

#[test]
fn glider() {
    let states = [
        ".X.\n..X\nXXX\n",
        "X.X\n.XX\n.X.\n",
        "..X\nX.X\n.XX\n",
        "X..\n.XX\nXX.\n",
    ];
    let mut field = Field::from(states[0]);

    for expected in states.iter() {
        let actual = field.to_string(0);
        assert_eq!(*expected, actual);

        field = field.step();
    }
}

#[test]
fn glider_repeats_translated() {
    let start = Field::from(".X.\n..X\nXXX\n");
    let mut field = Field::from(".X.\n..X\nXXX\n");
    for _ in 0..4 {
        field = field.step();
    }
    assert_eq!(start.to_string(0), field.to_string(0));
    let moved: HashSet<Cell> = alive(&start)
        .into_iter()
        .map(|c| Cell { x: c.x + 1, y: c.y + 1 })
        .collect();
    assert_eq!(moved, alive(&field));
}

#[test]
fn neighbors_exclude_the_cell() {
    let cell = Cell { x: 0, y: 1 };
    let mut actual = [Cell { x: 0, y: 0 }; 8];
    cell.neighbors(&mut actual);
    assert!(!actual.contains(&cell));
    let distinct: HashSet<Cell> = actual.iter().copied().collect();
    assert_eq!(8, distinct.len());
}

#[test]
fn parse_treats_other_characters_as_dead() {
    let field = Field::from("aX\n\nb.X#");
    let expected: HashSet<Cell> = [Cell { x: 1, y: 0 }, Cell { x: 2, y: 2 }]
        .into_iter()
        .collect();
    assert_eq!(expected, alive(&field));
}

#[test]
fn parse_empty_text() {
    let field = Field::from("");
    assert!(alive(&field).is_empty());
    assert_eq!("empty", field.to_string(0));
}

#[test]
fn add_twice_keeps_one_cell() {
    let mut field = Field::new();
    field.add(Cell { x: -3, y: 4 });
    field.add(Cell { x: -3, y: 4 });
    assert_eq!(1, field.cells().len());
    assert!(field.contains(&Cell { x: -3, y: 4 }));
    assert!(!field.contains(&Cell { x: 4, y: -3 }));
}

#[test]
fn render_with_display_padding() {
    let field = field_of(&[Cell { x: 5, y: -7 }]);
    let row = ".....\n";
    let expected = format!("{}{}..X..\n{}{}", row, row, row, row);
    assert_eq!(expected, field.to_string(DISPLAY_PADDING));
}

#[test]
fn render_with_padding_one() {
    let field = Field::from("X.\n.X");
    assert_eq!("....\n.X..\n..X.\n....\n", field.to_string(1));
}

#[test]
fn render_exact_box_drops_dead_border() {
    let field = Field::from("....\n.X..\n..X.\n....\n");
    assert_eq!("X.\n.X\n", field.to_string(0));
}

#[test]
fn render_inverts_parse() {
    let text = "X..X\n.XX.\nX...\n";
    assert_eq!(text, Field::from(text).to_string(0));
}

#[test]
fn step_of_empty_is_empty() {
    let field = Field::new();
    assert!(alive(&field.step()).is_empty());
}

#[test]
fn block_is_still() {
    let field = Field::from("XX\nXX");
    assert_eq!(alive(&field), alive(&field.step()));
}

#[test]
fn lone_cell_dies() {
    let field = field_of(&[Cell { x: 9, y: 9 }]);
    assert!(alive(&field.step()).is_empty());
}

#[test]
fn step_is_deterministic() {
    let a = Field::from(".X.\n..X\nXXX\n");
    let b = field_of(&[
        Cell { x: 1, y: 2 },
        Cell { x: 0, y: 2 },
        Cell { x: 2, y: 2 },
        Cell { x: 2, y: 1 },
        Cell { x: 1, y: 0 },
    ]);
    assert_eq!(alive(&a.step()), alive(&b.step()));
    assert_eq!(a.step().to_string(0), b.step().to_string(0));
}

#[test]
fn step_leaves_receiver_unchanged() {
    let field = Field::from("...\nXXX\n...");
    let before = alive(&field);
    let _ = field.step();
    assert_eq!(before, alive(&field));
}

#[test]
fn fits_rejects_cells_at_the_edge() {
    let near = field_of(&[Cell { x: 0, y: i64::MAX - 1 }]);
    assert!(near.fits(0));
    assert!(!near.fits(1));
    let low = field_of(&[Cell { x: i64::MIN, y: 0 }]);
    assert!(low.fits(0));
    assert!(!low.fits(1));
    assert!(Field::from("X").fits(DISPLAY_PADDING));
}
