use dancing_links::{backtrack, Board, Cell, Config};

#[test]
fn test_backtrack() {
    let exp = "\n\
    534|678|912\n\
    672|195|348\n\
    198|342|567\n\
    ---+---+---\n\
    859|761|423\n\
    426|853|791\n\
    713|924|856\n\
    ---+---+---\n\
    961|537|284\n\
    287|419|635\n\
    345|286|179\n\
    ";
    let board_string = String::from(
        "\
        530070000\
        600195000\
        098000060\
        800060003\
        400803001\
        700020006\
        060000280\
        000419005\
        000080079\
        ",
    );
    let mut board = Board::new(&board_string);
    backtrack(&mut board);
    assert!(board.is_completed());
    assert_eq!(board.string(), exp);
}

const BOARD_STRING: &str = "\
070030000\
000060305\
001000690\
500200060\
102000407\
060004009\
013000900\
209050000\
000080040\
";

#[test]
fn lib_test_backtrack() {
    let exp = "\n\
    675|938|214\n\
    928|461|375\n\
    431|527|698\n\
    ---+---+---\n\
    594|273|861\n\
    182|695|437\n\
    367|814|529\n\
    ---+---+---\n\
    813|742|956\n\
    249|156|783\n\
    756|389|142\n\
    ";
    let mut board = Board::new(&String::from(BOARD_STRING));
    assert!(backtrack(&mut board));
    assert_eq!(board.string(), exp);
}

#[test]
fn fresh_board_prints_its_digits() {
    let text: String = std::iter::repeat("000000000").take(9).collect();
    let board = Board::new(&text);
    let line = "000|000|000\n";
    let rule = "---+---+---\n";
    let exp = format!("\n{l}{l}{l}{r}{l}{l}{l}{r}{l}{l}{l}", l = line, r = rule);
    assert_eq!(board.string(), exp);
    assert!(!board.is_completed());
}

#[test]
fn neighbours_share_row_column_or_box() {
    let text: String = std::iter::repeat("000000000").take(9).collect();
    let board = Board::new(&text);
    let cell = Cell::new(0, 5, 5, 5, false);
    // 8 in the row, 8 in the column, 4 more in the box
    assert_eq!(board.neighbours(&cell).len(), 20);
}

fn value_of(cell: &Cell) -> String {
    let text = format!("{:?}", cell);
    let at = text.find("value: ").unwrap() + 7;
    text[at..].chars().take_while(|ch| ch.is_ascii_digit()).collect()
}

#[test]
fn cell_takes_first_free_digit() {
    let mut cell = Cell::new(0, 1, 1, 1, false);
    assert!(cell.can_set());
    assert!(!cell.is_set());
    let others = vec![Cell::new(1, 1, 2, 1, true), Cell::new(2, 2, 1, 1, true), Cell::new(0, 1, 3, 1, false)];
    cell.set_possibilities(&others);
    cell.set_value();
    assert!(cell.is_set());
    assert_eq!(value_of(&cell), "3");
    // a digit once tried is not offered again
    cell.set_value();
    assert_eq!(value_of(&cell), "4");
}

#[test]
fn cell_runs_out_of_digits_and_resets() {
    let mut cell = Cell::new(0, 1, 1, 1, false);
    let others: Vec<Cell> = (1..=8).map(|v| Cell::new(v, 1, v + 1, 1, true)).collect();
    cell.set_possibilities(&others);
    cell.set_value();
    assert_eq!(value_of(&cell), "9");
    cell.set_value();
    assert!(!cell.is_set());
    cell.reset();
    cell.set_value();
    assert_eq!(value_of(&cell), "1");
}

#[test]
fn given_cell_cannot_be_set() {
    let cell = Cell::new(4, 1, 1, 1, true);
    assert!(!cell.can_set());
    assert!(cell.is_set());
}

#[test]
fn config_reads_method_and_board() {
    let args = vec![String::from("prog"), String::from("backtrack"), String::from("530070000")];
    let config = Config::build(&args).unwrap();
    assert_eq!(config.method, "backtrack");
    assert_eq!(config.board_string, "530070000");
}
