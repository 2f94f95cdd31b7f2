use tsuki_optimize::chars::CHAR_LIST;
use tsuki_optimize::layout::{KeyboardParams, Layout, SHIFT_SLOT_SENTINEL};
use tsuki_optimize::user_layout::{parse_user_layout, UserLayoutDef, UserLayoutError, UserLayoutFile, VOID_GLYPH};

fn rows_of(cells: &[char], nc: usize) -> Vec<String> {
    cells.chunks(nc).map(|r| r.iter().collect::<String>()).collect()
}

fn def_from_cells(cells: &[char], nc: usize) -> UserLayoutDef {
    let rows = rows_of(cells, nc);
    UserLayoutDef { layer1: rows[0..3].to_vec(), layer2: rows[3..6].to_vec() }
}

fn cells_3x10() -> Vec<char> {
    CHAR_LIST[0..60].to_vec()
}

#[test]
fn parses_the_starting_layout_3x10() {
    let kp = KeyboardParams::k3x10();
    let layout = parse_user_layout(kp, &def_from_cells(&cells_3x10(), 10)).unwrap();
    let initial = Layout::initial(kp);
    for c in 0..60 {
        assert_eq!(layout.char_to_slot[c], initial.char_to_slot[c]);
    }
    for c in 60..64 {
        assert_eq!(layout.char_to_slot[c], 255);
    }
    for s in 0..60 {
        assert_eq!(layout.slot_to_char[s], s as u8);
    }
}

#[test]
fn parses_a_3x11_layout_with_voids() {
    let kp = KeyboardParams::k3x11();
    let mut cells: Vec<char> = CHAR_LIST.to_vec();
    cells.push(VOID_GLYPH);
    cells.push(VOID_GLYPH);
    cells.insert(13, '☆');
    cells.insert(18, '★');
    assert_eq!(cells.len(), 66);
    let layout = parse_user_layout(kp, &def_from_cells(&cells, 11)).unwrap();
    assert_eq!(layout.slot_to_char[13], SHIFT_SLOT_SENTINEL);
    assert_eq!(layout.slot_to_char[18], SHIFT_SLOT_SENTINEL);
    assert_eq!(layout.char_to_slot[0], 0);
    assert_eq!(layout.char_to_slot[13], 14);
    assert_eq!(layout.char_to_slot[17], 19);
    assert_eq!(layout.char_to_slot[62], 64);
    assert_eq!(layout.char_to_slot[63], 65);
    for c in 0..64u8 {
        assert_eq!(layout.slot_to_char[layout.char_to_slot[c as usize] as usize], c);
    }
}

#[test]
fn refuses_wrong_row_counts() {
    let kp = KeyboardParams::k3x10();
    let mut def = def_from_cells(&cells_3x10(), 10);
    def.layer1.pop();
    assert_eq!(parse_user_layout(kp, &def).err(), Some(UserLayoutError::RowCount { layer: 1, rows: 2 }));
    let mut def = def_from_cells(&cells_3x10(), 10);
    def.layer2.push("x".to_string());
    assert_eq!(parse_user_layout(kp, &def).err(), Some(UserLayoutError::RowCount { layer: 2, rows: 4 }));
}

#[test]
fn refuses_a_short_row() {
    let kp = KeyboardParams::k3x10();
    let mut def = def_from_cells(&cells_3x10(), 10);
    def.layer1[1].pop();
    let line = def.layer1[1].clone();
    assert_eq!(
        parse_user_layout(kp, &def).err(),
        Some(UserLayoutError::RowLength { layer: 1, row: 1, expected: 10, actual: 9, line })
    );
}

#[test]
fn refuses_unknown_character() {
    let kp = KeyboardParams::k3x10();
    let mut cells = cells_3x10();
    cells[0] = 'x';
    assert_eq!(
        parse_user_layout(kp, &def_from_cells(&cells, 10)).err(),
        Some(UserLayoutError::UnknownChar { ch: 'x', layer: 1, row: 0, col: 0 })
    );
}

#[test]
fn refuses_duplicate_character() {
    let kp = KeyboardParams::k3x10();
    let mut cells = cells_3x10();
    cells[35] = 'そ';
    assert_eq!(
        parse_user_layout(kp, &def_from_cells(&cells, 10)).err(),
        Some(UserLayoutError::DuplicateChar { ch: 'そ', layer: 2, row: 0, col: 5 })
    );
}

#[test]
fn refuses_too_many_voids() {
    let kp = KeyboardParams::k3x10();
    let mut cells = cells_3x10();
    cells[0] = VOID_GLYPH;
    cells[1] = VOID_GLYPH;
    cells[2] = VOID_GLYPH;
    assert_eq!(
        parse_user_layout(kp, &def_from_cells(&cells, 10)).err(),
        Some(UserLayoutError::TooManyVoids { layer: 1, row: 0, col: 2 })
    );
}

#[test]
fn refuses_unplaced_character() {
    let kp = KeyboardParams::k3x10();
    let mut cells = cells_3x10();
    cells[59] = '「';
    assert_eq!(
        parse_user_layout(kp, &def_from_cells(&cells, 10)).err(),
        Some(UserLayoutError::Unplaced { char_id: 59 })
    );
}

#[test]
fn picks_the_definition_for_the_board() {
    let file = UserLayoutFile {
        layout_3x10: Some(def_from_cells(&cells_3x10(), 10)),
        layout_3x10_single_shift: None,
        layout_3x11: None,
    };
    assert!(file.get_def(KeyboardParams::k3x10()).is_some());
    assert!(file.get_def(KeyboardParams::k3x11()).is_none());
}

#[test]
fn shift_placeholders_do_not_matter_on_3x11() {
    let kp = KeyboardParams::k3x11();
    let mut cells: Vec<char> = CHAR_LIST.to_vec();
    cells.push(VOID_GLYPH);
    cells.push(VOID_GLYPH);
    let mut a = cells.clone();
    a.insert(13, '☆');
    a.insert(18, '★');
    let mut b = cells.clone();
    b.insert(13, 'x');
    b.insert(18, 'そ');
    let la = parse_user_layout(kp, &def_from_cells(&a, 11)).unwrap();
    let lb = parse_user_layout(kp, &def_from_cells(&b, 11)).unwrap();
    assert_eq!(la.char_to_slot, lb.char_to_slot);
    assert_eq!(la.slot_to_char, lb.slot_to_char);
}
