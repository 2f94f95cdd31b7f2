use std::collections::HashSet;

use tsuki_optimize::chars::{CharId, DAKUTEN_ID, HANDAKUTEN_ID, KUTEN_ID, TOUTEN_ID};
use tsuki_optimize::layout::{
    col_to_finger, is_fixed, is_inter_layer_movable, keystrokes_for_slot, slot_after_swap, slot_col, slot_hand,
    slot_row, swap_would_violate, ExclusivePair, Hand, KeyboardParams, KeyboardSize, Layout, D_SLOT, K_SLOT,
    SHIFT_SLOT_SENTINEL,
};

#[test]
fn test_slot_col_row() {
    // 3x10: slot 0 = row0, col0
    assert_eq!(slot_col(0, 10), 0);
    assert_eq!(slot_row(0, 10), 0);
    // slot 15 = row1, col5
    assert_eq!(slot_col(15, 10), 5);
    assert_eq!(slot_row(15, 10), 1);
}

#[test]
fn test_col_to_finger() {
    assert_eq!(col_to_finger(0), 0); // left little finger
    assert_eq!(col_to_finger(4), 3); // left index finger
    assert_eq!(col_to_finger(5), 4); // right index finger
    assert_eq!(col_to_finger(9), 7); // right little finger
}

#[test]
fn test_is_fixed_3x10() {
    let kp = KeyboardParams::k3x10();
    assert!(is_fixed(KUTEN_ID, kp));
    assert!(is_fixed(TOUTEN_ID, kp));
    assert!(!is_fixed(0, kp)); // 'そ' is not fixed
}

#[test]
fn test_swap_chars_integrity() {
    let kp = KeyboardParams::k3x10();
    let mut layout = Layout::initial(kp);
    let c1: CharId = 0;
    let c2: CharId = 1;
    let s1_before = layout.char_to_slot[c1 as usize];
    let s2_before = layout.char_to_slot[c2 as usize];

    layout.swap_chars(c1, c2);

    assert_eq!(layout.char_to_slot[c1 as usize], s2_before);
    assert_eq!(layout.char_to_slot[c2 as usize], s1_before);
    assert_eq!(layout.slot_to_char[s1_before as usize], c2);
    assert_eq!(layout.slot_to_char[s2_before as usize], c1);
}

#[test]
fn test_initial_layout_3x10() {
    let kp = KeyboardParams::k3x10();
    let layout = Layout::initial(kp);
    // 3x10: CharId i -> SlotId i
    assert_eq!(layout.char_to_slot[0], 0);
    assert_eq!(layout.char_to_slot[59], 59);
    assert_eq!(layout.slot_to_char[0], 0);
}

#[test]
fn test_initial_layout_3x11() {
    let kp = KeyboardParams::k3x11();
    let layout = Layout::initial(kp);
    for c in 0..64u8 {
        let s = layout.char_to_slot[c as usize];
        assert_eq!(layout.slot_to_char[s as usize], c, "slot_to_char mismatch for char {c}");
    }
    assert_eq!(layout.slot_to_char[13], SHIFT_SLOT_SENTINEL);
    assert_eq!(layout.slot_to_char[18], SHIFT_SLOT_SENTINEL);
    let mut slots_used: HashSet<u8> = HashSet::new();
    for c in 0..64u8 {
        assert!(slots_used.insert(layout.char_to_slot[c as usize]), "duplicate slot for char {c}");
    }
}

#[test]
fn keyboard_params_shapes() {
    let a = KeyboardParams::k3x10();
    assert_eq!(a.size, KeyboardSize::K3x10);
    assert_eq!((a.num_cols, a.num_slots_per_layer, a.num_slots, a.num_chars), (10, 30, 60, 60));
    assert_eq!((a.shift_left, a.shift_right), (D_SLOT, K_SLOT));
    let b = KeyboardParams::k3x11();
    assert_eq!(b.size, KeyboardSize::K3x11);
    assert_eq!((b.num_cols, b.num_slots_per_layer, b.num_slots, b.num_chars), (11, 33, 66, 64));
    assert_eq!((b.shift_left, b.shift_right), (13, 18));
}

#[test]
fn slot_geometry_3x11() {
    assert_eq!(slot_col(21, 11), 10);
    assert_eq!(slot_row(21, 11), 1);
    assert_eq!(slot_row(32, 11), 2);
    assert_eq!(col_to_finger(10), 7);
    assert_eq!(col_to_finger(6), 4);
    assert_eq!(slot_hand(4, 10), Hand::Left);
    assert_eq!(slot_hand(5, 10), Hand::Right);
    assert_eq!(slot_hand(15, 11), Hand::Left);
    assert_eq!(slot_hand(16, 11), Hand::Right);
    assert_eq!(slot_hand(24, 11), Hand::Left);
}

#[test]
fn keystrokes_layer1_and_layer2() {
    let kp = KeyboardParams::k3x10();
    let one = keystrokes_for_slot(7, kp);
    assert_eq!(one.as_slice(), &[7u8][..]);
    assert_eq!((one.first(), one.last()), (7, 7));
    // layer-2 slot 30 is the physical key 0 (left hand): shift with the right hand (K)
    let left = keystrokes_for_slot(30, kp);
    assert_eq!(left.as_slice(), &[K_SLOT, 0u8][..]);
    // layer-2 slot 38 is the physical key 8 (right hand): shift with the left hand (D)
    let right = keystrokes_for_slot(38, kp);
    assert_eq!(right.as_slice(), &[D_SLOT, 8u8][..]);
    assert_eq!((right.first(), right.last()), (D_SLOT, 8));
    let kp11 = KeyboardParams::k3x11();
    assert_eq!(keystrokes_for_slot(33 + 12, kp11).as_slice(), &[18u8, 12u8][..]);
    assert_eq!(keystrokes_for_slot(33 + 16, kp11).as_slice(), &[13u8, 16u8][..]);
}

#[test]
fn swap_twice_restores_layout() {
    let kp = KeyboardParams::k3x11();
    let start = Layout::initial(kp);
    let mut layout = start;
    layout.swap_chars(5, 40);
    assert_ne!(layout.char_to_slot, start.char_to_slot);
    layout.swap_chars(5, 40);
    assert_eq!(layout.char_to_slot, start.char_to_slot);
    assert_eq!(layout.slot_to_char, start.slot_to_char);
}

#[test]
fn layer_queries_and_stroke_counts() {
    let kp = KeyboardParams::k3x10();
    let layout = Layout::initial(kp);
    assert!(layout.is_l1(0));
    assert!(!layout.is_l1(30));
    assert_eq!(layout.primary_hand(0), Hand::Left);
    assert_eq!(layout.primary_hand(9), Hand::Right);
    // layer-2 character on physical key 0: its main key is on the left hand
    assert_eq!(layout.primary_hand(30), Hand::Left);
    assert_eq!(layout.char_stroke_count(0), 1);
    assert_eq!(layout.char_stroke_count(30), 2);
    // the punctuation on 3x10 is typed with K/D and Enter
    assert_eq!(layout.char_stroke_count(KUTEN_ID), 2);
    let layout11 = Layout::initial(KeyboardParams::k3x11());
    let s = layout11.char_to_slot[KUTEN_ID as usize];
    let expected = if (s as usize) < 33 { 1 } else { 2 };
    assert_eq!(layout11.char_stroke_count(KUTEN_ID), expected);
}

#[test]
fn slot_after_swap_cases() {
    let kp = KeyboardParams::k3x10();
    let layout = Layout::initial(kp);
    assert_eq!(slot_after_swap(&layout, 3, 40, 3), 40);
    assert_eq!(slot_after_swap(&layout, 3, 40, 40), 3);
    assert_eq!(slot_after_swap(&layout, 3, 40, 7), 7);
}

#[test]
fn fixed_chars_by_board() {
    let kp11 = KeyboardParams::k3x11();
    assert!(!is_fixed(KUTEN_ID, kp11));
    assert!(!is_fixed(TOUTEN_ID, kp11));
    let mut l1_only: HashSet<CharId> = HashSet::new();
    l1_only.insert(DAKUTEN_ID);
    l1_only.insert(HANDAKUTEN_ID);
    let kp = KeyboardParams::k3x10();
    assert!(!is_inter_layer_movable(KUTEN_ID, kp, &l1_only));
    assert!(!is_inter_layer_movable(DAKUTEN_ID, kp, &l1_only));
    assert!(is_inter_layer_movable(0, kp, &l1_only));
    assert!(is_inter_layer_movable(KUTEN_ID, kp11, &l1_only));
}

fn pair(a: &[CharId], b: &[CharId]) -> ExclusivePair {
    ExclusivePair { group_a: a.iter().copied().collect(), group_b: b.iter().copied().collect() }
}

#[test]
fn exclusive_pair_violation() {
    let p = pair(&[4], &[19, 2]);
    assert!(p.violates(19, 4));
    assert!(p.violates(4, 2));
    assert!(!p.violates(19, 2));
    assert!(!p.violates(4, 4));
}

#[test]
fn swap_would_violate_detects_forbidden_key() {
    let kp = KeyboardParams::k3x10();
    let layout = Layout::initial(kp);
    // 'ゃ' (54) sits on layer 2 above key 24 ('さ'); group A = {ゃ}, B = {そ}
    let pairs = vec![pair(&[54], &[0])];
    // moving 'そ' onto key 24 of layer 1 would stack it with 'ゃ'
    assert!(swap_would_violate(&layout, 0, 24, &pairs));
    // exchanging two unrelated layer-1 characters is fine
    assert!(!swap_would_violate(&layout, 1, 2, &pairs));
    assert!(!swap_would_violate(&layout, 0, 24, &[]));
}

#[test]
fn display_initial_3x10() {
    let layout = Layout::initial(KeyboardParams::k3x10());
    let text = layout.display();
    let lines: Vec<&str> = text.lines().collect();
    assert_eq!(lines.len(), 8);
    assert_eq!(lines[0], "【Layer 1】");
    assert_eq!(lines[1], "  そ こ し て ょ つ ん い の り ");
    assert_eq!(lines[4], "【Layer 2】");
    assert_eq!(lines[7], "  ぅ へ せ ゅ ゃ む ろ ね ー ぉ ");
}

#[test]
fn display_marks_shift_keys_on_3x11() {
    let layout = Layout::initial(KeyboardParams::k3x11());
    let text = layout.display();
    let row1: Vec<char> = text.lines().nth(2).unwrap().chars().filter(|c| *c != ' ').collect();
    assert_eq!(row1.len(), 11);
    assert_eq!(row1[2], '☆');
    assert_eq!(row1[7], '★');
}
