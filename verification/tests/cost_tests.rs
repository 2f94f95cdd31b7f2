use tsuki_optimize::chars::{DAKUTEN_ID, KUTEN_ID, TOUTEN_ID};
use tsuki_optimize::cost::{bigram_keys, daku_saved_shift, is_quasi_alternation, key_transition, stroke_count_for_slot, KeyTransition};
use tsuki_optimize::layout::{Hand, KeyboardParams, K_SLOT};

#[test]
fn transitions_on_3x10() {
    let kp = KeyboardParams::k3x10();
    assert_eq!(key_transition(4, 4, kp), KeyTransition::SameKey);
    assert_eq!(key_transition(3, 4, kp), KeyTransition::SameFinger);
    assert_eq!(key_transition(5, 26, kp), KeyTransition::SameFinger);
    assert_eq!(key_transition(0, 9, kp), KeyTransition::Alternation);
    assert_eq!(key_transition(0, 21, kp), KeyTransition::SameHand { row_jump: true, outroll: false });
    assert_eq!(key_transition(2, 1, kp), KeyTransition::SameHand { row_jump: false, outroll: true });
    assert_eq!(key_transition(7, 8, kp), KeyTransition::SameHand { row_jump: false, outroll: true });
    assert_eq!(key_transition(8, 7, kp), KeyTransition::SameHand { row_jump: false, outroll: false });
}

#[test]
fn transitions_on_3x11() {
    let kp = KeyboardParams::k3x11();
    // columns 9 and 10 share the right little finger
    assert_eq!(key_transition(9, 10, kp), KeyTransition::SameFinger);
    assert_eq!(key_transition(7, 32, kp), KeyTransition::SameHand { row_jump: true, outroll: true });
}

#[test]
fn quasi_alternation() {
    assert!(is_quasi_alternation(Hand::Left, Hand::Left, Hand::Right));
    assert!(is_quasi_alternation(Hand::Right, Hand::Left, Hand::Left));
    assert!(!is_quasi_alternation(Hand::Left, Hand::Right, Hand::Left));
    assert!(!is_quasi_alternation(Hand::Right, Hand::Right, Hand::Right));
}

#[test]
fn bigram_key_pairs() {
    let kp = KeyboardParams::k3x10();
    assert_eq!(bigram_keys(KUTEN_ID, 17, 3, kp), None);
    assert_eq!(bigram_keys(TOUTEN_ID, 12, 3, kp), None);
    // from a layer-2 character on key 0 (shift K, then 0) to the layer-1 key 5
    assert_eq!(bigram_keys(0, 30, 5, kp), Some((0, 5)));
    // to a layer-2 character on key 8: the shift D comes first
    assert_eq!(bigram_keys(1, 1, 38, kp), Some((1, 12)));
}

#[test]
fn dakuten_saves_a_shift() {
    let kp = KeyboardParams::k3x10();
    assert_eq!(daku_saved_shift(DAKUTEN_ID, 30, true, kp), Some(K_SLOT));
    assert_eq!(daku_saved_shift(DAKUTEN_ID, 30, false, kp), None);
    assert_eq!(daku_saved_shift(DAKUTEN_ID, 3, true, kp), None);
    assert_eq!(daku_saved_shift(0, 30, true, kp), None);
}

#[test]
fn stroke_counts() {
    let kp = KeyboardParams::k3x10();
    assert_eq!(stroke_count_for_slot(KUTEN_ID, 17, kp), 2);
    assert_eq!(stroke_count_for_slot(0, 5, kp), 1);
    assert_eq!(stroke_count_for_slot(0, 35, kp), 2);
    let kp11 = KeyboardParams::k3x11();
    assert_eq!(stroke_count_for_slot(KUTEN_ID, 5, kp11), 1);
    assert_eq!(stroke_count_for_slot(KUTEN_ID, 40, kp11), 2);
}
