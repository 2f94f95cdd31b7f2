use vstd::prelude::*;

use crate::chars::{CharId, DAKUTEN_ID, KUTEN_ID, MAX_CHARS, TOUTEN_ID};
use crate::layout::{
    col_to_finger, keystrokes_for_slot, slot_col, slot_hand, slot_row, spec_col_to_finger, spec_keystrokes,
    spec_slot_hand, Hand, KeyboardParams, KeyboardSize, Layout, SlotId,
};

verus! {

/// How the hands move from one key press to the next; each kind carries
/// its own penalty or bonus in the score.
#[derive(Clone, Copy, Debug, PartialEq, Eq, Structural)]
pub enum KeyTransition {
    /// The same key twice.
    SameKey,
    /// Two keys of one finger.
    SameFinger,
    /// One key of each hand.
    Alternation,
    /// Two fingers of one hand; `row_jump` when going between the top and
    /// bottom rows, `outroll` when moving towards the little finger.
    SameHand { row_jump: bool, outroll: bool },
}

pub open spec fn spec_key_transition(k1: SlotId, k2: SlotId, kp: KeyboardParams) -> KeyTransition {
    let nc = kp.num_cols;
    if k1 == k2 {
        KeyTransition::SameKey
    } else if spec_col_to_finger(k1 % nc) == spec_col_to_finger(k2 % nc) {
        KeyTransition::SameFinger
    } else if spec_slot_hand(k1, nc) != spec_slot_hand(k2, nc) {
        KeyTransition::Alternation
    } else {
        let r1 = (k1 % (nc * 3) as u8) / nc;
        let r2 = (k2 % (nc * 3) as u8) / nc;
        let c1 = k1 % nc;
        let c2 = k2 % nc;
        KeyTransition::SameHand {
            row_jump: r1 - r2 == 2 || r2 - r1 == 2,
            outroll: match spec_slot_hand(k1, nc) {
                Hand::Left => c2 < c1,
                Hand::Right => c2 > c1,
            },
        }
    }
}

/// Kind of the transition from key `k1` to key `k2`.
pub fn key_transition(k1: SlotId, k2: SlotId, kp: KeyboardParams) -> (t: KeyTransition)
    requires
        0 < kp.num_cols <= 11,
    ensures
        t == spec_key_transition(k1, k2, kp),
{
    let nc = kp.num_cols;
    if k1 == k2 {
        return KeyTransition::SameKey;
    }
    let f1 = col_to_finger(slot_col(k1, nc));
    let f2 = col_to_finger(slot_col(k2, nc));
    if f1 == f2 {
        return KeyTransition::SameFinger;
    }
    let h1 = slot_hand(k1, nc);
    let h2 = slot_hand(k2, nc);
    if h1 != h2 {
        return KeyTransition::Alternation;
    }
    let r1 = slot_row(k1, nc);
    let r2 = slot_row(k2, nc);
    let row_jump = (r1 as i16 - r2 as i16 == 2) || (r2 as i16 - r1 as i16 == 2);
    let c1 = slot_col(k1, nc);
    let c2 = slot_col(k2, nc);
    let outroll = match h1 {
        Hand::Left => c2 < c1,
        Hand::Right => c2 > c1,
    };
    KeyTransition::SameHand { row_jump, outroll }
}

/// Whether three consecutive characters are half alternating: exactly one
/// hand change (left-left-right, right-left-left, and so on).
pub fn is_quasi_alternation(h1: Hand, h2: Hand, h3: Hand) -> (r: bool)
    ensures
        r == ((h1 == h2) != (h2 == h3)),
{
    (h1 == h2) != (h2 == h3)
}

/// A bigram starting with `。` or `、` costs nothing: Enter resets the context.
pub open spec fn spec_bigram_resets(c1: CharId) -> bool {
    c1 == KUTEN_ID || c1 == TOUTEN_ID
}

/// The two key presses a bigram moves between: the last key of the first
/// character and the first key of the second; none after `。` or `、`.
pub open spec fn spec_bigram_keys(c1: CharId, slot1: SlotId, slot2: SlotId, kp: KeyboardParams) -> Option<(SlotId, SlotId)> {
    if spec_bigram_resets(c1) {
        None
    } else {
        Some((spec_keystrokes(slot1, kp).last(), spec_keystrokes(slot2, kp)[0]))
    }
}

pub fn bigram_keys(c1: CharId, slot1: SlotId, slot2: SlotId, kp: KeyboardParams) -> (r: Option<(SlotId, SlotId)>)
    requires
        kp.num_cols > 0,
    ensures
        r == spec_bigram_keys(c1, slot1, slot2, kp),
{
    if c1 == KUTEN_ID || c1 == TOUTEN_ID {
        return None;
    }
    let ks1 = keystrokes_for_slot(slot1, kp);
    let ks2 = keystrokes_for_slot(slot2, kp);
    Some((ks1.last(), ks2.first()))
}

/// When a layer-2 base kana marked as a trigger is followed by `゛`, the
/// shift press of the base kana is not needed: the slot of that shift key,
/// whose cost (one stroke plus its difficulty) is taken off.
pub open spec fn spec_daku_saved_shift(c2: CharId, slot1: SlotId, trigger: bool, kp: KeyboardParams) -> Option<SlotId> {
    if c2 == DAKUTEN_ID && trigger && slot1 >= kp.num_slots_per_layer {
        Some(spec_keystrokes(slot1, kp)[0])
    } else {
        None
    }
}

pub fn daku_saved_shift(c2: CharId, slot1: SlotId, trigger: bool, kp: KeyboardParams) -> (r: Option<SlotId>)
    requires
        kp.num_cols > 0,
    ensures
        r == spec_daku_saved_shift(c2, slot1, trigger, kp),
{
    if c2 == DAKUTEN_ID && trigger && (slot1 as usize) >= kp.num_slots_per_layer as usize {
        let ks1 = keystrokes_for_slot(slot1, kp);
        Some(ks1.first())
    } else {
        None
    }
}

pub open spec fn spec_stroke_count_for_slot(c: CharId, slot: SlotId, kp: KeyboardParams) -> i32 {
    if kp.size == KeyboardSize::K3x10 && (c == KUTEN_ID || c == TOUTEN_ID) {
        2
    } else if slot < kp.num_slots_per_layer {
        1
    } else {
        2
    }
}

/// Key presses for character `c` placed on `slot`: two for `。`/`、` on the
/// 3x10 board (K/D and Enter), one on layer 1, two on layer 2.
pub fn stroke_count_for_slot(c: CharId, slot: SlotId, kp: KeyboardParams) -> (r: i32)
    ensures
        r == spec_stroke_count_for_slot(c, slot, kp),
{
    let is_3x10_punct = kp.size == KeyboardSize::K3x10 && (c == KUTEN_ID || c == TOUTEN_ID);
    if is_3x10_punct {
        2
    } else if (slot as usize) < kp.num_slots_per_layer as usize {
        1
    } else {
        2
    }
}

/// The stroke count used to price a swap agrees with the one used to score
/// a layout: for every character, counting from its slot gives the
/// layout's own count.
pub proof fn lemma_stroke_counts_agree(layout: Layout, c: CharId)
    requires
        (c as int) < MAX_CHARS,
    ensures
        layout.spec_char_stroke_count(c) as int == spec_stroke_count_for_slot(
            c,
            layout.char_to_slot@[c as int],
            layout.kp,
        ) as int,
{
}

/// Between keys of two different columns, the reversed transition
/// alternates hands exactly when the forward one does, and a same-hand roll
/// reversed changes direction (an outroll becomes an inroll and back).
pub proof fn lemma_transition_reversed(k1: SlotId, k2: SlotId, kp: KeyboardParams)
    requires
        0 < kp.num_cols <= 11,
        k1 % kp.num_cols != k2 % kp.num_cols,
    ensures
        (spec_key_transition(k1, k2, kp) == KeyTransition::Alternation) == (spec_key_transition(k2, k1, kp)
            == KeyTransition::Alternation),
        spec_key_transition(k1, k2, kp) matches KeyTransition::SameHand { outroll: o1, .. } ==> spec_key_transition(
            k2,
            k1,
            kp,
        ) matches KeyTransition::SameHand { outroll: o2, .. } && o1 != o2,
{
}


/// Column of a key on a board with `nc` columns.
pub open spec fn key_col(k: SlotId, nc: int) -> int {
    k as int % nc
}

/// Row (0 top, 1 home, 2 bottom) of a key, on either layer.
pub open spec fn key_row(k: SlotId, nc: int) -> int {
    (k as int % (3 * nc)) / nc
}

/// How a transition is classified, from the two keys alone: the same key;
/// else the same finger; else one key per hand (alternation); else a roll
/// on one hand, which jumps rows exactly when the rows are two apart
/// (top and bottom, in either order) and rolls outward exactly when it
/// moves towards the little finger of that hand.
pub proof fn lemma_key_transition_classes(k1: SlotId, k2: SlotId, kp: KeyboardParams)
    requires
        kp.is_valid(),
    ensures
        ({
            let nc = kp.num_cols as int;
            let t = spec_key_transition(k1, k2, kp);
            let f1 = spec_col_to_finger(key_col(k1, nc) as u8);
            let f2 = spec_col_to_finger(key_col(k2, nc) as u8);
            let left1 = key_col(k1, nc) < 5;
            let left2 = key_col(k2, nc) < 5;
            let dr = key_row(k1, nc) - key_row(k2, nc);
            &&& (t == KeyTransition::SameKey) == (k1 == k2)
            &&& (t == KeyTransition::SameFinger) == (k1 != k2 && f1 == f2)
            &&& (t == KeyTransition::Alternation) == (k1 != k2 && f1 != f2 && left1 != left2)
            &&& k1 != k2 && f1 != f2 && left1 == left2 ==> t == KeyTransition::SameHand {
                row_jump: (if dr >= 0 { dr } else { -dr }) == 2,
                outroll: if left1 { key_col(k2, nc) < key_col(k1, nc) } else { key_col(k2, nc) > key_col(k1, nc) },
            }
        }),
{
}

/// A row jump does not depend on the direction: going from `k1` to `k2`
/// jumps rows exactly when going from `k2` to `k1` does.
pub proof fn lemma_row_jump_symmetric(k1: SlotId, k2: SlotId, kp: KeyboardParams)
    requires
        kp.is_valid(),
    ensures
        spec_key_transition(k1, k2, kp) matches KeyTransition::SameHand { row_jump: j1, .. } ==> spec_key_transition(
            k2,
            k1,
            kp,
        ) matches KeyTransition::SameHand { row_jump: j2, .. } && j1 == j2,
{
}


/// The keys a bigram moves between: none at all after `。` or `、` (Enter
/// resets the context, on both boards); otherwise from the physical key of
/// the first character to the first press of the second, which is its own
/// key on layer 1 and, on layer 2, a shift key of the other hand.
pub proof fn lemma_bigram_keys_law(c1: CharId, slot1: SlotId, slot2: SlotId, kp: KeyboardParams)
    requires
        kp.is_valid(),
        (slot1 as int) < kp.num_slots,
        (slot2 as int) < kp.num_slots,
    ensures
        c1 == KUTEN_ID || c1 == TOUTEN_ID ==> spec_bigram_keys(c1, slot1, slot2, kp) is None,
        !(c1 == KUTEN_ID || c1 == TOUTEN_ID) ==> {
            let npl = kp.num_slots_per_layer as int;
            let nc = kp.num_cols as int;
            &&& spec_bigram_keys(c1, slot1, slot2, kp) matches Some((a, b))
            &&& a as int == if (slot1 as int) < npl {
                slot1 as int
            } else {
                slot1 as int - npl
            }
            &&& (slot2 as int) < npl ==> b == slot2
            &&& (slot2 as int) >= npl ==> (b == kp.shift_left || b == kp.shift_right) && (key_col(b, nc) < 5) != ((
            slot2 as int - npl) % nc < 5)
        },
{
    if !(c1 == KUTEN_ID || c1 == TOUTEN_ID) && slot2 >= kp.num_slots_per_layer {
        if kp.size == KeyboardSize::K3x10 {
            assert(17int % 10 == 7 && 12int % 10 == 2);
        } else {
            assert(18int % 11 == 7 && 13int % 11 == 2);
        }
    }
}

/// Key presses per character: on the 3x10 board `。` and `、` always take
/// two (their key and Enter), wherever they sit; every other character
/// takes as many presses as its slot needs, one on layer 1 and two (shift
/// and key) on layer 2. The count used to price a swap and the count of a
/// layout agree on this.
pub proof fn lemma_stroke_count_law(layout: Layout, c: CharId, slot: SlotId)
    requires
        layout.kp.is_valid(),
        (slot as int) < layout.kp.num_slots,
        (layout.char_to_slot@[c as int] as int) < layout.kp.num_slots,
        (c as int) < MAX_CHARS,
    ensures
        layout.kp.size == KeyboardSize::K3x10 && (c == KUTEN_ID || c == TOUTEN_ID) ==> {
            &&& spec_stroke_count_for_slot(c, slot, layout.kp) == 2
            &&& layout.spec_char_stroke_count(c) == 2
        },
        !(layout.kp.size == KeyboardSize::K3x10 && (c == KUTEN_ID || c == TOUTEN_ID)) ==> {
            &&& spec_stroke_count_for_slot(c, slot, layout.kp) as int == spec_keystrokes(slot, layout.kp).len()
            &&& layout.spec_char_stroke_count(c) as int == spec_keystrokes(layout.char_to_slot@[c as int], layout.kp).len()
        },
{
}


/// A shift press is saved exactly when `゛` follows a trigger character on
/// layer 2, and the press saved is the shift key of the other hand than
/// that character's physical key.
pub proof fn lemma_daku_saved_shift_law(c2: CharId, slot1: SlotId, trigger: bool, kp: KeyboardParams)
    requires
        kp.is_valid(),
        (slot1 as int) < kp.num_slots,
    ensures
        spec_daku_saved_shift(c2, slot1, trigger, kp) is Some <==> (c2 == DAKUTEN_ID && trigger && slot1
            >= kp.num_slots_per_layer),
        spec_daku_saved_shift(c2, slot1, trigger, kp) matches Some(sh) ==> (sh == kp.shift_left || sh == kp.shift_right)
            && (key_col(sh, kp.num_cols as int) < 5) != ((slot1 as int - kp.num_slots_per_layer as int) % (
        kp.num_cols as int) < 5),
{
    if kp.size == KeyboardSize::K3x10 {
        assert(17int % 10 == 7 && 12int % 10 == 2);
    } else {
        assert(18int % 11 == 7 && 13int % 11 == 2);
    }
}

} // verus!
