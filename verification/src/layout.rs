use vstd::prelude::*;
use std::collections::HashSet;

use crate::chars::{string_from_chars, CharId, CHAR_LIST, HANDAKUTEN_ID, KUTEN_ID, MAX_CHARS, TOUTEN_ID, VOID_CHAR_FIRST};

verus! {

/// Index of a key position: layer 1 first, then layer 2, row by row.
pub type SlotId = u8;

/// Number of slots of the largest board (3x11: 66 slots).
pub const MAX_SLOTS: usize = 66;

/// Marks a slot that holds no character (the shift keys of the 3x11 board).
pub const SHIFT_SLOT_SENTINEL: CharId = 255;

/// Layer-1 slot of the D key (3x10: row 1, column 2; holds `、`).
pub const D_SLOT: SlotId = 12;
/// Layer-1 slot of the K key (3x10: row 1, column 7; holds `。`).
pub const K_SLOT: SlotId = 17;

/// Board shape.
#[derive(Clone, Copy, Debug, PartialEq, Eq, Structural)]
pub enum KeyboardSize {
    K3x10,
    K3x11,
}

/// Shape parameters of a board.
#[derive(Clone, Copy, Debug)]
pub struct KeyboardParams {
    pub size: KeyboardSize,
    /// Columns per row (10 or 11).
    pub num_cols: u8,
    /// Slots per layer (30 or 33).
    pub num_slots_per_layer: u8,
    /// Slots on both layers (60 or 66).
    pub num_slots: usize,
    /// Characters placed by the optimizer (60 or 64).
    pub num_chars: usize,
    /// Left-hand shift slot, pressed before a right-hand layer-2 character.
    pub shift_left: SlotId,
    /// Right-hand shift slot, pressed before a left-hand layer-2 character.
    pub shift_right: SlotId,
}

pub open spec fn spec_k3x10() -> KeyboardParams {
    KeyboardParams {
        size: KeyboardSize::K3x10,
        num_cols: 10,
        num_slots_per_layer: 30,
        num_slots: 60,
        num_chars: 60,
        shift_left: D_SLOT,
        shift_right: K_SLOT,
    }
}

pub open spec fn spec_k3x11() -> KeyboardParams {
    KeyboardParams {
        size: KeyboardSize::K3x11,
        num_cols: 11,
        num_slots_per_layer: 33,
        num_slots: 66,
        num_chars: 64,
        shift_left: 13,
        shift_right: 18,
    }
}

impl KeyboardParams {
    /// One of the two supported boards.
    pub open spec fn is_valid(self) -> bool {
        self == spec_k3x10() || self == spec_k3x11()
    }

    /// The 3x10 board; the shift keys are the D and K keys.
    pub fn k3x10() -> (kp: Self)
        ensures
            kp == spec_k3x10(),
    {
        KeyboardParams {
            size: KeyboardSize::K3x10,
            num_cols: 10,
            num_slots_per_layer: 30,
            num_slots: 60,
            num_chars: 60,
            shift_left: D_SLOT,
            shift_right: K_SLOT,
        }
    }

    /// The 3x11 board: one more column on the right, with dedicated shift
    /// keys on row 1, columns 2 and 7 (slots 13 and 18).
    pub fn k3x11() -> (kp: Self)
        ensures
            kp == spec_k3x11(),
    {
        KeyboardParams {
            size: KeyboardSize::K3x11,
            num_cols: 11,
            num_slots_per_layer: 33,
            num_slots: 66,
            num_chars: 64,
            shift_left: 13,
            shift_right: 18,
        }
    }
}

/// Hand that strikes a key.
#[derive(Clone, Copy, PartialEq, Eq, Debug, Structural)]
pub enum Hand {
    Left,
    Right,
}

/// Column of a slot.
pub fn slot_col(s: SlotId, num_cols: u8) -> (r: u8)
    requires
        num_cols > 0,
    ensures
        r == s % num_cols,
{
    s % num_cols
}

/// Row of a slot: 0 = top, 1 = home, 2 = bottom (on either layer).
pub fn slot_row(s: SlotId, num_cols: u8) -> (r: u8)
    requires
        0 < num_cols,
        num_cols * 3 <= 255,
    ensures
        r == (s % (num_cols * 3) as u8) / num_cols,
{
    (s % (num_cols * 3)) / num_cols
}

pub open spec fn spec_col_to_finger(col: u8) -> u8 {
    if col == 0 {
        0
    } else if col == 1 {
        1
    } else if col == 2 {
        2
    } else if col <= 4 {
        3
    } else if col <= 6 {
        4
    } else if col == 7 {
        5
    } else if col == 8 {
        6
    } else {
        7
    }
}

/// Finger of a column: 0 = left little finger ... 7 = right little finger.
/// Columns 3-4 and 5-6 share the index fingers; columns 9-10 share the
/// right little finger.
pub fn col_to_finger(col: u8) -> (r: u8)
    requires
        col <= 10,
    ensures
        r == spec_col_to_finger(col),
        r <= 7,
{
    match col {
        0 => 0,
        1 => 1,
        2 => 2,
        3 | 4 => 3,
        5 | 6 => 4,
        7 => 5,
        8 => 6,
        _ => 7,
    }
}

pub open spec fn spec_slot_hand(s: SlotId, num_cols: u8) -> Hand {
    if s % num_cols < 5 {
        Hand::Left
    } else {
        Hand::Right
    }
}

/// Hand of a slot: columns 0-4 are left, the rest right.
pub fn slot_hand(s: SlotId, num_cols: u8) -> (h: Hand)
    requires
        num_cols > 0,
    ensures
        h == spec_slot_hand(s, num_cols),
{
    if slot_col(s, num_cols) < 5 {
        Hand::Left
    } else {
        Hand::Right
    }
}

/// The key presses for one character: one slot, or a shift slot and a key.
#[derive(Clone, Copy, Debug)]
pub struct Keystrokes {
    data: [SlotId; 2],
    len: u8,
}

impl View for Keystrokes {
    type V = Seq<SlotId>;

    closed spec fn view(&self) -> Seq<SlotId> {
        self.data@.subrange(0, self.len as int)
    }
}

impl Keystrokes {
    #[verifier::type_invariant]
    spec fn one_or_two(self) -> bool {
        self.len == 1 || self.len == 2
    }

    pub fn one(a: SlotId) -> (r: Self)
        ensures
            r@ == seq![a],
    {
        Keystrokes { data: [a, 0], len: 1 }
    }

    pub fn two(a: SlotId, b: SlotId) -> (r: Self)
        ensures
            r@ == seq![a, b],
    {
        Keystrokes { data: [a, b], len: 2 }
    }

    pub fn as_slice(&self) -> (r: &[SlotId])
        ensures
            r@ == self@,
            1 <= r@.len() <= 2,
    {
        proof {
            use_type_invariant(self);
        }
        &self.data[0..self.len as usize]
    }

    pub fn first(&self) -> (r: SlotId)
        ensures
            self@.len() >= 1,
            r == self@[0],
    {
        proof {
            use_type_invariant(self);
        }
        self.data[0]
    }

    pub fn last(&self) -> (r: SlotId)
        ensures
            self@.len() >= 1,
            r == self@.last(),
    {
        proof {
            use_type_invariant(self);
        }
        self.data[(self.len - 1) as usize]
    }
}

/// Key presses of the character on `slot`: a layer-1 slot is pressed alone;
/// a layer-2 slot is its physical key preceded by the shift key of the
/// other hand.
pub open spec fn spec_keystrokes(slot: SlotId, kp: KeyboardParams) -> Seq<SlotId> {
    if slot < kp.num_slots_per_layer {
        seq![slot]
    } else {
        let physical = (slot - kp.num_slots_per_layer) as SlotId;
        let shift = if physical % kp.num_cols < 5 { kp.shift_right } else { kp.shift_left };
        seq![shift, physical]
    }
}

pub fn keystrokes_for_slot(slot: SlotId, kp: KeyboardParams) -> (r: Keystrokes)
    requires
        kp.num_cols > 0,
    ensures
        r@ == spec_keystrokes(slot, kp),
{
    if (slot as usize) < kp.num_slots_per_layer as usize {
        Keystrokes::one(slot)
    } else {
        let physical = slot - kp.num_slots_per_layer;
        let col = slot_col(physical, kp.num_cols);
        let shift = if col < 5 {
            kp.shift_right
        } else {
            kp.shift_left
        };
        Keystrokes::two(shift, physical)
    }
}

/// Character-to-slot table of the 3x11 starting layout.
pub const C2S_3X11: [SlotId; 64] = [
    0, 1, 2, 3, 4, 5, 6, 7, 8, 9,
    11, 12, 29, 14, 15, 16, 17, 30, 19, 20,
    22, 23, 24, 25, 26, 27, 28, 10, 21, 31,
    33, 34, 35, 36, 37, 38, 39, 40, 41, 42,
    44, 45, 46, 47, 48, 49, 50, 51, 52, 53,
    55, 56, 57, 58, 59, 60, 61, 62, 63, 64,
    43, 54, 65, 32,
];

/// Owner of each slot in the 3x11 starting layout (255 on the shift keys).
pub open spec fn slot_owner_3x11() -> Seq<CharId> {
    seq![
    0, 1, 2, 3, 4, 5, 6, 7, 8, 9,
    27, 10, 11, 255, 13, 14, 15, 16, 255, 18,
    19, 28, 20, 21, 22, 23, 24, 25, 26, 12,
    17, 29, 63, 30, 31, 32, 33, 34, 35, 36,
    37, 38, 39, 60, 40, 41, 42, 43, 44, 45,
    46, 47, 48, 49, 61, 50, 51, 52, 53, 54,
    55, 56, 57, 58, 59, 62,
    ]
}

proof fn lemma_3x11_table()
    ensures
        forall|c: int|
            0 <= c < 64 ==> {
                &&& #[trigger] C2S_3X11@[c] < 66
                &&& C2S_3X11@[c] != 13
                &&& C2S_3X11@[c] != 18
                &&& slot_owner_3x11()[C2S_3X11@[c] as int] == c
            },
        forall|s: int|
            0 <= s < 66 && s != 13 && s != 18 ==> {
                &&& #[trigger] slot_owner_3x11()[s] < 64
                &&& C2S_3X11@[slot_owner_3x11()[s] as int] == s
            },
{
    assert forall|c: int| 0 <= c < 64 implies {
        &&& #[trigger] C2S_3X11@[c] < 66
        &&& C2S_3X11@[c] != 13
        &&& C2S_3X11@[c] != 18
        &&& slot_owner_3x11()[C2S_3X11@[c] as int] == c
    } by {
        assert(c == 0 || c == 1 || c == 2 || c == 3 || c == 4 || c == 5 || c == 6 || c == 7 || c == 8 || c == 9 || c == 10 || c == 11 || c == 12 || c == 13 || c == 14 || c == 15 || c == 16 || c == 17 || c == 18 || c == 19 || c == 20 || c == 21 || c == 22 || c == 23 || c == 24 || c == 25 || c == 26 || c == 27 || c == 28 || c == 29 || c == 30 || c == 31 || c == 32 || c == 33 || c == 34 || c == 35 || c == 36 || c == 37 || c == 38 || c == 39 || c == 40 || c == 41 || c == 42 || c == 43 || c == 44 || c == 45 || c == 46 || c == 47 || c == 48 || c == 49 || c == 50 || c == 51 || c == 52 || c == 53 || c == 54 || c == 55 || c == 56 || c == 57 || c == 58 || c == 59 || c == 60 || c == 61 || c == 62 || c == 63);
    }
    assert forall|s: int| 0 <= s < 66 && s != 13 && s != 18 implies {
        &&& #[trigger] slot_owner_3x11()[s] < 64
        &&& C2S_3X11@[slot_owner_3x11()[s] as int] == s
    } by {
        assert(s == 0 || s == 1 || s == 2 || s == 3 || s == 4 || s == 5 || s == 6 || s == 7 || s == 8 || s == 9 || s == 10 || s == 11 || s == 12 || s == 13 || s == 14 || s == 15 || s == 16 || s == 17 || s == 18 || s == 19 || s == 20 || s == 21 || s == 22 || s == 23 || s == 24 || s == 25 || s == 26 || s == 27 || s == 28 || s == 29 || s == 30 || s == 31 || s == 32 || s == 33 || s == 34 || s == 35 || s == 36 || s == 37 || s == 38 || s == 39 || s == 40 || s == 41 || s == 42 || s == 43 || s == 44 || s == 45 || s == 46 || s == 47 || s == 48 || s == 49 || s == 50 || s == 51 || s == 52 || s == 53 || s == 54 || s == 55 || s == 56 || s == 57 || s == 58 || s == 59 || s == 60 || s == 61 || s == 62 || s == 63 || s == 64 || s == 65);
    }
}

/// A placement of characters on slots, kept in both directions.
#[derive(Clone, Copy)]
pub struct Layout {
    pub kp: KeyboardParams,
    /// `char_to_slot[c]` is the slot of character `c`.
    pub char_to_slot: [SlotId; MAX_CHARS],
    /// `slot_to_char[s]` is the character on slot `s`, or
    /// `SHIFT_SLOT_SENTINEL` on a slot that holds none.
    pub slot_to_char: [CharId; MAX_SLOTS],
}

pub open spec fn spec_initial_char_to_slot(size: KeyboardSize) -> Seq<SlotId> {
    match size {
        KeyboardSize::K3x10 => Seq::new(64, |c: int| if c < 60 { c as SlotId } else { 0 }),
        KeyboardSize::K3x11 => C2S_3X11@,
    }
}

pub open spec fn spec_initial_slot_to_char(size: KeyboardSize) -> Seq<CharId> {
    match size {
        KeyboardSize::K3x10 => Seq::new(66, |s: int| if s < 60 { s as CharId } else { SHIFT_SLOT_SENTINEL }),
        KeyboardSize::K3x11 => slot_owner_3x11(),
    }
}

impl Layout {
    /// The two tables describe one bijection between the board's characters
    /// and its character slots; the 3x11 shift keys and the slots beyond the
    /// board hold no character.
    pub open spec fn wf(self) -> bool {
        &&& self.kp.is_valid()
        &&& forall|c: int|
            0 <= c < self.kp.num_chars ==> {
                &&& (#[trigger] self.char_to_slot@[c] as int) < self.kp.num_slots
                &&& self.slot_to_char@[self.char_to_slot@[c] as int] == c
            }
        &&& forall|s: int|
            0 <= s < self.kp.num_slots ==> {
                ||| #[trigger] self.slot_to_char@[s] == SHIFT_SLOT_SENTINEL
                ||| {
                    &&& (self.slot_to_char@[s] as int) < self.kp.num_chars
                    &&& self.char_to_slot@[self.slot_to_char@[s] as int] == s
                }
            }
        &&& self.kp.size == KeyboardSize::K3x11 ==> {
            &&& self.slot_to_char@[self.kp.shift_left as int] == SHIFT_SLOT_SENTINEL
            &&& self.slot_to_char@[self.kp.shift_right as int] == SHIFT_SLOT_SENTINEL
        }
        &&& forall|s: int| self.kp.num_slots <= s < MAX_SLOTS ==> #[trigger] self.slot_to_char@[s] == SHIFT_SLOT_SENTINEL
    }

    /// `self` is `before` with the slots of `c1` and `c2` exchanged.
    pub open spec fn is_swap_of(self, before: Layout, c1: CharId, c2: CharId) -> bool {
        let s1 = before.char_to_slot@[c1 as int];
        let s2 = before.char_to_slot@[c2 as int];
        &&& self.kp == before.kp
        &&& self.char_to_slot@ == before.char_to_slot@.update(c1 as int, s2).update(c2 as int, s1)
        &&& self.slot_to_char@ == before.slot_to_char@.update(s1 as int, c2).update(s2 as int, c1)
    }

    /// The starting layout. 3x10: character `i` on slot `i`. 3x11: the 3x10
    /// arrangement widened by one column (ち and れ move to the new column,
    /// 、 and 。 to the bottom row, 「 and 」 join layer 2, two void
    /// placeholders fill the remaining slots, the shift keys stay empty).
    pub fn initial(kp: KeyboardParams) -> (r: Self)
        ensures
            r.kp == kp,
            r.char_to_slot@ == spec_initial_char_to_slot(kp.size),
            r.slot_to_char@ == spec_initial_slot_to_char(kp.size),
            kp.is_valid() ==> r.wf(),
    {
        let mut cts = [0u8; MAX_CHARS];
        let mut stc = [SHIFT_SLOT_SENTINEL; MAX_SLOTS];
        match kp.size {
            KeyboardSize::K3x10 => {
                let mut i: usize = 0;
                while i < 60
                    invariant
                        0 <= i <= 60,
                        forall|c: int| 0 <= c < 64 ==> #[trigger] cts@[c] == if c < i { c as SlotId } else { 0 },
                        forall|s: int| 0 <= s < 66 ==> #[trigger] stc@[s] == if s < i { s as CharId } else { SHIFT_SLOT_SENTINEL },
                    decreases 60 - i,
                {
                    cts[i] = i as SlotId;
                    stc[i] = i as CharId;
                    i = i + 1;
                }
                assert(cts@ =~= spec_initial_char_to_slot(kp.size));
                assert(stc@ =~= spec_initial_slot_to_char(kp.size));
            },
            KeyboardSize::K3x11 => {
                proof {
                    lemma_3x11_table();
                }
                let mut c: usize = 0;
                while c < 64
                    invariant
                        0 <= c <= 64,
                        forall|k: int| 0 <= k < 64 ==> #[trigger] cts@[k] == if k < c { C2S_3X11@[k] } else { 0 },
                        forall|k: int| 0 <= k < c ==> stc@[#[trigger] C2S_3X11@[k] as int] == k,
                        forall|s: int|
                            0 <= s < 66 ==> {
                                ||| #[trigger] stc@[s] == SHIFT_SLOT_SENTINEL
                                ||| ((stc@[s] as int) < c && C2S_3X11@[stc@[s] as int] == s)
                            },
                        forall|k: int|
                            0 <= k < 64 ==> {
                                &&& #[trigger] C2S_3X11@[k] < 66
                                &&& C2S_3X11@[k] != 13
                                &&& C2S_3X11@[k] != 18
                                &&& slot_owner_3x11()[C2S_3X11@[k] as int] == k
                            },
                    decreases 64 - c,
                {
                    let s = C2S_3X11[c];
                    cts[c] = s;
                    stc[s as usize] = c as CharId;
                    c = c + 1;
                }
                assert(cts@ =~= C2S_3X11@);
                assert forall|s: int| 0 <= s < 66 implies stc@[s] == slot_owner_3x11()[s] by {
                    if s != 13 && s != 18 {
                        let k = slot_owner_3x11()[s] as int;
                        assert(C2S_3X11@[k] == s);
                    } else {
                        if stc@[s] != SHIFT_SLOT_SENTINEL {
                            let k = stc@[s] as int;
                            assert(C2S_3X11@[k] != 13);
                        }
                    }
                }
                assert(stc@ =~= slot_owner_3x11());
            },
        }
        Layout { kp, char_to_slot: cts, slot_to_char: stc }
    }

    /// Exchanges the slots of `c1` and `c2` (no constraint is checked).
    pub fn swap_chars(&mut self, c1: CharId, c2: CharId)
        requires
            (c1 as int) < MAX_CHARS,
            (c2 as int) < MAX_CHARS,
            (old(self).char_to_slot@[c1 as int] as int) < MAX_SLOTS,
            (old(self).char_to_slot@[c2 as int] as int) < MAX_SLOTS,
        ensures
            final(self).is_swap_of(*old(self), c1, c2),
    {
        let s1 = self.char_to_slot[c1 as usize];
        let s2 = self.char_to_slot[c2 as usize];
        self.char_to_slot[c1 as usize] = s2;
        self.char_to_slot[c2 as usize] = s1;
        self.slot_to_char[s1 as usize] = c2;
        self.slot_to_char[s2 as usize] = c1;
    }

    /// `c` sits on layer 1.
    pub fn is_l1(&self, c: CharId) -> (r: bool)
        requires
            (c as int) < MAX_CHARS,
        ensures
            r == (self.char_to_slot@[c as int] < self.kp.num_slots_per_layer),
    {
        (self.char_to_slot[c as usize] as usize) < self.kp.num_slots_per_layer as usize
    }

    /// Hand of the key that carries `c` (for layer 2, the character key).
    pub fn primary_hand(&self, c: CharId) -> (h: Hand)
        requires
            (c as int) < MAX_CHARS,
            self.kp.num_cols > 0,
        ensures
            h == spec_slot_hand(self.char_to_slot@[c as int], self.kp.num_cols),
    {
        slot_hand(self.char_to_slot[c as usize], self.kp.num_cols)
    }

    /// Number of key presses for `c`. On the 3x10 board `。` and `、` take two
    /// (K/D and Enter); otherwise layer 1 takes one, layer 2 two.
    pub open spec fn spec_char_stroke_count(self, c: CharId) -> u32 {
        if self.kp.size == KeyboardSize::K3x10 && (c == KUTEN_ID || c == TOUTEN_ID) {
            2
        } else if self.char_to_slot@[c as int] < self.kp.num_slots_per_layer {
            1
        } else {
            2
        }
    }

    pub fn char_stroke_count(&self, c: CharId) -> (r: u32)
        requires
            (c as int) < MAX_CHARS,
        ensures
            r == self.spec_char_stroke_count(c),
    {
        if self.kp.size == KeyboardSize::K3x10 && (c == KUTEN_ID || c == TOUTEN_ID) {
            2
        } else if self.is_l1(c) {
            1
        } else {
            2
        }
    }
}

/// Slot of `c` once `swap_c1` and `swap_c2` are exchanged.
pub open spec fn spec_slot_after_swap(layout: Layout, swap_c1: CharId, swap_c2: CharId, c: CharId) -> SlotId {
    if c == swap_c1 {
        layout.char_to_slot@[swap_c2 as int]
    } else if c == swap_c2 {
        layout.char_to_slot@[swap_c1 as int]
    } else {
        layout.char_to_slot@[c as int]
    }
}

/// Slot of `c` once `swap_c1` and `swap_c2` are exchanged, without changing
/// the layout (used to price a swap before making it).
pub fn slot_after_swap(layout: &Layout, swap_c1: CharId, swap_c2: CharId, c: CharId) -> (r: SlotId)
    requires
        (swap_c1 as int) < MAX_CHARS,
        (swap_c2 as int) < MAX_CHARS,
        (c as int) < MAX_CHARS,
    ensures
        r == spec_slot_after_swap(*layout, swap_c1, swap_c2, c),
{
    if c == swap_c1 {
        layout.char_to_slot[swap_c2 as usize]
    } else if c == swap_c2 {
        layout.char_to_slot[swap_c1 as usize]
    } else {
        layout.char_to_slot[c as usize]
    }
}

pub open spec fn spec_is_fixed(c: CharId, kp: KeyboardParams) -> bool {
    match kp.size {
        KeyboardSize::K3x10 => c == TOUTEN_ID || c == KUTEN_ID,
        KeyboardSize::K3x11 => false,
    }
}

/// `c` never moves: `、` and `。` on the 3x10 board; nothing on the 3x11 board.
pub fn is_fixed(c: CharId, kp: KeyboardParams) -> (r: bool)
    ensures
        r == spec_is_fixed(c, kp),
{
    match kp.size {
        KeyboardSize::K3x10 => c == TOUTEN_ID || c == KUTEN_ID,
        KeyboardSize::K3x11 => false,
    }
}

/// `c` may move between the layers: it is not fixed and not layer-1-only.
pub fn is_inter_layer_movable(c: CharId, kp: KeyboardParams, l1_only: &HashSet<CharId>) -> (r: bool)
    ensures
        r == (!spec_is_fixed(c, kp) && !l1_only@.contains(c)),
{
    broadcast use vstd::std_specs::hash::group_hash_axioms;
    !is_fixed(c, kp) && !l1_only.contains(&c)
}

/// Two groups of kana that must not share a physical key across the layers.
pub struct ExclusivePair {
    pub group_a: HashSet<CharId>,
    pub group_b: HashSet<CharId>,
}

impl ExclusivePair {
    /// A key with `l1_c` on layer 1 and `l2_c` on layer 2 puts one group over
    /// the other, in either direction.
    pub open spec fn spec_violates(&self, l1_c: CharId, l2_c: CharId) -> bool {
        ||| (self.group_a@.contains(l1_c) && self.group_b@.contains(l2_c))
        ||| (self.group_b@.contains(l1_c) && self.group_a@.contains(l2_c))
    }

    pub fn violates(&self, l1_c: CharId, l2_c: CharId) -> (r: bool)
        ensures
            r == self.spec_violates(l1_c, l2_c),
    {
        broadcast use vstd::std_specs::hash::group_hash_axioms;
        (self.group_a.contains(&l1_c) && self.group_b.contains(&l2_c))
            || (self.group_b.contains(&l1_c) && self.group_a.contains(&l2_c))
    }
}

/// Some pair forbids `l1_c` over `l2_c`.
pub open spec fn any_pair_violates(pairs: Seq<ExclusivePair>, l1_c: CharId, l2_c: CharId) -> bool {
    exists|i: int| 0 <= i < pairs.len() && #[trigger] pairs[i].spec_violates(l1_c, l2_c)
}

/// Character on `slot` once `c1` and `c2` are exchanged.
pub open spec fn spec_char_at_slot_after_swap(layout: Layout, c1: CharId, c2: CharId, slot: int) -> CharId {
    let s1 = layout.char_to_slot@[c1 as int] as int;
    let s2 = layout.char_to_slot@[c2 as int] as int;
    if slot == s1 {
        c2
    } else if slot == s2 {
        c1
    } else {
        layout.slot_to_char@[slot]
    }
}

/// The key of layer-1 slot `l1_slot` carries a forbidden pair of characters
/// (void placeholders and empty slots never count).
pub open spec fn key_violates(l1_c: CharId, l2_c: CharId, pairs: Seq<ExclusivePair>) -> bool {
    &&& l1_c < VOID_CHAR_FIRST
    &&& l2_c < VOID_CHAR_FIRST
    &&& any_pair_violates(pairs, l1_c, l2_c)
}

/// Column `l1_slot` violates a pair once `c1` and `c2` are exchanged.
pub open spec fn spec_pair_violates_after_swap(
    layout: Layout,
    c1: CharId,
    c2: CharId,
    l1_slot: int,
    pairs: Seq<ExclusivePair>,
) -> bool {
    let npl = layout.kp.num_slots_per_layer as int;
    key_violates(
        spec_char_at_slot_after_swap(layout, c1, c2, l1_slot),
        spec_char_at_slot_after_swap(layout, c1, c2, l1_slot + npl),
        pairs,
    )
}

/// Layer-1 slot of the key under `s`.
pub open spec fn spec_key_slot(layout: Layout, s: int) -> int {
    let npl = layout.kp.num_slots_per_layer as int;
    if s < npl { s } else { s - npl }
}

/// The exchange of `c1` and `c2` puts a forbidden pair on one of the (at
/// most two) keys it touches.
pub open spec fn spec_swap_would_violate(layout: Layout, c1: CharId, c2: CharId, pairs: Seq<ExclusivePair>) -> bool {
    let k1 = spec_key_slot(layout, layout.char_to_slot@[c1 as int] as int);
    let k2 = spec_key_slot(layout, layout.char_to_slot@[c2 as int] as int);
    ||| spec_pair_violates_after_swap(layout, c1, c2, k1, pairs)
    ||| spec_pair_violates_after_swap(layout, c1, c2, k2, pairs)
}

fn char_at_slot_after_swap(layout: &Layout, c1: CharId, c2: CharId, slot: usize) -> (r: CharId)
    requires
        (c1 as int) < MAX_CHARS,
        (c2 as int) < MAX_CHARS,
        slot < MAX_SLOTS,
    ensures
        r == spec_char_at_slot_after_swap(*layout, c1, c2, slot as int),
{
    let s1 = layout.char_to_slot[c1 as usize] as usize;
    let s2 = layout.char_to_slot[c2 as usize] as usize;
    if slot == s1 {
        c2
    } else if slot == s2 {
        c1
    } else {
        layout.slot_to_char[slot]
    }
}

pub(crate) fn any_violates(pairs: &[ExclusivePair], l1_c: CharId, l2_c: CharId) -> (r: bool)
    ensures
        r == any_pair_violates(pairs@, l1_c, l2_c),
{
    let mut i: usize = 0;
    while i < pairs.len()
        invariant
            0 <= i <= pairs@.len(),
            forall|j: int| 0 <= j < i ==> !(#[trigger] pairs@[j]).spec_violates(l1_c, l2_c),
        decreases pairs@.len() - i,
    {
        if pairs[i].violates(l1_c, l2_c) {
            return true;
        }
        i = i + 1;
    }
    false
}

fn pair_violates_after_swap(
    layout: &Layout,
    c1: CharId,
    c2: CharId,
    l1_slot: usize,
    pairs: &[ExclusivePair],
) -> (r: bool)
    requires
        (c1 as int) < MAX_CHARS,
        (c2 as int) < MAX_CHARS,
        l1_slot + layout.kp.num_slots_per_layer < MAX_SLOTS,
    ensures
        r == spec_pair_violates_after_swap(*layout, c1, c2, l1_slot as int, pairs@),
{
    let npl = layout.kp.num_slots_per_layer as usize;
    let l2_slot = l1_slot + npl;
    let l1_c = char_at_slot_after_swap(layout, c1, c2, l1_slot);
    let l2_c = char_at_slot_after_swap(layout, c1, c2, l2_slot);
    if l1_c >= VOID_CHAR_FIRST || l2_c >= VOID_CHAR_FIRST {
        return false;
    }
    any_violates(pairs, l1_c, l2_c)
}

/// Whether exchanging `c1` and `c2` would put a forbidden pair on one of the
/// keys it touches.
pub fn swap_would_violate(layout: &Layout, c1: CharId, c2: CharId, pairs: &[ExclusivePair]) -> (r: bool)
    requires
        (c1 as int) < MAX_CHARS,
        (c2 as int) < MAX_CHARS,
        2 * layout.kp.num_slots_per_layer <= MAX_SLOTS,
        layout.char_to_slot@[c1 as int] < 2 * layout.kp.num_slots_per_layer,
        layout.char_to_slot@[c2 as int] < 2 * layout.kp.num_slots_per_layer,
    ensures
        r == spec_swap_would_violate(*layout, c1, c2, pairs@),
{
    if pairs.len() == 0 {
        return false;
    }
    let npl = layout.kp.num_slots_per_layer as usize;
    let s1 = layout.char_to_slot[c1 as usize] as usize;
    let s2 = layout.char_to_slot[c2 as usize] as usize;
    let l1_s1 = if s1 < npl { s1 } else { s1 - npl };
    let l1_s2 = if s2 < npl { s2 } else { s2 - npl };
    pair_violates_after_swap(layout, c1, c2, l1_s1, pairs)
        || (l1_s2 != l1_s1 && pair_violates_after_swap(layout, c1, c2, l1_s2, pairs))
}

/// Text shown for one key: the character, `□` for a void placeholder, `?`
/// for an empty slot, and `☆`/`★` for the 3x11 shift keys on layer 1.
pub open spec fn spec_key_glyph(layout: Layout, slot: int, on_layer1: bool) -> char {
    let c = layout.slot_to_char@[slot];
    if on_layer1 && layout.kp.size == KeyboardSize::K3x11 && slot == layout.kp.shift_left as int {
        '☆'
    } else if on_layer1 && layout.kp.size == KeyboardSize::K3x11 && slot == layout.kp.shift_right as int {
        '★'
    } else if c == SHIFT_SLOT_SENTINEL {
        '?'
    } else if c >= VOID_CHAR_FIRST {
        '□'
    } else {
        CHAR_LIST@[c as int]
    }
}

/// One printed row: two spaces, each key followed by a space, a newline.
pub open spec fn spec_row_text(layout: Layout, first_slot: int, on_layer1: bool) -> Seq<char> {
    let nc = layout.kp.num_cols as int;
    seq![' ', ' '] + Seq::new((2 * nc) as nat, |i: int| spec_row_cell(layout, first_slot, on_layer1, i))
        + seq!['\n']
}

/// Character `i` of the keys part of a printed row: keys at even
/// positions, separating spaces at odd ones.
pub open spec fn spec_row_cell(layout: Layout, first_slot: int, on_layer1: bool, i: int) -> char {
    if i % 2 == 0 {
        spec_key_glyph(layout, first_slot + i / 2, on_layer1)
    } else {
        ' '
    }
}

pub open spec fn spec_layer_title(layer: char) -> Seq<char> {
    seq!['【', 'L', 'a', 'y', 'e', 'r', ' ', layer, '】', '\n']
}

/// The printed layout: a title and three rows for each layer.
pub open spec fn spec_display(layout: Layout) -> Seq<char> {
    let nc = layout.kp.num_cols as int;
    let npl = layout.kp.num_slots_per_layer as int;
    spec_layer_title('1') + spec_row_text(layout, 0, true) + spec_row_text(layout, nc, true)
        + spec_row_text(layout, 2 * nc, true) + spec_layer_title('2') + spec_row_text(
        layout,
        npl,
        false,
    ) + spec_row_text(layout, npl + nc, false) + spec_row_text(layout, npl + 2 * nc, false)
}

impl Layout {
    fn key_glyph(&self, slot: usize, on_layer1: bool) -> (g: char)
        requires
            slot < MAX_SLOTS,
        ensures
            g == spec_key_glyph(*self, slot as int, on_layer1),
    {
        let c = self.slot_to_char[slot];
        if on_layer1 && self.kp.size == KeyboardSize::K3x11 && slot == self.kp.shift_left as usize {
            '☆'
        } else if on_layer1 && self.kp.size == KeyboardSize::K3x11 && slot == self.kp.shift_right as usize {
            '★'
        } else if c == SHIFT_SLOT_SENTINEL {
            '?'
        } else if c >= VOID_CHAR_FIRST {
            '□'
        } else {
            CHAR_LIST[c as usize]
        }
    }

    fn push_row(&self, out: &mut Vec<char>, first_slot: usize, on_layer1: bool)
        requires
            first_slot + self.kp.num_cols <= MAX_SLOTS,
        ensures
            final(out)@ == old(out)@ + spec_row_text(*self, first_slot as int, on_layer1),
    {
        let ghost start = out@;
        let nc = self.kp.num_cols as usize;
        out.push(' ');
        out.push(' ');
        let mut col: usize = 0;
        while col < nc
            invariant
                0 <= col <= nc,
                nc == self.kp.num_cols,
                first_slot + nc <= MAX_SLOTS,
                out@ == start + seq![' ', ' '] + Seq::new(
                    (2 * col) as nat,
                    |i: int| spec_row_cell(*self, first_slot as int, on_layer1, i),
                ),
            decreases nc - col,
        {
            let g = self.key_glyph(first_slot + col, on_layer1);
            out.push(g);
            out.push(' ');
            proof {
                let k = 2 * col as int;
                assert(k % 2 == 0 && k / 2 == col as int);
                assert((k + 1) % 2 == 1);
                assert(spec_row_cell(*self, first_slot as int, on_layer1, k) == g);
                assert(spec_row_cell(*self, first_slot as int, on_layer1, k + 1) == ' ');
                assert(Seq::new(
                    (2 * (col + 1)) as nat,
                    |i: int| spec_row_cell(*self, first_slot as int, on_layer1, i),
                ) =~= Seq::new(
                    (2 * col) as nat,
                    |i: int| spec_row_cell(*self, first_slot as int, on_layer1, i),
                ).push(g).push(' '));
            }
            col = col + 1;
        }
        out.push('\n');
        assert(out@ =~= start + spec_row_text(*self, first_slot as int, on_layer1));
    }

    fn push_title(out: &mut Vec<char>, layer: char)
        ensures
            final(out)@ == old(out)@ + spec_layer_title(layer),
    {
        let ghost start = out@;
        out.push('【');
        out.push('L');
        out.push('a');
        out.push('y');
        out.push('e');
        out.push('r');
        out.push(' ');
        out.push(layer);
        out.push('】');
        out.push('\n');
        assert(out@ =~= start + spec_layer_title(layer));
    }

    /// The layout as text: for each layer a title and its three rows.
    pub fn display(&self) -> (text: String)
        requires
            3 * self.kp.num_cols <= self.kp.num_slots_per_layer,
            self.kp.num_slots_per_layer + 3 * self.kp.num_cols <= MAX_SLOTS,
        ensures
            text@ == spec_display(*self),
    {
        let nc = self.kp.num_cols as usize;
        let npl = self.kp.num_slots_per_layer as usize;
        let mut out: Vec<char> = Vec::new();
        Self::push_title(&mut out, '1');
        self.push_row(&mut out, 0, true);
        self.push_row(&mut out, nc, true);
        self.push_row(&mut out, 2 * nc, true);
        Self::push_title(&mut out, '2');
        self.push_row(&mut out, npl, false);
        self.push_row(&mut out, npl + nc, false);
        self.push_row(&mut out, npl + 2 * nc, false);
        assert(out@ =~= spec_display(*self));
        string_from_chars(&out)
    }
}

/// Some key of the layout carries a forbidden pair.
pub open spec fn layout_violates(layout: Layout, pairs: Seq<ExclusivePair>) -> bool {
    let npl = layout.kp.num_slots_per_layer as int;
    exists|k: int|
        0 <= k < npl && #[trigger] key_violates(
            layout.slot_to_char@[k],
            layout.slot_to_char@[k + npl],
            pairs,
        )
}

/// Exchanging two characters of a well-formed layout keeps it well formed:
/// every character still has exactly one slot and the shift keys stay empty.
pub proof fn lemma_swap_preserves_wf(before: Layout, after: Layout, c1: CharId, c2: CharId)
    requires
        before.wf(),
        (c1 as int) < before.kp.num_chars,
        (c2 as int) < before.kp.num_chars,
        after.is_swap_of(before, c1, c2),
    ensures
        after.wf(),
{
    let s1 = before.char_to_slot@[c1 as int] as int;
    let s2 = before.char_to_slot@[c2 as int] as int;
    assert(before.slot_to_char@[s1] == c1);
    assert(before.slot_to_char@[s2] == c2);
    assert forall|c: int| 0 <= c < after.kp.num_chars implies {
        &&& (#[trigger] after.char_to_slot@[c] as int) < after.kp.num_slots
        &&& after.slot_to_char@[after.char_to_slot@[c] as int] == c
    } by {
        assert(before.slot_to_char@[before.char_to_slot@[c] as int] == c);
    }
    assert forall|s: int| 0 <= s < after.kp.num_slots implies {
        ||| #[trigger] after.slot_to_char@[s] == SHIFT_SLOT_SENTINEL
        ||| {
            &&& (after.slot_to_char@[s] as int) < after.kp.num_chars
            &&& after.char_to_slot@[after.slot_to_char@[s] as int] == s
        }
    } by {
        if s != s1 && s != s2 && before.slot_to_char@[s] != SHIFT_SLOT_SENTINEL {
            let c = before.slot_to_char@[s] as int;
            assert(before.char_to_slot@[c] == s);
        }
    }
    if before.kp.size == KeyboardSize::K3x11 {
        assert(before.kp == spec_k3x11());
        assert(s1 != 13 && s1 != 18);
        assert(s2 != 13 && s2 != 18);
    }
}

/// Exchanging the same two characters twice gives back the layout.
pub proof fn lemma_swap_is_involution(l0: Layout, l1: Layout, l2: Layout, c1: CharId, c2: CharId)
    requires
        l0.wf(),
        (c1 as int) < l0.kp.num_chars,
        (c2 as int) < l0.kp.num_chars,
        l1.is_swap_of(l0, c1, c2),
        l2.is_swap_of(l1, c1, c2),
    ensures
        l2 == l0,
{
    let s1 = l0.char_to_slot@[c1 as int] as int;
    let s2 = l0.char_to_slot@[c2 as int] as int;
    assert(l0.slot_to_char@[s1] == c1);
    assert(l0.slot_to_char@[s2] == c2);
    assert(l2.char_to_slot@ =~= l0.char_to_slot@);
    assert(l2.slot_to_char@ =~= l0.slot_to_char@);
    assert(l2.char_to_slot =~= l0.char_to_slot);
    assert(l2.slot_to_char =~= l0.slot_to_char);
}

/// The slot that `slot_after_swap` predicts is the slot the character has
/// once the exchange is made.
pub proof fn lemma_slot_after_swap_agrees(before: Layout, after: Layout, c1: CharId, c2: CharId, c: CharId)
    requires
        (c1 as int) < MAX_CHARS,
        (c2 as int) < MAX_CHARS,
        (c as int) < MAX_CHARS,
        after.is_swap_of(before, c1, c2),
    ensures
        after.char_to_slot@[c as int] == spec_slot_after_swap(before, c1, c2, c),
{
}

/// The character that the violation check predicts on a slot is the one
/// the slot holds once the exchange is made, on any layout where each
/// character's slot is on the board and holds that character.
pub proof fn lemma_char_at_slot_after_swap_agrees(
    before: Layout,
    after: Layout,
    c1: CharId,
    c2: CharId,
    slot: int,
)
    requires
        forall|c: int|
            0 <= c < before.kp.num_chars ==> (#[trigger] before.char_to_slot@[c] as int) < before.kp.num_slots
                && before.slot_to_char@[before.char_to_slot@[c] as int] == c,
        before.kp.num_slots <= MAX_SLOTS,
        (c1 as int) < before.kp.num_chars,
        (c2 as int) < before.kp.num_chars,
        0 <= slot < MAX_SLOTS,
        after.is_swap_of(before, c1, c2),
    ensures
        after.slot_to_char@[slot] == spec_char_at_slot_after_swap(before, c1, c2, slot),
{
    let s1 = before.char_to_slot@[c1 as int] as int;
    let s2 = before.char_to_slot@[c2 as int] as int;
    assert(before.slot_to_char@[s1] == c1);
    assert(before.slot_to_char@[s2] == c2);
}

/// On a layout without forbidden pairs, `swap_would_violate` answers
/// exactly whether the layout after the exchange has a forbidden pair on
/// any key: the keys it does not inspect are untouched by the exchange.
pub proof fn lemma_swap_would_violate_exact(
    before: Layout,
    after: Layout,
    c1: CharId,
    c2: CharId,
    pairs: Seq<ExclusivePair>,
)
    requires
        before.wf(),
        (c1 as int) < before.kp.num_chars,
        (c2 as int) < before.kp.num_chars,
        after.is_swap_of(before, c1, c2),
        !layout_violates(before, pairs),
    ensures
        spec_swap_would_violate(before, c1, c2, pairs) == layout_violates(after, pairs),
{
    let npl = before.kp.num_slots_per_layer as int;
    let s1 = before.char_to_slot@[c1 as int] as int;
    let s2 = before.char_to_slot@[c2 as int] as int;
    let k1 = spec_key_slot(before, s1);
    let k2 = spec_key_slot(before, s2);
    assert(before.slot_to_char@[s1] == c1);
    assert(before.slot_to_char@[s2] == c2);
    assert(before.kp == spec_k3x10() || before.kp == spec_k3x11());
    assert forall|t: int| 0 <= t < MAX_SLOTS implies #[trigger] after.slot_to_char@[t]
        == spec_char_at_slot_after_swap(before, c1, c2, t) by {
        lemma_char_at_slot_after_swap_agrees(before, after, c1, c2, t);
    }
    if spec_swap_would_violate(before, c1, c2, pairs) {
        if spec_pair_violates_after_swap(before, c1, c2, k1, pairs) {
            assert(key_violates(after.slot_to_char@[k1], after.slot_to_char@[k1 + npl], pairs));
        } else {
            assert(key_violates(after.slot_to_char@[k2], after.slot_to_char@[k2 + npl], pairs));
        }
    }
    if layout_violates(after, pairs) {
        let k = choose|k: int|
            0 <= k < npl && #[trigger] key_violates(
                after.slot_to_char@[k],
                after.slot_to_char@[k + npl],
                pairs,
            );
        if k != k1 && k != k2 {
            assert(k != s1 && k + npl != s1);
            assert(k != s2 && k + npl != s2);
            assert(after.slot_to_char@[k] == before.slot_to_char@[k]);
            assert(after.slot_to_char@[k + npl] == before.slot_to_char@[k + npl]);
            assert(key_violates(before.slot_to_char@[k], before.slot_to_char@[k + npl], pairs));
            assert(false);
        }
    }
}

/// A pair constraint forbids the same placements in both directions.
pub proof fn lemma_violates_symmetric(p: ExclusivePair, a: CharId, b: CharId)
    ensures
        p.spec_violates(a, b) == p.spec_violates(b, a),
{
}

/// A pair constraint is broken only by one character of each group on one
/// key (group A over group B or group B over A): two characters that belong
/// only to group A, or only to group B, never break it.
pub proof fn lemma_violates_needs_both_groups(p: ExclusivePair, a: CharId, b: CharId)
    ensures
        p.spec_violates(a, b) <==> (p.group_a@.contains(a) && p.group_b@.contains(b)) || (p.group_b@.contains(a)
            && p.group_a@.contains(b)),
        !p.group_b@.contains(a) && !p.group_b@.contains(b) ==> !p.spec_violates(a, b),
        !p.group_a@.contains(a) && !p.group_a@.contains(b) ==> !p.spec_violates(a, b),
{
}

/// On both boards, the shift key pressed for a layer-2 character is on the
/// other hand than the character's own key.
pub proof fn lemma_layer2_shift_on_other_hand(slot: SlotId, kp: KeyboardParams)
    requires
        kp.is_valid(),
        kp.num_slots_per_layer <= slot < kp.num_slots,
    ensures
        spec_keystrokes(slot, kp).len() == 2,
        spec_slot_hand(spec_keystrokes(slot, kp)[0], kp.num_cols) != spec_slot_hand(
            spec_keystrokes(slot, kp)[1],
            kp.num_cols,
        ),
{
    if kp == spec_k3x10() {
        assert((17u8 % 10u8) == 7u8);
        assert((12u8 % 10u8) == 2u8);
    } else {
        assert((18u8 % 11u8) == 7u8);
        assert((13u8 % 11u8) == 2u8);
    }
}

} // verus!
