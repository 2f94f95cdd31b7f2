use vstd::prelude::*;
use vstd::relations::injective_on;
use vstd::set_lib::{lemma_int_range, lemma_map_size, lemma_subset_equality, set_int_range};

use crate::chars::{build_char_to_id, spec_char_id, is_first_char_index, CharId, CharMap, CHAR_LIST, MAX_CHARS, VOID_CHAR_FIRST};
use crate::layout::{
    spec_k3x10, spec_k3x11, KeyboardParams, KeyboardSize, Layout, SlotId, MAX_SLOTS, SHIFT_SLOT_SENTINEL,
};

verus! {

/// Glyph that marks an empty key position in a user layout definition.
pub const VOID_GLYPH: char = '□';

/// Contents of an initial-layout file: one optional definition per board.
pub struct UserLayoutFile {
    pub layout_3x10: Option<UserLayoutDef>,
    pub layout_3x10_single_shift: Option<UserLayoutDef>,
    pub layout_3x11: Option<UserLayoutDef>,
}

/// One layout definition: three rows per layer, one character per key.
/// On the 3x11 board, the layer-1 positions of the shift keys hold any
/// placeholder.
pub struct UserLayoutDef {
    pub layer1: Vec<String>,
    pub layer2: Vec<String>,
}

/// `r` is a reference to the content of `field`.
pub open spec fn refers_to(r: Option<&UserLayoutDef>, field: Option<UserLayoutDef>) -> bool {
    &&& (r is Some <==> field is Some)
    &&& r is Some ==> *r->0 == field->0
}

impl UserLayoutFile {
    /// The definition for the board of `kp`.
    pub fn get_def(&self, kp: KeyboardParams) -> (r: Option<&UserLayoutDef>)
        ensures
            kp.size == KeyboardSize::K3x10 ==> refers_to(r, self.layout_3x10),
            kp.size == KeyboardSize::K3x11 ==> refers_to(r, self.layout_3x11),
    {
        match kp.size {
            KeyboardSize::K3x10 => self.layout_3x10.as_ref(),
            KeyboardSize::K3x11 => self.layout_3x11.as_ref(),
        }
    }
}

/// Why a layout definition was refused. `layer` is 1 or 2; `row` and `col`
/// count from 0 within that layer.
#[derive(Debug, PartialEq, Eq)]
pub enum UserLayoutError {
    /// A layer does not have exactly three rows.
    RowCount { layer: usize, rows: usize },
    /// A row does not have one character per column.
    RowLength { layer: usize, row: usize, expected: usize, actual: usize, line: String },
    /// More void glyphs than there are void ids.
    TooManyVoids { layer: usize, row: usize, col: usize },
    /// A character that is not part of the layout.
    UnknownChar { ch: char, layer: usize, row: usize, col: usize },
    /// A character placed a second time.
    DuplicateChar { ch: char, layer: usize, row: usize, col: usize },
    /// A character of the board that the definition does not place.
    Unplaced { char_id: usize },
    /// A character placed beyond the board's slots.
    SlotOutOfRange { char_id: usize, slot: SlotId },
    /// Two characters on one slot.
    SlotShared { slot: SlotId },
}

/// Rows of both layers, layer 1 first.
pub open spec fn grid_rows(def: UserLayoutDef) -> Seq<Seq<char>> {
    def.layer1@.map_values(|s: String| s@) + def.layer2@.map_values(|s: String| s@)
}

/// The first `k` rows, concatenated: the characters of slots `0 .. k * columns`.
pub open spec fn flat_rows(rows: Seq<Seq<char>>, k: int) -> Seq<char>
    decreases k,
{
    if k <= 0 {
        Seq::empty()
    } else {
        flat_rows(rows, k - 1) + rows[k - 1]
    }
}

pub open spec fn rows_have_len(rows: Seq<Seq<char>>, k: int, nc: int) -> bool {
    forall|r: int| 0 <= r < k ==> (#[trigger] rows[r]).len() == nc
}

/// Slot `t` is a shift key of the 3x11 board (it takes no character).
pub open spec fn is_shift_slot(kp: KeyboardParams, t: int) -> bool {
    kp.size == KeyboardSize::K3x11 && (t == kp.shift_left as int || t == kp.shift_right as int)
}

/// Number of void glyphs on character slots in `s`.
pub open spec fn void_count(kp: KeyboardParams, s: Seq<char>) -> nat
    decreases s.len(),
{
    if s.len() == 0 {
        0
    } else {
        void_count(kp, s.drop_last()) + if !is_shift_slot(kp, s.len() - 1) && s.last() == VOID_GLYPH {
            1nat
        } else {
            0nat
        }
    }
}

/// `ch` already stands on a character slot of `s`.
pub open spec fn named_before(kp: KeyboardParams, s: Seq<char>, ch: char) -> bool {
    exists|t: int| 0 <= t < s.len() && !is_shift_slot(kp, t) && s[t] == ch
}

/// Character `x`, following the slots `pre`, is acceptable: it is on a
/// shift key, or a void glyph while void ids remain, or a named character
/// not placed before.
pub open spec fn cell_ok(kp: KeyboardParams, pre: Seq<char>, x: char) -> bool {
    ||| is_shift_slot(kp, pre.len() as int)
    ||| (x == VOID_GLYPH && void_count(kp, pre) < 2)
    ||| (x != VOID_GLYPH && spec_char_id(x) is Some && !named_before(kp, pre, x))
}

pub open spec fn cells_ok(kp: KeyboardParams, s: Seq<char>) -> bool {
    forall|t: int| 0 <= t < s.len() ==> #[trigger] cell_ok(kp, s.take(t), s[t])
}

/// Id given to the character on slot `t`: a named character's own id, or
/// the next void id for a void glyph.
pub open spec fn cell_id(kp: KeyboardParams, s: Seq<char>, t: int) -> CharId {
    if s[t] == VOID_GLYPH {
        (VOID_CHAR_FIRST + void_count(kp, s.take(t))) as CharId
    } else {
        spec_char_id(s[t])->0
    }
}

/// Id `c` is given to some character slot of `s`.
pub open spec fn id_placed(kp: KeyboardParams, s: Seq<char>, c: int) -> bool {
    exists|t: int| 0 <= t < s.len() && !is_shift_slot(kp, t) && cell_id(kp, s, t) == c
}

pub open spec fn row_counts_ok(def: UserLayoutDef) -> bool {
    def.layer1.len() == 3 && def.layer2.len() == 3
}

/// All slots of the definition, in slot order.
pub open spec fn all_cells(def: UserLayoutDef) -> Seq<char> {
    flat_rows(grid_rows(def), 6)
}

/// The definition is accepted: three rows per layer, one character per
/// column, every character acceptable, every character of the board placed.
pub open spec fn def_valid(kp: KeyboardParams, def: UserLayoutDef) -> bool {
    &&& row_counts_ok(def)
    &&& rows_have_len(grid_rows(def), 6, kp.num_cols as int)
    &&& cells_ok(kp, all_cells(def))
    &&& forall|c: int| 0 <= c < kp.num_chars ==> #[trigger] id_placed(kp, all_cells(def), c)
}

/// Row `g` (0-5 over both layers) is the first problem: it has the wrong
/// length, and everything before it is acceptable.
pub open spec fn row_fails(kp: KeyboardParams, def: UserLayoutDef, g: int) -> bool {
    &&& row_counts_ok(def)
    &&& 0 <= g < 6
    &&& rows_have_len(grid_rows(def), g, kp.num_cols as int)
    &&& cells_ok(kp, flat_rows(grid_rows(def), g))
    &&& grid_rows(def)[g].len() != kp.num_cols
}

/// Column `col` of row `g` is the first problem: all rows up to `g` have
/// the right length, every earlier slot is acceptable and this one is not.
pub open spec fn cell_fails(kp: KeyboardParams, def: UserLayoutDef, g: int, col: int) -> bool {
    let pre = flat_rows(grid_rows(def), g) + grid_rows(def)[g].take(col);
    &&& row_counts_ok(def)
    &&& 0 <= g < 6
    &&& 0 <= col < kp.num_cols
    &&& rows_have_len(grid_rows(def), g + 1, kp.num_cols as int)
    &&& cells_ok(kp, pre)
    &&& !cell_ok(kp, pre, grid_rows(def)[g][col])
}

/// Row `g` over both layers of `layer`'s row `row`.
pub open spec fn global_row(layer: usize, row: usize) -> int {
    (layer as int - 1) * 3 + row as int
}

/// The error `e` is the one a scan in slot order meets first.
pub open spec fn error_matches(kp: KeyboardParams, def: UserLayoutDef, e: UserLayoutError) -> bool {
    match e {
        UserLayoutError::RowCount { layer, rows } => {
            ||| (layer == 1 && def.layer1.len() != 3 && rows == def.layer1.len())
            ||| (layer == 2 && def.layer1.len() == 3 && def.layer2.len() != 3 && rows == def.layer2.len())
        },
        UserLayoutError::RowLength { layer, row, expected, actual, line } => {
            &&& (layer == 1 || layer == 2)
            &&& row < 3
            &&& row_fails(kp, def, global_row(layer, row))
            &&& expected == kp.num_cols
            &&& actual == grid_rows(def)[global_row(layer, row)].len()
            &&& line@ == grid_rows(def)[global_row(layer, row)]
        },
        UserLayoutError::TooManyVoids { layer, row, col } => {
            &&& (layer == 1 || layer == 2)
            &&& row < 3
            &&& cell_fails(kp, def, global_row(layer, row), col as int)
            &&& grid_rows(def)[global_row(layer, row)][col as int] == VOID_GLYPH
        },
        UserLayoutError::UnknownChar { ch, layer, row, col } => {
            &&& (layer == 1 || layer == 2)
            &&& row < 3
            &&& cell_fails(kp, def, global_row(layer, row), col as int)
            &&& grid_rows(def)[global_row(layer, row)][col as int] == ch
            &&& ch != VOID_GLYPH
            &&& spec_char_id(ch) is None
        },
        UserLayoutError::DuplicateChar { ch, layer, row, col } => {
            &&& (layer == 1 || layer == 2)
            &&& row < 3
            &&& cell_fails(kp, def, global_row(layer, row), col as int)
            &&& grid_rows(def)[global_row(layer, row)][col as int] == ch
            &&& ch != VOID_GLYPH
            &&& spec_char_id(ch) is Some
        },
        UserLayoutError::Unplaced { char_id } => {
            &&& row_counts_ok(def)
            &&& rows_have_len(grid_rows(def), 6, kp.num_cols as int)
            &&& cells_ok(kp, all_cells(def))
            &&& char_id < kp.num_chars
            &&& !id_placed(kp, all_cells(def), char_id as int)
            &&& forall|c: int| 0 <= c < char_id ==> #[trigger] id_placed(kp, all_cells(def), c)
        },
        UserLayoutError::SlotOutOfRange { .. } => false,
        UserLayoutError::SlotShared { .. } => false,
    }
}

/// Scan state after the slots `s`: the tables hold exactly the ids given so
/// far, and `void_next` is the next void id.
pub open spec fn scan_state(kp: KeyboardParams, s: Seq<char>, cts: Seq<u8>, stc: Seq<u8>, void_next: u8) -> bool {
    &&& cts.len() == MAX_CHARS
    &&& stc.len() == MAX_SLOTS
    &&& s.len() <= MAX_SLOTS
    &&& cells_ok(kp, s)
    &&& void_next == VOID_CHAR_FIRST + void_count(kp, s)
    &&& forall|t: int|
        0 <= t < MAX_SLOTS ==> #[trigger] stc[t] == if t < s.len() && !is_shift_slot(kp, t) {
            cell_id(kp, s, t)
        } else {
            SHIFT_SLOT_SENTINEL
        }
    &&& forall|t: int|
        0 <= t < s.len() && !is_shift_slot(kp, t) ==> {
            &&& (#[trigger] cell_id(kp, s, t) as int) < MAX_CHARS
            &&& cts[cell_id(kp, s, t) as int] == t
            &&& (s[t] == VOID_GLYPH ==> cell_id(kp, s, t) < void_next)
            &&& (s[t] != VOID_GLYPH ==> cell_id(kp, s, t) < VOID_CHAR_FIRST)
        }
    &&& forall|c: int| 0 <= c < MAX_CHARS ==> (#[trigger] cts[c] == 255 <==> !id_placed(kp, s, c))
}

proof fn lemma_void_count_push(kp: KeyboardParams, s: Seq<char>, x: char)
    ensures
        void_count(kp, s.push(x)) == void_count(kp, s) + if !is_shift_slot(kp, s.len() as int) && x == VOID_GLYPH {
            1nat
        } else {
            0nat
        },
{
    assert(s.push(x).drop_last() =~= s);
}

proof fn lemma_cells_ok_push(kp: KeyboardParams, s: Seq<char>, x: char)
    requires
        cells_ok(kp, s),
        cell_ok(kp, s, x),
    ensures
        cells_ok(kp, s.push(x)),
{
    let s2 = s.push(x);
    assert forall|t: int| 0 <= t < s2.len() implies #[trigger] cell_ok(kp, s2.take(t), s2[t]) by {
        if t < s.len() {
            assert(s2.take(t) =~= s.take(t));
        } else {
            assert(s2.take(t) =~= s);
        }
    }
}

proof fn lemma_cell_id_push(kp: KeyboardParams, s: Seq<char>, x: char, t: int)
    requires
        0 <= t < s.len(),
    ensures
        cell_id(kp, s.push(x), t) == cell_id(kp, s, t),
{
    assert(s.push(x).take(t) =~= s.take(t));
}

proof fn lemma_char_id_injective(a: char, b: char)
    requires
        spec_char_id(a) is Some,
        spec_char_id(a) == spec_char_id(b),
    ensures
        a == b,
        (spec_char_id(a)->0 as int) < VOID_CHAR_FIRST,
{
    let i = choose|i: int| is_first_char_index(a, i);
    let k = choose|k: int| is_first_char_index(b, k);
    assert(i as CharId == k as CharId);
}

/// The tables hold exactly the cells `s` read so far, and `slot` is the
/// next character slot.
pub open spec fn scan_ready(kp: KeyboardParams, s: Seq<char>, cts: Seq<u8>, stc: Seq<u8>, vn: u8, slot: SlotId) -> bool {
    &&& scan_state(kp, s, cts, stc, vn)
    &&& slot as int == s.len()
    &&& !is_shift_slot(kp, slot as int)
}

/// Places character `c` on `slot`: a void glyph takes the next void id, a
/// named character its own id when not placed yet; anything else is refused
/// and leaves the tables as they are. On tables that hold exactly the cells
/// `s` read so far, the result is the scan state of `s` and `c`.
#[verifier::rlimit(30)]
fn assign_char(
    c: char,
    slot: SlotId,
    char_map: &CharMap,
    cts: &mut [u8; MAX_CHARS],
    stc: &mut [CharId; MAX_SLOTS],
    void_next: &mut CharId,
    row: usize,
    col: usize,
    layer: usize,
    Ghost(kp): Ghost<KeyboardParams>,
    Ghost(s): Ghost<Seq<char>>,
) -> (r: Result<(), UserLayoutError>)
    requires
        (slot as int) < MAX_SLOTS,
    ensures
        scan_ready(kp, s, old(cts)@, old(stc)@, *old(void_next), slot) && r is Ok ==> cell_ok(kp, s, c) && scan_state(
            kp,
            s.push(c),
            final(cts)@,
            final(stc)@,
            *final(void_next),
        ),
        scan_ready(kp, s, old(cts)@, old(stc)@, *old(void_next), slot) && r is Err ==> !cell_ok(kp, s, c),
        r is Err ==> *final(cts) == *old(cts) && *final(stc) == *old(stc) && *final(void_next) == *old(void_next),
        c == VOID_GLYPH ==> {
            &&& (r is Ok <==> (*old(void_next) as int) < MAX_CHARS)
            &&& r is Ok ==> {
                &&& final(cts)@ == old(cts)@.update(*old(void_next) as int, slot)
                &&& final(stc)@ == old(stc)@.update(slot as int, *old(void_next))
                &&& *final(void_next) == *old(void_next) + 1
            }
        },
        c != VOID_GLYPH ==> {
            &&& (r is Ok <==> (spec_char_id(c) is Some && old(cts)@[spec_char_id(c)->0 as int] == 255))
            &&& r is Ok ==> {
                &&& final(cts)@ == old(cts)@.update(spec_char_id(c)->0 as int, slot)
                &&& final(stc)@ == old(stc)@.update(slot as int, spec_char_id(c)->0)
                &&& *final(void_next) == *old(void_next)
            }
        },
        r matches Err(e) ==> match e {
            UserLayoutError::TooManyVoids { layer: l, row: rr, col: cc } => l == layer && rr == row && cc == col && c == VOID_GLYPH,
            UserLayoutError::UnknownChar { ch, layer: l, row: rr, col: cc } => l == layer && rr == row && cc == col && ch == c && c != VOID_GLYPH && spec_char_id(c) is None,
            UserLayoutError::DuplicateChar { ch, layer: l, row: rr, col: cc } => l == layer && rr == row && cc == col && ch == c && c != VOID_GLYPH && spec_char_id(c) is Some,
            _ => false,
        },
{
    let ghost pre = scan_ready(kp, s, cts@, stc@, *void_next, slot);
    let ghost s2 = s.push(c);
    let ghost t = slot as int;
    proof {
        if pre {
        lemma_void_count_push(kp, s, c);
        assert(s2.take(t) =~= s);
        assert forall|u: int| 0 <= u < s.len() implies #[trigger] cell_id(kp, s2, u) == cell_id(kp, s, u) by {
            lemma_cell_id_push(kp, s, c, u);
        }
    }
    }
    if c == VOID_GLYPH {
        if *void_next as usize >= MAX_CHARS {
            return Err(UserLayoutError::TooManyVoids { layer, row, col });
        }
        let id = *void_next;
        proof {
        if pre {
            assert(cell_id(kp, s2, t) == id);
            assert(!id_placed(kp, s, id as int)) by {
                if id_placed(kp, s, id as int) {
                    let u = choose|u: int| 0 <= u < s.len() && !is_shift_slot(kp, u) && cell_id(kp, s, u) == id;
                    assert(cell_id(kp, s, u) < *old(void_next) || cell_id(kp, s, u) < VOID_CHAR_FIRST);
                }
            }
        }
    }
        cts[id as usize] = slot;
        stc[slot as usize] = id;
        *void_next = id + 1;
        proof {
        if pre {
            lemma_cells_ok_push(kp, s, c);
            assert forall|k: int| 0 <= k < MAX_CHARS implies (#[trigger] cts@[k] == 255 <==> !id_placed(kp, s2, k)) by {
                if id_placed(kp, s, k) {
                    let u = choose|u: int| 0 <= u < s.len() && !is_shift_slot(kp, u) && cell_id(kp, s, u) == k;
                    assert(cell_id(kp, s2, u) == k);
                }
                if id_placed(kp, s2, k) && k != id {
                    let u = choose|u: int| 0 <= u < s2.len() && !is_shift_slot(kp, u) && cell_id(kp, s2, u) == k;
                    assert(u < s.len());
                    assert(cell_id(kp, s, u) == k);
                }
                if k == id {
                    assert(cell_id(kp, s2, t) == k);
                }
            }
        }
    }
        return Ok(());
    }
    let char_id = match char_map.get(c) {
        Some(id) => id,
        None => {
            return Err(UserLayoutError::UnknownChar { ch: c, layer, row, col });
        },
    };
    proof {
        if pre {
        lemma_char_id_injective(c, c);
        assert(cell_id(kp, s2, t) == char_id);
    }
    }
    if cts[char_id as usize] != 255 {
        proof {
        if pre {
            let u = choose|u: int| 0 <= u < s.len() && !is_shift_slot(kp, u) && cell_id(kp, s, u) == char_id;
            assert(cell_ok(kp, s.take(u), s[u]));
            assert(s[u] != VOID_GLYPH);
            lemma_char_id_injective(c, s[u]);
            assert(named_before(kp, s, c));
        }
    }
        return Err(UserLayoutError::DuplicateChar { ch: c, layer, row, col });
    }
    proof {
        if pre {
        assert(!named_before(kp, s, c)) by {
            if named_before(kp, s, c) {
                let u = choose|u: int| 0 <= u < s.len() && !is_shift_slot(kp, u) && s[u] == c;
                assert(cell_id(kp, s, u) == char_id);
                assert(id_placed(kp, s, char_id as int));
            }
        }
    }
    }
    cts[char_id as usize] = slot;
    stc[slot as usize] = char_id;
    proof {
        if pre {
        lemma_cells_ok_push(kp, s, c);
        assert forall|k: int| 0 <= k < MAX_CHARS implies (#[trigger] cts@[k] == 255 <==> !id_placed(kp, s2, k)) by {
            if id_placed(kp, s, k) {
                let u = choose|u: int| 0 <= u < s.len() && !is_shift_slot(kp, u) && cell_id(kp, s, u) == k;
                assert(cell_id(kp, s2, u) == k);
            }
            if id_placed(kp, s2, k) && k != char_id {
                let u = choose|u: int| 0 <= u < s2.len() && !is_shift_slot(kp, u) && cell_id(kp, s2, u) == k;
                assert(u < s.len());
                assert(cell_id(kp, s, u) == k);
            }
            if k == char_id {
                assert(cell_id(kp, s2, t) == k);
            }
        }
    }
    }
    Ok(())
}

proof fn lemma_scan_state_shift(kp: KeyboardParams, s: Seq<char>, x: char, cts: Seq<u8>, stc: Seq<u8>, vn: u8)
    requires
        scan_state(kp, s, cts, stc, vn),
        is_shift_slot(kp, s.len() as int),
        s.len() < MAX_SLOTS,
    ensures
        scan_state(kp, s.push(x), cts, stc, vn),
{
    let s2 = s.push(x);
    lemma_void_count_push(kp, s, x);
    lemma_cells_ok_push(kp, s, x);
    assert forall|u: int| 0 <= u < s.len() implies #[trigger] cell_id(kp, s2, u) == cell_id(kp, s, u) by {
        lemma_cell_id_push(kp, s, x, u);
    }
    assert forall|k: int| 0 <= k < MAX_CHARS implies (#[trigger] cts[k] == 255 <==> !id_placed(kp, s2, k)) by {
        if id_placed(kp, s, k) {
            let u = choose|u: int| 0 <= u < s.len() && !is_shift_slot(kp, u) && cell_id(kp, s, u) == k;
            assert(cell_id(kp, s2, u) == k);
        }
        if id_placed(kp, s2, k) {
            let u = choose|u: int| 0 <= u < s2.len() && !is_shift_slot(kp, u) && cell_id(kp, s2, u) == k;
            assert(u < s.len());
            assert(cell_id(kp, s, u) == k);
        }
    }
}

proof fn lemma_flat_rows_prefix(rows: Seq<Seq<char>>, k: int, m: int)
    requires
        0 <= k <= m,
    ensures
        flat_rows(rows, k) == flat_rows(rows, m).take(flat_rows(rows, k).len() as int),
        flat_rows(rows, k).len() <= flat_rows(rows, m).len(),
    decreases m - k,
{
    if k < m {
        lemma_flat_rows_prefix(rows, k, m - 1);
        assert(flat_rows(rows, m) == flat_rows(rows, m - 1) + rows[m - 1]);
        assert(flat_rows(rows, m - 1) =~= flat_rows(rows, m).take(flat_rows(rows, m - 1).len() as int));
        assert(flat_rows(rows, k) =~= flat_rows(rows, m).take(flat_rows(rows, k).len() as int));
    } else {
        assert(flat_rows(rows, k) =~= flat_rows(rows, m).take(flat_rows(rows, k).len() as int));
    }
}

/// Some `i` in `0..n` has `f(i) == t`.
spec fn hits(f: spec_fn(int) -> int, n: int, t: int) -> bool {
    exists|i: int| 0 <= i < n && #[trigger] f(i) == t
}

/// An injective map from `0..n` into `0..n` reaches every value.
proof fn lemma_injection_is_onto(n: int, f: spec_fn(int) -> int)
    requires
        0 <= n,
        forall|i: int| 0 <= i < n ==> 0 <= #[trigger] f(i) < n,
        forall|i: int, j: int| 0 <= i < n && 0 <= j < n && #[trigger] f(i) == #[trigger] f(j) ==> i == j,
    ensures
        forall|t: int| 0 <= t < n ==> #[trigger] hits(f, n, t),
{
    let x = set_int_range(0, n);
    let y = x.map(f);
    lemma_int_range(0, n);
    assert(injective_on(f, x));
    lemma_map_size(x, y, f);
    assert(y.subset_of(x));
    lemma_subset_equality(y, x);
    assert forall|t: int| 0 <= t < n implies #[trigger] hits(f, n, t) by {
        assert(x.contains(t));
        assert(y.contains(t));
    }
}

/// The characters of a line.
fn line_chars(line: &String) -> (v: Vec<char>)
    ensures
        v@ == line@,
{
    let text = line.as_str();
    let n = text.unicode_len();
    let mut v: Vec<char> = Vec::new();
    let mut i: usize = 0;
    while i < n
        invariant
            0 <= i <= n,
            n == text@.len(),
            text@ == line@,
            v@ == text@.take(i as int),
        decreases n - i,
    {
        v.push(text.get_char(i));
        proof {
            assert(text@.take(i + 1) =~= text@.take(i as int).push(text@[i as int]));
        }
        i = i + 1;
    }
    proof {
        assert(text@.take(n as int) =~= text@);
    }
    v
}

/// Two slot sequences of the same length that agree except on the shift
/// keys.
pub open spec fn agree_off_shift(kp: KeyboardParams, s1: Seq<char>, s2: Seq<char>) -> bool {
    &&& s1.len() == s2.len()
    &&& forall|t: int| 0 <= t < s1.len() && !is_shift_slot(kp, t) ==> #[trigger] s1[t] == s2[t]
}

proof fn lemma_void_count_agree(kp: KeyboardParams, s1: Seq<char>, s2: Seq<char>)
    requires
        agree_off_shift(kp, s1, s2),
    ensures
        void_count(kp, s1) == void_count(kp, s2),
    decreases s1.len(),
{
    if s1.len() > 0 {
        let t = s1.len() - 1;
        assert(agree_off_shift(kp, s1.drop_last(), s2.drop_last())) by {
            assert forall|u: int| 0 <= u < s1.drop_last().len() && !is_shift_slot(kp, u) implies #[trigger] s1.drop_last()[u]
                == s2.drop_last()[u] by {
                assert(s1[u] == s2[u]);
            }
        }
        lemma_void_count_agree(kp, s1.drop_last(), s2.drop_last());
        if !is_shift_slot(kp, t) {
            assert(s1[t] == s2[t]);
        }
    }
}

proof fn lemma_take_agree(kp: KeyboardParams, s1: Seq<char>, s2: Seq<char>, t: int)
    requires
        agree_off_shift(kp, s1, s2),
        0 <= t <= s1.len(),
    ensures
        agree_off_shift(kp, s1.take(t), s2.take(t)),
        void_count(kp, s1.take(t)) == void_count(kp, s2.take(t)),
        forall|x: char| named_before(kp, s1.take(t), x) == named_before(kp, s2.take(t), x),
{
    assert forall|u: int| 0 <= u < s1.take(t).len() && !is_shift_slot(kp, u) implies #[trigger] s1.take(t)[u] == s2.take(t)[u] by {
        assert(s1[u] == s2[u]);
    }
    lemma_void_count_agree(kp, s1.take(t), s2.take(t));
    assert forall|x: char| named_before(kp, s1.take(t), x) == named_before(kp, s2.take(t), x) by {
        if named_before(kp, s1.take(t), x) {
            let u = choose|u: int| 0 <= u < s1.take(t).len() && !is_shift_slot(kp, u) && s1.take(t)[u] == x;
            assert(s2.take(t)[u] == x);
        }
        if named_before(kp, s2.take(t), x) {
            let u = choose|u: int| 0 <= u < s2.take(t).len() && !is_shift_slot(kp, u) && s2.take(t)[u] == x;
            assert(s1.take(t)[u] == x);
        }
    }
}

/// On the 3x11 board the layer-1 positions of the shift keys take any
/// placeholder: two definitions with the same rows, whose slot sequences
/// agree except on the shift keys, are accepted alike, and when accepted
/// give every character slot the same character id (so they describe the
/// same layout).
pub proof fn lemma_shift_placeholders_ignored(kp: KeyboardParams, def1: UserLayoutDef, def2: UserLayoutDef)
    requires
        row_counts_ok(def1) == row_counts_ok(def2),
        rows_have_len(grid_rows(def1), 6, kp.num_cols as int) == rows_have_len(grid_rows(def2), 6, kp.num_cols as int),
        agree_off_shift(kp, all_cells(def1), all_cells(def2)),
    ensures
        def_valid(kp, def1) == def_valid(kp, def2),
        forall|t: int|
            0 <= t < all_cells(def1).len() && !is_shift_slot(kp, t) ==> #[trigger] cell_id(kp, all_cells(def1), t) == cell_id(
                kp,
                all_cells(def2),
                t,
            ),
        forall|c: int| #[trigger] id_placed(kp, all_cells(def1), c) == id_placed(kp, all_cells(def2), c),
{
    let s1 = all_cells(def1);
    let s2 = all_cells(def2);
    assert forall|t: int| 0 <= t < s1.len() && !is_shift_slot(kp, t) implies #[trigger] cell_id(kp, s1, t) == cell_id(kp, s2, t) by {
        lemma_take_agree(kp, s1, s2, t);
    }
    assert forall|t: int| 0 <= t < s1.len() implies #[trigger] cell_ok(kp, s1.take(t), s1[t]) == cell_ok(kp, s2.take(t), s2[t]) by {
        lemma_take_agree(kp, s1, s2, t);
    }
    assert(cells_ok(kp, s1) == cells_ok(kp, s2)) by {
        if cells_ok(kp, s1) {
            assert forall|t: int| 0 <= t < s2.len() implies #[trigger] cell_ok(kp, s2.take(t), s2[t]) by {
                assert(cell_ok(kp, s1.take(t), s1[t]));
            }
        }
        if cells_ok(kp, s2) {
            assert forall|t: int| 0 <= t < s1.len() implies #[trigger] cell_ok(kp, s1.take(t), s1[t]) by {
                assert(cell_ok(kp, s2.take(t), s2[t]));
            }
        }
    }
    assert forall|c: int| #[trigger] id_placed(kp, s1, c) == id_placed(kp, s2, c) by {
        if id_placed(kp, s1, c) {
            let t = choose|t: int| 0 <= t < s1.len() && !is_shift_slot(kp, t) && cell_id(kp, s1, t) == c;
            assert(cell_id(kp, s2, t) == c);
        }
        if id_placed(kp, s2, c) {
            let t = choose|t: int| 0 <= t < s2.len() && !is_shift_slot(kp, t) && cell_id(kp, s2, t) == c;
            assert(cell_id(kp, s1, t) == cell_id(kp, s2, t));
        }
    }
    if def_valid(kp, def1) {
        assert forall|c: int| 0 <= c < kp.num_chars implies #[trigger] id_placed(kp, all_cells(def2), c) by {
            assert(id_placed(kp, s1, c));
        }
    }
    if def_valid(kp, def2) {
        assert forall|c: int| 0 <= c < kp.num_chars implies #[trigger] id_placed(kp, all_cells(def1), c) by {
            assert(id_placed(kp, s2, c));
        }
    }
}

/// Builds a layout from a user definition. Rows are read in order
/// (layer 1, then layer 2, top to bottom); the first problem met is
/// reported; a definition without problems that places every character of
/// the board gives the layout it describes.
#[verifier::rlimit(60)]
pub fn parse_user_layout(kp: KeyboardParams, def: &UserLayoutDef) -> (r: Result<Layout, UserLayoutError>)
    requires
        kp.is_valid(),
    ensures
        r is Ok <==> def_valid(kp, *def),
        r matches Err(e) ==> error_matches(kp, *def, e),
        r matches Ok(l) ==> {
            &&& l.kp == kp
            &&& l.wf()
            &&& forall|t: int|
                0 <= t < MAX_SLOTS ==> #[trigger] l.slot_to_char@[t] == if t < kp.num_slots && !is_shift_slot(kp, t) {
                    cell_id(kp, all_cells(*def), t)
                } else {
                    SHIFT_SLOT_SENTINEL
                }
            &&& forall|c: int|
                0 <= c < MAX_CHARS && !id_placed(kp, all_cells(*def), c) ==> #[trigger] l.char_to_slot@[c] == 255
        },
{
    let nc = kp.num_cols as usize;
    let char_map = build_char_to_id();
    if def.layer1.len() != 3 {
        return Err(UserLayoutError::RowCount { layer: 1, rows: def.layer1.len() });
    }
    if def.layer2.len() != 3 {
        return Err(UserLayoutError::RowCount { layer: 2, rows: def.layer2.len() });
    }
    let mut cts = [255u8; MAX_CHARS];
    let mut stc = [SHIFT_SLOT_SENTINEL; MAX_SLOTS];
    if kp.size == KeyboardSize::K3x11 {
        stc[kp.shift_left as usize] = SHIFT_SLOT_SENTINEL;
        stc[kp.shift_right as usize] = SHIFT_SLOT_SENTINEL;
    }
    let mut void_next: CharId = VOID_CHAR_FIRST;
    let ghost rows = grid_rows(*def);
    let ghost mut s: Seq<char> = Seq::empty();
    proof {
        assert(s.take(0) =~= s);
        assert forall|k: int| 0 <= k < MAX_CHARS implies (#[trigger] cts@[k] == 255 <==> !id_placed(kp, s, k)) by {}
        assert(scan_state(kp, s, cts@, stc@, void_next));
    }
    let mut slot: usize = 0;
    let mut g: usize = 0;
    while g < 6
        invariant
            kp.is_valid(),
            nc == kp.num_cols,
            row_counts_ok(*def),
            rows == grid_rows(*def),
            0 <= g <= 6,
            rows_have_len(rows, g as int, nc as int),
            s == flat_rows(rows, g as int),
            slot == s.len(),
            slot as int == g as int * nc as int,
            scan_state(kp, s, cts@, stc@, void_next),
        decreases 6 - g,
    {
        let layer: usize = if g < 3 { 1 } else { 2 };
        let row: usize = if g < 3 { g } else { g - 3 };
        let line: &String = if g < 3 { &def.layer1[g] } else { &def.layer2[g - 3] };
        assert(line@ == rows[g as int]);
        assert(global_row(layer, row) == g);
        let chars = line_chars(line);
        if chars.len() != nc {
            return Err(UserLayoutError::RowLength { layer, row, expected: nc, actual: chars.len(), line: line.clone() });
        }
        assert(g as int * nc as int + nc as int <= 66) by (nonlinear_arith)
            requires
                g < 6,
                nc <= 11,
        ;
        let ghost row_start = s;
        let mut col: usize = 0;
        while col < nc
            invariant
                kp.is_valid(),
                nc == kp.num_cols,
                row_counts_ok(*def),
                rows == grid_rows(*def),
                0 <= g < 6,
                layer == (if g < 3 { 1usize } else { 2usize }),
                row == (if g < 3 { g } else { (g - 3) as usize }),
                rows_have_len(rows, g as int + 1, nc as int),
                chars@ == rows[g as int],
                row_start == flat_rows(rows, g as int),
                0 <= col <= nc,
                s == row_start + rows[g as int].take(col as int),
                slot == s.len(),
                slot as int == g as int * nc as int + col,
                g as int * nc as int + nc as int <= 66,
                scan_state(kp, s, cts@, stc@, void_next),
            decreases nc - col,
        {
            let c = chars[col];
            if layer == 1 && kp.size == KeyboardSize::K3x11 && (slot == kp.shift_left as usize
                || slot == kp.shift_right as usize) {
                stc[slot] = SHIFT_SLOT_SENTINEL;
                proof {
                    lemma_scan_state_shift(kp, s, c, cts@, stc@, void_next);
                }
            } else {
                proof {
                    if is_shift_slot(kp, slot as int) {
                        assert(kp == spec_k3x11());
                        assert(g >= 3);
                        assert(g as int * nc as int >= 33) by (nonlinear_arith)
                            requires
                                g >= 3,
                                nc == 11,
                        ;
                        assert(slot >= 33);
                    }
                }
                match assign_char(
                    c,
                    slot as SlotId,
                    &char_map,
                    &mut cts,
                    &mut stc,
                    &mut void_next,
                    row,
                    col,
                    layer,
                    Ghost(kp),
                    Ghost(s),
                ) {
                    Ok(()) => {},
                    Err(e) => {
                        proof {
                            if def_valid(kp, *def) {
                                let all = all_cells(*def);
                                lemma_flat_rows_prefix(rows, g as int + 1, 6);
                                assert(flat_rows(rows, g as int + 1) == row_start + rows[g as int]);
                                assert(s =~= flat_rows(rows, g as int + 1).take(slot as int));
                                assert(all.take(slot as int) =~= s);
                                assert(row_start.len() + col == slot);
                                assert(flat_rows(rows, g as int + 1)[slot as int] == rows[g as int][col as int]);
                                assert(flat_rows(rows, g as int + 1).len() == row_start.len() + nc);
                                assert(all[slot as int] == flat_rows(rows, g as int + 1)[slot as int]);
                                assert(all[slot as int] == c);
                                assert(cell_ok(kp, all.take(slot as int), all[slot as int]));
                            }
                        }
                        return Err(e);
                    },
                }
            }
            proof {
                assert(rows[g as int].take(col as int + 1) =~= rows[g as int].take(col as int).push(c));
                s = s.push(c);
            }
            slot = slot + 1;
            col = col + 1;
        }
        proof {
            assert(rows[g as int].take(nc as int) =~= rows[g as int]);
            assert(flat_rows(rows, g as int + 1) == flat_rows(rows, g as int) + rows[g as int]);
            assert((g as int + 1) * nc as int == g as int * nc as int + nc as int) by (nonlinear_arith);
        }
        g = g + 1;
    }
    assert(s == all_cells(*def));
    assert(slot == kp.num_slots);
    let num_chars = kp.num_chars;
    let mut slot_used = [false; MAX_SLOTS];
    let mut c: usize = 0;
    while c < num_chars
        invariant
            kp.is_valid(),
            num_chars == kp.num_chars,
            s == all_cells(*def),
            s.len() == kp.num_slots,
            def_valid(kp, *def) ==> forall|k: int| 0 <= k < kp.num_chars ==> #[trigger] id_placed(kp, s, k),
            row_counts_ok(*def),
            rows_have_len(grid_rows(*def), 6, kp.num_cols as int),
            scan_state(kp, s, cts@, stc@, void_next),
            0 <= c <= num_chars,
            forall|k: int| 0 <= k < c ==> #[trigger] id_placed(kp, s, k),
            forall|t: int| 0 <= t < MAX_SLOTS && #[trigger] slot_used@[t] ==> (stc@[t] as int) < c,
        decreases num_chars - c,
    {
        let sl = cts[c];
        if sl == 255 {
            return Err(UserLayoutError::Unplaced { char_id: c });
        }
        let ghost t = choose|t: int| 0 <= t < s.len() && !is_shift_slot(kp, t) && cell_id(kp, s, t) == c;
        assert(sl == t);
        assert(stc@[t] == c);
        if sl as usize >= kp.num_slots {
            return Err(UserLayoutError::SlotOutOfRange { char_id: c, slot: sl });
        }
        if slot_used[sl as usize] {
            return Err(UserLayoutError::SlotShared { slot: sl });
        }
        slot_used[sl as usize] = true;
        c = c + 1;
    }
    let layout = Layout { kp, char_to_slot: cts, slot_to_char: stc };
    proof {
        assert forall|k: int| 0 <= k < kp.num_chars implies {
            &&& (#[trigger] layout.char_to_slot@[k] as int) < layout.kp.num_slots
            &&& layout.slot_to_char@[layout.char_to_slot@[k] as int] == k
        } by {
            assert(id_placed(kp, s, k));
        }
        if kp == spec_k3x10() {
            let f = |k: int| cts@[k] as int;
            assert forall|i: int, j: int| 0 <= i < 60 && 0 <= j < 60 && #[trigger] f(i) == #[trigger] f(j) implies i == j by {
                assert(id_placed(kp, s, i));
                assert(id_placed(kp, s, j));
                assert(stc@[f(i)] == i);
            }
            assert forall|i: int| 0 <= i < 60 implies 0 <= #[trigger] f(i) < 60 by {
                assert(id_placed(kp, s, i));
            }
            lemma_injection_is_onto(60, f);
            assert forall|t: int| 0 <= t < 60 implies (#[trigger] stc@[t] as int) < 60 by {
                assert(hits(f, 60, t));
                let i = choose|i: int| 0 <= i < 60 && #[trigger] f(i) == t;
                assert(id_placed(kp, s, i));
            }
        }
        assert(layout.wf());
        assert(def_valid(kp, *def));
    }
    Ok(layout)
}

} // verus!
