use vstd::prelude::*;
use std::collections::HashSet;
use rand::rngs::SmallRng;
use rand::seq::SliceRandom;
use rand::Rng;

use crate::chars::{CharId, DAKUTEN_ID, HANDAKUTEN_ID, MAX_CHARS, VOID_CHAR_FIRST};
use crate::layout::{
    any_pair_violates, any_violates, is_fixed, is_inter_layer_movable, key_violates, layout_violates, lemma_swap_preserves_wf,
    lemma_swap_would_violate_exact, spec_initial_char_to_slot, spec_is_fixed, spec_swap_would_violate,
    swap_would_violate, ExclusivePair, C2S_3X11, KeyboardParams, KeyboardSize, Layout, SlotId, MAX_SLOTS, SHIFT_SLOT_SENTINEL,
};

verus! {

/// Kind of move the search makes.
#[derive(Clone, Copy, Debug, PartialEq, Eq, Structural)]
pub enum OpKind {
    /// Exchange of two layer-1 characters.
    SwapL1,
    /// Exchange of two layer-2 characters.
    SwapL2,
    /// Exchange of a layer-1 character with a layer-2 character.
    InterLayer,
}

pub open spec fn spec_normalize_pair(a: CharId, b: CharId) -> (CharId, CharId) {
    if a <= b { (a, b) } else { (b, a) }
}

/// The pair in ascending order, so that both orders name the same move.
pub fn normalize_pair(a: CharId, b: CharId) -> (r: (CharId, CharId))
    ensures
        r == spec_normalize_pair(a, b),
        r == spec_normalize_pair(b, a),
        r.0 <= r.1,
{
    if a <= b { (a, b) } else { (b, a) }
}

/// Recently made moves, forbidden for a while: a ring buffer that keeps the
/// last `capacity` moves added.
pub struct TabuList {
    entries: Vec<(CharId, CharId)>,
    capacity: usize,
    head: usize,
    history: Ghost<Seq<(CharId, CharId)>>,
}

/// Position in the ring of the `j`-th oldest entry, starting from `head`.
pub open spec fn ring_index(head: int, j: int, cap: int) -> int {
    if head + j < cap { head + j } else { head + j - cap }
}

/// `v` holds exactly the last `cap` moves of `h` (all of them while there
/// are fewer): as many entries as that, and a move is in `v` exactly when it
/// is one of those moves.
pub open spec fn holds_last_moves(v: Seq<(CharId, CharId)>, h: Seq<(CharId, CharId)>, cap: int) -> bool {
    let first = if h.len() > cap { h.len() - cap } else { 0 };
    &&& v.len() == h.len() - first
    &&& forall|x: (CharId, CharId)| v.contains(x) <==> exists|j: int| first <= j < h.len() && h[j] == x
}

impl View for TabuList {
    type V = Seq<(CharId, CharId)>;

    closed spec fn view(&self) -> Seq<(CharId, CharId)> {
        self.entries@
    }
}

impl TabuList {
    pub closed spec fn capacity(self) -> nat {
        self.capacity as nat
    }

    /// Every move added so far (normalized), oldest first.
    pub closed spec fn history(self) -> Seq<(CharId, CharId)> {
        self.history@
    }

    /// The entries are the last `capacity` moves of the history.
    pub closed spec fn wf(self) -> bool {
        let h = self.history@;
        let cap = self.capacity as int;
        &&& self.entries@.len() <= cap
        &&& self.entries@.len() < cap ==> self.head == 0 && self.entries@ == h
        &&& self.entries@.len() == cap && cap > 0 ==> {
            &&& self.head < cap
            &&& h.len() >= cap
            &&& forall|j: int|
                0 <= j < cap ==> self.entries@[ring_index(self.head as int, j, cap)] == #[trigger] h[h.len() - cap + j]
        }
    }

    pub fn new(capacity: usize) -> (t: Self)
        ensures
            t.wf(),
            holds_last_moves(t@, t.history(), t.capacity() as int),
            t@ == Seq::<(CharId, CharId)>::empty(),
            t.capacity() == capacity,
            t.history() == Seq::<(CharId, CharId)>::empty(),
    {
        let t = TabuList { entries: Vec::new(), capacity, head: 0, history: Ghost(Seq::empty()) };
        proof {
            lemma_wf_holds_last(t);
        }
        t
    }

    /// The move exchanging `c1` and `c2` (in either order) is in the list.
    pub fn contains(&self, c1: CharId, c2: CharId) -> (r: bool)
        ensures
            r == self@.contains(spec_normalize_pair(c1, c2)),
    {
        let key = normalize_pair(c1, c2);
        let mut i: usize = 0;
        while i < self.entries.len()
            invariant
                0 <= i <= self.entries@.len(),
                key == spec_normalize_pair(c1, c2),
                forall|j: int| 0 <= j < i ==> self.entries@[j] != key,
            decreases self.entries@.len() - i,
        {
            let e = self.entries[i];
            if e.0 == key.0 && e.1 == key.1 {
                assert(self@[i as int] == key);
                return true;
            }
            i = i + 1;
        }
        false
    }

    /// Adds a move; once the list is full, the oldest move leaves.
    pub fn add(&mut self, c1: CharId, c2: CharId)
        requires
            old(self).wf(),
            old(self).capacity() > 0,
        ensures
            final(self).wf(),
            final(self).capacity() == old(self).capacity(),
            final(self).history() == old(self).history().push(spec_normalize_pair(c1, c2)),
            final(self)@.contains(spec_normalize_pair(c1, c2)),
            holds_last_moves(final(self)@, final(self).history(), final(self).capacity() as int),
            old(self)@.len() < old(self).capacity() ==> final(self)@ == old(self)@.push(spec_normalize_pair(c1, c2)),
            old(self)@.len() == old(self).capacity() ==> exists|k: int|
                0 <= k < old(self)@.len() && old(self)@[k] == old(self).history()[old(self).history().len()
                    - old(self).capacity()] && final(self)@ == old(self)@.update(k, spec_normalize_pair(c1, c2)),
    {
        let key = normalize_pair(c1, c2);
        let ghost h = self.history@;
        let ghost cap = self.capacity as int;
        if self.entries.len() < self.capacity {
            self.entries.push(key);
            self.history = Ghost(h.push(key));
            proof {
                assert(self.entries@[self.entries@.len() - 1] == key);
                if self.entries@.len() == cap {
                    assert forall|j: int| 0 <= j < cap implies self.entries@[ring_index(self.head as int, j, cap)]
                        == #[trigger] self.history@[self.history@.len() - cap + j] by {}
                }
                lemma_wf_holds_last(*self);
            }
        } else {
            let old_head = self.head;
            self.entries.set(self.head, key);
            let cap_now = self.capacity;
            assert(((old_head + 1) as int) % (cap_now as int) == if old_head + 1 < cap_now { old_head + 1 } else { 0 }) by (nonlinear_arith)
                requires
                    old_head < cap_now,
            ;
            self.head = (self.head + 1) % self.capacity;
            self.history = Ghost(h.push(key));
            proof {
                let h2 = self.history@;
                assert(self.entries@[old_head as int] == key);
                assert forall|j: int| 0 <= j < cap implies self.entries@[ring_index(self.head as int, j, cap)]
                    == #[trigger] h2[h2.len() - cap + j] by {
                    if j < cap - 1 {
                        assert(ring_index(self.head as int, j, cap) == ring_index(old_head as int, j + 1, cap));
                        assert(h2[h2.len() - cap + j] == h[h.len() - cap + (j + 1)]);
                    } else {
                        assert(ring_index(self.head as int, j, cap) == old_head);
                    }
                }
                lemma_wf_holds_last(*self);
                assert(ring_index(old_head as int, 0, cap) == old_head);
                assert(old(self).entries@[ring_index(old_head as int, 0, cap)] == h[h.len() - cap + 0]);
                assert(old(self)@[old_head as int] == h[h.len() - cap]);
                assert(self.entries@ =~= old(self)@.update(old_head as int, key));
            }
        }
    }
}

/// A well-formed list holds exactly the last `capacity` moves of its history.
proof fn lemma_wf_holds_last(t: TabuList)
    requires
        t.wf(),
    ensures
        holds_last_moves(t@, t.history(), t.capacity() as int),
{
    let h = t.history();
    let cap = t.capacity() as int;
    let v = t@;
    let first = if h.len() > cap { h.len() - cap } else { 0 };
    if v.len() < cap {
        assert(v == h);
        assert forall|x: (CharId, CharId)| v.contains(x) <==> exists|j: int| first <= j < h.len() && h[j] == x by {
            if v.contains(x) {
                let m = choose|m: int| 0 <= m < v.len() && v[m] == x;
                assert(h[m] == x);
            }
        }
    } else if cap == 0 {
        assert forall|x: (CharId, CharId)| v.contains(x) <==> exists|j: int| first <= j < h.len() && h[j] == x by {}
    } else {
        assert forall|x: (CharId, CharId)| v.contains(x) <==> exists|j: int| first <= j < h.len() && h[j] == x by {
            if v.contains(x) {
                let m = choose|m: int| 0 <= m < v.len() && v[m] == x;
                let j = if m >= t.head { m - t.head } else { m + cap - t.head };
                assert(ring_index(t.head as int, j, cap) == m);
                assert(v[ring_index(t.head as int, j, cap)] == h[h.len() - cap + j]);
                assert(h[h.len() - cap + j] == x);
            }
            if exists|j: int| first <= j < h.len() && h[j] == x {
                let jj = choose|j: int| first <= j < h.len() && h[j] == x;
                let j = jj - (h.len() - cap);
                assert(v[ring_index(t.head as int, j, cap)] == h[h.len() - cap + j]);
                assert(v.contains(x));
            }
        }
    }
}

/// Each of the last `capacity` moves added to a well-formed list is still
/// in it: a move stays tabu for the next `capacity - 1` additions.
pub proof fn lemma_recent_moves_stay_tabu(t: TabuList, i: int)
    requires
        t.wf(),
        t.history().len() - t.capacity() <= i < t.history().len(),
        0 <= i,
    ensures
        t@.contains(t.history()[i]),
{
    let h = t.history();
    let cap = t.capacity() as int;
    if t@.len() < cap {
        assert(t@[i] == h[i]);
    } else {
        let j = i - (h.len() - cap);
        assert(h[h.len() - cap + j] == h[i]);
        assert(t@[ring_index(t.head as int, j, cap)] == h[i]);
    }
}

/// `c` is a void placeholder (an empty key position).
pub fn is_void(c: CharId) -> (r: bool)
    ensures
        r == (c >= VOID_CHAR_FIRST),
{
    c >= VOID_CHAR_FIRST
}

pub open spec fn spec_is_l1_only_char(c: CharId) -> bool {
    c == DAKUTEN_ID || c == HANDAKUTEN_ID
}

/// `c` stays on layer 1 (the voicing marks `゛` and `゜`).
pub fn is_l1_only_char(c: CharId) -> (r: bool)
    ensures
        r == spec_is_l1_only_char(c),
{
    c == DAKUTEN_ID || c == HANDAKUTEN_ID
}

/// `v` lists, in increasing order, exactly the ids below `n` that satisfy `p`.
pub open spec fn lists_ids(v: Seq<CharId>, n: int, p: spec_fn(CharId) -> bool) -> bool {
    &&& forall|i: int, j: int| 0 <= i < j < v.len() ==> v[i] < v[j]
    &&& forall|c: CharId| v.contains(c) <==> ((c as int) < n && p(c))
}

pub open spec fn l1_free_pred(layout: Layout) -> spec_fn(CharId) -> bool {
    |c: CharId| layout.char_to_slot@[c as int] < layout.kp.num_slots_per_layer && !spec_is_fixed(c, layout.kp)
        && c < VOID_CHAR_FIRST
}

pub open spec fn l2_pred(layout: Layout) -> spec_fn(CharId) -> bool {
    |c: CharId| !(layout.char_to_slot@[c as int] < layout.kp.num_slots_per_layer) && c < VOID_CHAR_FIRST
}

pub open spec fn inter_l1_pred(layout: Layout, l1_only: Set<CharId>) -> spec_fn(CharId) -> bool {
    |c: CharId| layout.char_to_slot@[c as int] < layout.kp.num_slots_per_layer && !spec_is_fixed(c, layout.kp)
        && !l1_only.contains(c) && c < VOID_CHAR_FIRST
}

/// Movable layer-1 characters: on layer 1, not fixed, not void.
pub fn collect_l1_free_chars(layout: &Layout) -> (v: Vec<CharId>)
    requires
        layout.kp.num_chars <= MAX_CHARS,
    ensures
        lists_ids(v@, layout.kp.num_chars as int, l1_free_pred(*layout)),
{
    let kp = layout.kp;
    let mut v: Vec<CharId> = Vec::new();
    let mut c: usize = 0;
    while c < kp.num_chars
        invariant
            kp == layout.kp,
            kp.num_chars <= MAX_CHARS,
            0 <= c <= kp.num_chars,
            lists_ids(v@, c as int, l1_free_pred(*layout)),
            forall|i: int| 0 <= i < v@.len() ==> (v@[i] as int) < c,
        decreases kp.num_chars - c,
    {
        let id = c as CharId;
        let ghost old_v = v@;
        if layout.is_l1(id) && !is_fixed(id, kp) && !is_void(id) {
            v.push(id);
        }
        proof {
            assert forall|k: CharId| v@.contains(k) <==> ((k as int) < c + 1 && l1_free_pred(*layout)(k)) by {
                if old_v.contains(k) {
                    let i = choose|i: int| 0 <= i < old_v.len() && old_v[i] == k;
                    assert(v@[i] == k);
                }
                if v@.contains(k) {
                    let i = choose|i: int| 0 <= i < v@.len() && v@[i] == k;
                    if i < old_v.len() {
                        assert(old_v[i] == k);
                    }
                }
                if k as int == c && l1_free_pred(*layout)(k) {
                    assert(v@[v@.len() - 1] == k);
                }
            }
        }
        c = c + 1;
    }
    v
}

/// Layer-2 characters, void placeholders excluded.
pub fn collect_l2_chars(layout: &Layout) -> (v: Vec<CharId>)
    requires
        layout.kp.num_chars <= MAX_CHARS,
    ensures
        lists_ids(v@, layout.kp.num_chars as int, l2_pred(*layout)),
{
    let kp = layout.kp;
    let mut v: Vec<CharId> = Vec::new();
    let mut c: usize = 0;
    while c < kp.num_chars
        invariant
            kp == layout.kp,
            kp.num_chars <= MAX_CHARS,
            0 <= c <= kp.num_chars,
            lists_ids(v@, c as int, l2_pred(*layout)),
            forall|i: int| 0 <= i < v@.len() ==> (v@[i] as int) < c,
        decreases kp.num_chars - c,
    {
        let id = c as CharId;
        let ghost old_v = v@;
        if !layout.is_l1(id) && !is_void(id) {
            v.push(id);
        }
        proof {
            assert forall|k: CharId| v@.contains(k) <==> ((k as int) < c + 1 && l2_pred(*layout)(k)) by {
                if old_v.contains(k) {
                    let i = choose|i: int| 0 <= i < old_v.len() && old_v[i] == k;
                    assert(v@[i] == k);
                }
                if v@.contains(k) {
                    let i = choose|i: int| 0 <= i < v@.len() && v@[i] == k;
                    if i < old_v.len() {
                        assert(old_v[i] == k);
                    }
                }
                if k as int == c && l2_pred(*layout)(k) {
                    assert(v@[v@.len() - 1] == k);
                }
            }
        }
        c = c + 1;
    }
    v
}

/// Layer-1 characters that may move to layer 2: not fixed, not
/// layer-1-only, not void.
pub fn collect_l1_movable_chars(layout: &Layout, l1_only: &HashSet<CharId>) -> (v: Vec<CharId>)
    requires
        layout.kp.num_chars <= MAX_CHARS,
    ensures
        lists_ids(v@, layout.kp.num_chars as int, inter_l1_pred(*layout, l1_only@)),
{
    let kp = layout.kp;
    let mut v: Vec<CharId> = Vec::new();
    let mut c: usize = 0;
    while c < kp.num_chars
        invariant
            kp == layout.kp,
            kp.num_chars <= MAX_CHARS,
            0 <= c <= kp.num_chars,
            lists_ids(v@, c as int, inter_l1_pred(*layout, l1_only@)),
            forall|i: int| 0 <= i < v@.len() ==> (v@[i] as int) < c,
        decreases kp.num_chars - c,
    {
        let id = c as CharId;
        let ghost old_v = v@;
        if layout.is_l1(id) && is_inter_layer_movable(id, kp, l1_only) && !is_void(id) {
            v.push(id);
        }
        proof {
            assert forall|k: CharId| v@.contains(k) <==> ((k as int) < c + 1 && inter_l1_pred(*layout, l1_only@)(k)) by {
                if old_v.contains(k) {
                    let i = choose|i: int| 0 <= i < old_v.len() && old_v[i] == k;
                    assert(v@[i] == k);
                }
                if v@.contains(k) {
                    let i = choose|i: int| 0 <= i < v@.len() && v@[i] == k;
                    if i < old_v.len() {
                        assert(old_v[i] == k);
                    }
                }
                if k as int == c && inter_l1_pred(*layout, l1_only@)(k) {
                    assert(v@[v@.len() - 1] == k);
                }
            }
        }
        c = c + 1;
    }
    v
}

#[verifier::external_type_specification]
#[verifier::external_body]
pub struct ExSmallRng(SmallRng);

/// `rand::Rng::gen_range(0..n)` on a `SmallRng`: some index below `n`
/// (which one depends on the generator's state).
#[verifier::external_body]
fn random_index(rng: &mut SmallRng, n: usize) -> (i: usize)
    requires
        n > 0,
    ensures
        i < n,
{
    rng.gen_range(0..n)
}

/// `rand::seq::SliceRandom::choose` on a slice of ids: one of the items
/// (which one depends on the generator's state), or none for an empty slice.
#[verifier::external_body]
fn choose_id(items: &[CharId], rng: &mut SmallRng) -> (r: Option<CharId>)
    ensures
        r is Some <==> items@.len() > 0,
        r matches Some(c) ==> items@.contains(c),
{
    items.choose(rng).copied()
}

/// `states` is a run of the restart move from `states[0]`: step `i` draws
/// `draws[i]`, a character satisfying `p1` and one satisfying `p2` (both
/// below `n`), and makes that exchange unless it would break a pair
/// constraint, in which case the layout stays as it is.
pub open spec fn perturbation_run(
    states: Seq<Layout>,
    draws: Seq<(CharId, CharId)>,
    n: int,
    p1: spec_fn(CharId) -> bool,
    p2: spec_fn(CharId) -> bool,
    pairs: Seq<ExclusivePair>,
) -> bool {
    &&& states.len() == draws.len() + 1
    &&& forall|i: int|
        0 <= i < draws.len() ==> {
            &&& (#[trigger] draws[i]).0 < n && p1(draws[i].0)
            &&& (draws[i].1 as int) < n && p2(draws[i].1)
            &&& if spec_swap_would_violate(states[i], draws[i].0, draws[i].1, pairs) {
                states[i + 1] == states[i]
            } else {
                states[i + 1].is_swap_of(states[i], draws[i].0, draws[i].1)
            }
        }
}

/// Random restart move: up to `n_swaps` exchanges, each of a movable
/// layer-1 character with a layer-2 character (both drawn at random from
/// the lists taken at the start), skipping any exchange that would break a
/// pair constraint.
pub fn random_perturbation(
    layout: &mut Layout,
    n_swaps: usize,
    rng: &mut SmallRng,
    pairs: &[ExclusivePair],
    l1_only: &HashSet<CharId>,
)
    requires
        old(layout).wf(),
    ensures
        final(layout).wf(),
        final(layout).kp == old(layout).kp,
        !layout_violates(*old(layout), pairs@) ==> !layout_violates(*final(layout), pairs@),
        forall|c: CharId|
            (c as int) < old(layout).kp.num_chars && !inter_l1_pred(*old(layout), l1_only@)(c) && !l2_pred(
                *old(layout),
            )(c) ==> #[trigger] final(layout).char_to_slot@[c as int] == old(layout).char_to_slot@[c as int],
        exists|states: Seq<Layout>, draws: Seq<(CharId, CharId)>|
            {
                &&& perturbation_run(
                    states,
                    draws,
                    old(layout).kp.num_chars as int,
                    inter_l1_pred(*old(layout), l1_only@),
                    l2_pred(*old(layout)),
                    pairs@,
                )
                &&& states[0] == *old(layout)
                &&& states.last() == *final(layout)
                &&& draws.len() == if (exists|c: CharId|
                    (c as int) < old(layout).kp.num_chars && #[trigger] inter_l1_pred(*old(layout), l1_only@)(c))
                    && (exists|c: CharId| (c as int) < old(layout).kp.num_chars && #[trigger] l2_pred(*old(layout))(c)) {
                    n_swaps as int
                } else {
                    0
                }
            },
        forall|st: Layout|
            search_invariant(st, *old(layout), pairs@) && l1_only@.contains(DAKUTEN_ID) && l1_only@.contains(HANDAKUTEN_ID)
                ==> #[trigger] search_invariant(st, *final(layout), pairs@),
{
    let kp = layout.kp;
    let ghost start = *layout;
    let ghost p1 = inter_l1_pred(start, l1_only@);
    let ghost p2 = l2_pred(start);
    let l1_chars = collect_l1_movable_chars(layout, l1_only);
    let l2_chars = collect_l2_chars(layout);
    let ghost mut states: Seq<Layout> = seq![start];
    let ghost mut draws: Seq<(CharId, CharId)> = Seq::empty();
    if l1_chars.len() == 0 || l2_chars.len() == 0 {
        proof {
            if l1_chars.len() == 0 {
                assert forall|c: CharId| !((c as int) < kp.num_chars && #[trigger] p1(c)) by {
                    assert(!l1_chars@.contains(c));
                }
            } else {
                assert forall|c: CharId| !((c as int) < kp.num_chars && #[trigger] p2(c)) by {
                    assert(!l2_chars@.contains(c));
                }
            }
            assert(perturbation_run(states, draws, kp.num_chars as int, p1, p2, pairs@));
        }
        return;
    }
    proof {
        assert(l1_chars@.contains(l1_chars@[0]));
        assert(l2_chars@.contains(l2_chars@[0]));
        assert((l1_chars@[0] as int) < kp.num_chars && p1(l1_chars@[0]));
        assert((l2_chars@[0] as int) < kp.num_chars && p2(l2_chars@[0]));
    }
    let mut k: usize = 0;
    while k < n_swaps
        invariant
            layout.wf(),
            layout.kp == kp,
            start.kp == kp,
            0 <= k <= n_swaps,
            l1_chars@.len() > 0,
            l2_chars@.len() > 0,
            lists_ids(l1_chars@, kp.num_chars as int, inter_l1_pred(start, l1_only@)),
            lists_ids(l2_chars@, kp.num_chars as int, l2_pred(start)),
            !layout_violates(start, pairs@) ==> !layout_violates(*layout, pairs@),
            forall|c: CharId|
                (c as int) < kp.num_chars && !inter_l1_pred(start, l1_only@)(c) && !l2_pred(start)(c)
                    ==> #[trigger] layout.char_to_slot@[c as int] == start.char_to_slot@[c as int],
            p1 == inter_l1_pred(start, l1_only@),
            p2 == l2_pred(start),
            perturbation_run(states, draws, kp.num_chars as int, p1, p2, pairs@),
            states[0] == start,
            states.last() == *layout,
            draws.len() == k,
        decreases n_swaps - k,
    {
        let ghost before = *layout;
        let c1 = match choose_id(l1_chars.as_slice(), rng) {
            Some(c) => c,
            None => {
                return;
            },
        };
        let c2 = match choose_id(l2_chars.as_slice(), rng) {
            Some(c) => c,
            None => {
                return;
            },
        };
        assert(l1_chars@.contains(c1) && l2_chars@.contains(c2));
        if !swap_would_violate(layout, c1, c2, pairs) {
            layout.swap_chars(c1, c2);
            proof {
                lemma_swap_preserves_wf(before, *layout, c1, c2);
                if !layout_violates(before, pairs@) {
                    lemma_swap_would_violate_exact(before, *layout, c1, c2, pairs@);
                }
            }
        }
        proof {
            let old_states = states;
            let old_draws = draws;
            states = states.push(*layout);
            draws = draws.push((c1, c2));
            assert forall|i: int| 0 <= i < draws.len() implies {
                &&& (#[trigger] draws[i]).0 < kp.num_chars && p1(draws[i].0)
                &&& (draws[i].1 as int) < kp.num_chars && p2(draws[i].1)
                &&& if spec_swap_would_violate(states[i], draws[i].0, draws[i].1, pairs@) {
                    states[i + 1] == states[i]
                } else {
                    states[i + 1].is_swap_of(states[i], draws[i].0, draws[i].1)
                }
            } by {
                if i < old_draws.len() {
                    assert(draws[i] == old_draws[i]);
                    assert(states[i] == old_states[i]);
                    assert(states[i + 1] == old_states[i + 1]);
                } else {
                    assert(states[i] == before);
                }
            }
        }
        k = k + 1;
    }
    proof {
        assert((l1_chars@[0] as int) < kp.num_chars && p1(l1_chars@[0]));
        assert((l2_chars@[0] as int) < kp.num_chars && p2(l2_chars@[0]));
        assert forall|st: Layout|
            search_invariant(st, start, pairs@) && l1_only@.contains(DAKUTEN_ID) && l1_only@.contains(HANDAKUTEN_ID)
                implies #[trigger] search_invariant(st, *layout, pairs@) by {
            lemma_perturbation_invariant(st, start, *layout, pairs@, l1_only@);
        }
    }
}

/// What the search keeps true from its starting layout `start` on: the
/// layout is well formed on the same board, it has no forbidden pair when
/// the start had none, the fixed characters keep their starting slots on
/// layer 1, and the layer-1-only characters stay on layer 1.
pub open spec fn search_invariant(start: Layout, layout: Layout, pairs: Seq<ExclusivePair>) -> bool {
    &&& layout.wf()
    &&& layout.kp == start.kp
    &&& !layout_violates(start, pairs) ==> !layout_violates(layout, pairs)
    &&& forall|c: CharId|
        (c as int) < layout.kp.num_chars && spec_is_fixed(c, layout.kp) ==> #[trigger] layout.char_to_slot@[c as int]
            == start.char_to_slot@[c as int] && layout.char_to_slot@[c as int] < layout.kp.num_slots_per_layer
    &&& forall|c: CharId|
        (c as int) < layout.kp.num_chars && spec_is_l1_only_char(c) ==> #[trigger] layout.char_to_slot@[c as int]
            < layout.kp.num_slots_per_layer
}

/// A move the search may make: two movable layer-1 characters exchanged
/// within layer 1, two layer-2 characters exchanged within layer 2, or a
/// movable layer-1 character (not layer-1-only) exchanged with a layer-2
/// character.
pub open spec fn move_allowed(layout: Layout, kind: OpKind, c1: CharId, c2: CharId) -> bool {
    &&& (c1 as int) < layout.kp.num_chars
    &&& (c2 as int) < layout.kp.num_chars
    &&& match kind {
        OpKind::SwapL1 => l1_free_pred(layout)(c1) && l1_free_pred(layout)(c2),
        OpKind::SwapL2 => l2_pred(layout)(c1) && l2_pred(layout)(c2),
        OpKind::InterLayer => l1_free_pred(layout)(c1) && !spec_is_l1_only_char(c1) && l2_pred(layout)(c2),
    }
}

/// The invariant holds of a layout relative to itself when its fixed and
/// layer-1-only characters are on layer 1.
proof fn lemma_start_invariant(l: Layout, pairs: Seq<ExclusivePair>)
    requires
        l.wf(),
        forall|c: CharId|
            (c as int) < l.kp.num_chars && (spec_is_fixed(c, l.kp) || spec_is_l1_only_char(c)) ==> #[trigger] l.char_to_slot@[c as int]
                < l.kp.num_slots_per_layer,
    ensures
        search_invariant(l, l, pairs),
{
}

/// A restart move keeps the invariant when the layer-1-only marks are in
/// the set it keeps on layer 1.
proof fn lemma_perturbation_invariant(
    start: Layout,
    before: Layout,
    after: Layout,
    pairs: Seq<ExclusivePair>,
    l1_only: Set<CharId>,
)
    requires
        search_invariant(start, before, pairs),
        after.wf(),
        after.kp == before.kp,
        !layout_violates(before, pairs) ==> !layout_violates(after, pairs),
        forall|c: CharId|
            (c as int) < before.kp.num_chars && !inter_l1_pred(before, l1_only)(c) && !l2_pred(before)(c)
                ==> #[trigger] after.char_to_slot@[c as int] == before.char_to_slot@[c as int],
        l1_only.contains(DAKUTEN_ID),
        l1_only.contains(HANDAKUTEN_ID),
    ensures
        search_invariant(start, after, pairs),
{
    assert forall|c: CharId| (c as int) < after.kp.num_chars && spec_is_fixed(c, after.kp) implies #[trigger] after.char_to_slot@[c as int]
        == start.char_to_slot@[c as int] && after.char_to_slot@[c as int] < after.kp.num_slots_per_layer by {
        assert(before.char_to_slot@[c as int] < before.kp.num_slots_per_layer);
    }
    assert forall|c: CharId| (c as int) < after.kp.num_chars && spec_is_l1_only_char(c) implies #[trigger] after.char_to_slot@[c as int]
        < after.kp.num_slots_per_layer by {
        assert(before.char_to_slot@[c as int] < before.kp.num_slots_per_layer);
    }
}

/// One move of the search: the exchange of `c1` and `c2` is made when it is
/// a move of `kind` the search may make and breaks no pair constraint;
/// otherwise nothing changes. Returns whether it was made. A move keeps the
/// search invariant.
pub fn make_move(layout: &mut Layout, kind: OpKind, c1: CharId, c2: CharId, pairs: &[ExclusivePair]) -> (made: bool)
    requires
        old(layout).wf(),
    ensures
        made == (move_allowed(*old(layout), kind, c1, c2) && !spec_swap_would_violate(*old(layout), c1, c2, pairs@)),
        made ==> final(layout).is_swap_of(*old(layout), c1, c2),
        !made ==> *final(layout) == *old(layout),
        final(layout).wf(),
        forall|start: Layout|
            search_invariant(start, *old(layout), pairs@) ==> #[trigger] search_invariant(start, *final(layout), pairs@),
{
    let kp = layout.kp;
    if c1 as usize >= kp.num_chars || c2 as usize >= kp.num_chars {
        return false;
    }
    let allowed = match kind {
        OpKind::SwapL1 => layout.is_l1(c1) && !is_fixed(c1, kp) && !is_void(c1) && layout.is_l1(c2) && !is_fixed(c2, kp)
            && !is_void(c2),
        OpKind::SwapL2 => !layout.is_l1(c1) && !is_void(c1) && !layout.is_l1(c2) && !is_void(c2),
        OpKind::InterLayer => layout.is_l1(c1) && !is_fixed(c1, kp) && !is_void(c1) && !is_l1_only_char(c1)
            && !layout.is_l1(c2) && !is_void(c2),
    };
    if !allowed {
        return false;
    }
    proof {
        assert(kp == crate::layout::spec_k3x10() || kp == crate::layout::spec_k3x11());
        assert((layout.char_to_slot@[c1 as int] as int) < kp.num_slots);
        assert((layout.char_to_slot@[c2 as int] as int) < kp.num_slots);
    }
    if swap_would_violate(layout, c1, c2, pairs) {
        return false;
    }
    let ghost before = *layout;
    layout.swap_chars(c1, c2);
    proof {
        let after = *layout;
        lemma_swap_preserves_wf(before, after, c1, c2);
        let npl = kp.num_slots_per_layer as int;
        assert forall|start: Layout| search_invariant(start, before, pairs@) implies #[trigger] search_invariant(
            start,
            after,
            pairs@,
        ) by {
            if !layout_violates(start, pairs@) {
                lemma_swap_would_violate_exact(before, after, c1, c2, pairs@);
            }
            assert forall|c: CharId| (c as int) < kp.num_chars && spec_is_fixed(c, kp) implies #[trigger] after.char_to_slot@[c as int]
                == start.char_to_slot@[c as int] && after.char_to_slot@[c as int] < npl by {
                assert(before.char_to_slot@[c as int] < npl);
                assert(c != c1 && c != c2);
            }
            assert forall|c: CharId| (c as int) < kp.num_chars && spec_is_l1_only_char(c) implies #[trigger] after.char_to_slot@[c as int]
                < npl by {
                assert(before.char_to_slot@[c as int] < npl);
            }
        }
    }
    true
}

/// `x` is an exchange of two different positions of `chars` that breaks no
/// pair constraint.
pub open spec fn drawn_pair(layout: Layout, chars: Seq<CharId>, pairs: Seq<ExclusivePair>, x: (CharId, CharId)) -> bool {
    exists|a: int, b: int|
        0 <= a < chars.len() && 0 <= b < chars.len() && a != b && x == (chars[a], chars[b])
            && !spec_swap_would_violate(layout, chars[a], chars[b], pairs)
}

/// The pairs `(chars[i], chars[j])` with `i < j`, listed in order from
/// position `(i, j)` on (the rest of row `i`, then the following rows),
/// without those whose exchange would break a pair constraint.
pub open spec fn enum_pairs(
    layout: Layout,
    chars: Seq<CharId>,
    pairs: Seq<ExclusivePair>,
    i: int,
    j: int,
) -> Seq<(CharId, CharId)>
    decreases chars.len() - i, chars.len() - j,
{
    let n = chars.len() as int;
    if i < 0 || j < 0 || i >= n - 1 {
        Seq::empty()
    } else if j >= n {
        enum_pairs(layout, chars, pairs, i + 1, i + 2)
    } else {
        let rest = enum_pairs(layout, chars, pairs, i, j + 1);
        if spec_swap_would_violate(layout, chars[i], chars[j], pairs) {
            rest
        } else {
            seq![(chars[i], chars[j])] + rest
        }
    }
}

/// The pairs kept from a sequence of drawn index pairs, in order: a draw
/// `(i, j)` gives `(chars[i], chars[j])` when `i != j` and the exchange
/// breaks no pair constraint, and nothing otherwise.
pub open spec fn kept_draws(
    layout: Layout,
    chars: Seq<CharId>,
    pairs: Seq<ExclusivePair>,
    draws: Seq<(int, int)>,
) -> Seq<(CharId, CharId)>
    decreases draws.len(),
{
    if draws.len() == 0 {
        Seq::empty()
    } else {
        let prev = kept_draws(layout, chars, pairs, draws.drop_last());
        let (i, j) = draws.last();
        if i != j && !spec_swap_would_violate(layout, chars[i], chars[j], pairs) {
            prev.push((chars[i], chars[j]))
        } else {
            prev
        }
    }
}

/// Candidate exchanges within one group of characters. When the group has
/// at most `sample_limit` pairs, every pair `i < j` is listed in order;
/// otherwise up to `sample_limit` random pairs are drawn (at most
/// `4 * sample_limit` draws). Exchanges that would break a pair constraint
/// are left out.
pub fn sample_swap_pairs(
    layout: &Layout,
    chars: &[CharId],
    sample_limit: usize,
    rng: &mut SmallRng,
    pairs: &[ExclusivePair],
) -> (out: Vec<(CharId, CharId)>)
    requires
        layout.wf(),
        chars@.len() <= MAX_CHARS,
        forall|i: int| 0 <= i < chars@.len() ==> (#[trigger] chars@[i] as int) < layout.kp.num_chars,
    ensures
        chars@.len() * (chars@.len() - 1) / 2 <= sample_limit ==> out@ == enum_pairs(*layout, chars@, pairs@, 0, 1),
        forall|k: int| 0 <= k < out@.len() ==> drawn_pair(*layout, chars@, pairs@, #[trigger] out@[k]),
        chars@.len() * (chars@.len() - 1) / 2 > sample_limit ==> out@.len() <= sample_limit,
        chars@.len() * (chars@.len() - 1) / 2 > sample_limit ==> exists|draws: Seq<(int, int)>|
            {
                &&& forall|k: int|
                    0 <= k < draws.len() ==> 0 <= (#[trigger] draws[k]).0 < chars@.len() && 0 <= draws[k].1 < chars@.len()
                &&& out@ == kept_draws(*layout, chars@, pairs@, draws)
                &&& draws.len() <= 4 * sample_limit
                &&& (out@.len() == sample_limit || draws.len() == 4 * sample_limit)
                &&& (draws.len() > 0 ==> kept_draws(*layout, chars@, pairs@, draws.drop_last()).len() < sample_limit)
            },
{
    let n = chars.len();
    let mut out: Vec<(CharId, CharId)> = Vec::new();
    if n < 2 {
        assert(n * (n - 1) == 0) by (nonlinear_arith)
            requires
                n < 2,
        ;
        return out;
    }
    assert(n * (n - 1) <= 64 * 63) by (nonlinear_arith)
        requires
            2 <= n <= 64,
    ;
    let max_pairs = n * (n - 1) / 2;
    if max_pairs <= sample_limit {
        let mut i: usize = 0;
        while i < n
            invariant
                layout.wf(),
                n == chars@.len(),
                2 <= n <= MAX_CHARS,
                forall|k: int| 0 <= k < chars@.len() ==> (#[trigger] chars@[k] as int) < layout.kp.num_chars,
                0 <= i <= n,
                out@ + enum_pairs(*layout, chars@, pairs@, i as int, i + 1) == enum_pairs(*layout, chars@, pairs@, 0, 1),
                forall|k: int| 0 <= k < out@.len() ==> drawn_pair(*layout, chars@, pairs@, #[trigger] out@[k]),
            decreases n - i,
        {
            let mut j: usize = i + 1;
            while j < n
                invariant
                    layout.wf(),
                    n == chars@.len(),
                    2 <= n <= MAX_CHARS,
                    forall|k: int| 0 <= k < chars@.len() ==> (#[trigger] chars@[k] as int) < layout.kp.num_chars,
                    0 <= i < n,
                    i + 1 <= j <= n,
                    out@ + enum_pairs(*layout, chars@, pairs@, i as int, j as int) == enum_pairs(*layout, chars@, pairs@, 0, 1),
                    forall|k: int| 0 <= k < out@.len() ==> drawn_pair(*layout, chars@, pairs@, #[trigger] out@[k]),
                decreases n - j,
            {
                let c1 = chars[i];
                let c2 = chars[j];
                let ghost before = out@;
                if !swap_would_violate(layout, c1, c2, pairs) {
                    out.push((c1, c2));
                    proof {
                        assert(out@[out@.len() - 1] == (chars@[i as int], chars@[j as int]));
                        assert(drawn_pair(*layout, chars@, pairs@, out@[out@.len() - 1]));
                        assert forall|k: int| 0 <= k < out@.len() implies drawn_pair(*layout, chars@, pairs@, #[trigger] out@[k]) by {
                            if k < before.len() {
                                assert(before[k] == out@[k]);
                            }
                        }
                        assert(before + enum_pairs(*layout, chars@, pairs@, i as int, j as int) =~= out@ + enum_pairs(*layout, chars@, pairs@, i as int, j + 1));
                    }
                }
                j = j + 1;
            }
            proof {
                if i + 1 < n {
                    assert(enum_pairs(*layout, chars@, pairs@, i as int, n as int) == enum_pairs(*layout, chars@, pairs@, i + 1, i + 2));
                } else {
                    assert(enum_pairs(*layout, chars@, pairs@, i as int, n as int) == Seq::<(CharId, CharId)>::empty());
                    assert(enum_pairs(*layout, chars@, pairs@, i + 1, i + 2) == Seq::<(CharId, CharId)>::empty());
                }
            }
            i = i + 1;
        }
        proof {
            assert(enum_pairs(*layout, chars@, pairs@, n as int, n + 1) == Seq::<(CharId, CharId)>::empty());
            assert(out@ =~= enum_pairs(*layout, chars@, pairs@, 0, 1));
        }
    } else {
        assert(sample_limit < 2016);
        let mut sampled: usize = 0;
        let mut tries: usize = 0;
        let ghost mut draws: Seq<(int, int)> = Seq::empty();
        while sampled < sample_limit && tries < sample_limit * 4
            invariant
                layout.wf(),
                n == chars@.len(),
                2 <= n <= MAX_CHARS,
                sample_limit < 2016,
                forall|k: int| 0 <= k < chars@.len() ==> (#[trigger] chars@[k] as int) < layout.kp.num_chars,
                out@.len() == sampled,
                sampled <= sample_limit,
                tries <= sample_limit * 4,
                forall|k: int| 0 <= k < out@.len() ==> drawn_pair(*layout, chars@, pairs@, #[trigger] out@[k]),
                draws.len() == tries,
                forall|k: int| 0 <= k < draws.len() ==> 0 <= (#[trigger] draws[k]).0 < n && 0 <= draws[k].1 < n,
                out@ == kept_draws(*layout, chars@, pairs@, draws),
                draws.len() > 0 ==> kept_draws(*layout, chars@, pairs@, draws.drop_last()).len() < sample_limit,
            decreases sample_limit * 4 - tries,
        {
            tries = tries + 1;
            let i = random_index(rng, n);
            let j = random_index(rng, n);
            let ghost prev_draws = draws;
            proof {
                draws = draws.push((i as int, j as int));
                assert(draws.drop_last() =~= prev_draws);
            }
            if i != j {
                let c1 = chars[i];
                let c2 = chars[j];
                if !swap_would_violate(layout, c1, c2, pairs) {
                    let ghost before = out@;
                    out.push((c1, c2));
                    proof {
                        assert forall|k: int| 0 <= k < out@.len() implies drawn_pair(*layout, chars@, pairs@, #[trigger] out@[k]) by {
                            if k < before.len() {
                                assert(before[k] == out@[k]);
                            } else {
                                assert(out@[k] == (chars@[i as int], chars@[j as int]));
                            }
                        }
                    }
                    sampled = sampled + 1;
                }
            }
        }
        proof {
            assert(out@.len() == sample_limit || draws.len() == 4 * sample_limit);
            assert(out@ == kept_draws(*layout, chars@, pairs@, draws));
        }
    }
    out
}

/// The elements of `s` that satisfy `p`, in order.
pub open spec fn select(s: Seq<CharId>, p: spec_fn(CharId) -> bool) -> Seq<CharId>
    decreases s.len(),
{
    if s.len() == 0 {
        Seq::empty()
    } else if p(s.last()) {
        select(s.drop_last(), p).push(s.last())
    } else {
        select(s.drop_last(), p)
    }
}

proof fn lemma_select_push(s: Seq<CharId>, p: spec_fn(CharId) -> bool, x: CharId)
    ensures
        select(s.push(x), p) == if p(x) { select(s, p).push(x) } else { select(s, p) },
{
    assert(s.push(x).drop_last() =~= s);
}

proof fn lemma_select_props(s: Seq<CharId>, p: spec_fn(CharId) -> bool)
    ensures
        forall|k: int| 0 <= k < select(s, p).len() ==> p(#[trigger] select(s, p)[k]) && s.contains(select(s, p)[k]),
        s.no_duplicates() ==> select(s, p).no_duplicates(),
    decreases s.len(),
{
    if s.len() > 0 {
        let u = s.drop_last();
        lemma_select_props(u, p);
        assert forall|k: int| 0 <= k < select(s, p).len() implies p(#[trigger] select(s, p)[k]) && s.contains(select(s, p)[k]) by {
            if k < select(u, p).len() {
                assert(select(s, p)[k] == select(u, p)[k]);
                let w = choose|w: int| 0 <= w < u.len() && u[w] == select(u, p)[k];
                assert(s[w] == u[w]);
            } else {
                assert(s[s.len() - 1] == s.last());
            }
        }
        if s.no_duplicates() {
            assert(u.no_duplicates()) by {
                assert forall|i: int, j: int| 0 <= i < u.len() && 0 <= j < u.len() && i != j implies u[i] != u[j] by {
                    assert(u[i] == s[i] && u[j] == s[j]);
                }
            }
            if p(s.last()) {
                assert forall|k: int| 0 <= k < select(u, p).len() implies select(u, p)[k] != s.last() by {
                    let w = choose|w: int| 0 <= w < u.len() && u[w] == select(u, p)[k];
                    assert(s[w] == u[w]);
                }
            }
        }
    }
}

/// Layer-1 slots left for the most frequent movable characters: the
/// character slots of layer 1 minus those of the characters that stay there
/// (3x10: `、` `。` `゛` `゜`; 3x11: `゛` `゜`).
pub open spec fn l1_free_slot_count(kp: KeyboardParams) -> int {
    let l1_char_slots = kp.num_slots_per_layer as int - if kp.size == KeyboardSize::K3x11 { 2int } else { 0int };
    let fixed = if kp.size == KeyboardSize::K3x10 { 4int } else { 2int };
    l1_char_slots - fixed
}

/// A character the arrangement may move: neither fixed, nor layer-1-only,
/// nor void.
pub open spec fn is_movable_char(kp: KeyboardParams, c: CharId) -> bool {
    &&& (c as int) < kp.num_chars
    &&& !spec_is_fixed(c, kp)
    &&& !spec_is_l1_only_char(c)
    &&& c < VOID_CHAR_FIRST
}

/// The characters meant for layer 1: the first free-slot-count of the
/// ranking.
pub open spec fn spec_targets(kp: KeyboardParams, ranked: Seq<CharId>) -> Seq<CharId> {
    let n = if l1_free_slot_count(kp) < ranked.len() { l1_free_slot_count(kp) } else { ranked.len() as int };
    ranked.take(n)
}

pub open spec fn initially_l1(kp: KeyboardParams, c: CharId) -> bool {
    spec_initial_char_to_slot(kp.size)[c as int] < kp.num_slots_per_layer
}

/// Characters of the starting layer 1 that may leave it: the movable ones
/// and the void placeholders.
pub open spec fn l1_pool(kp: KeyboardParams) -> spec_fn(CharId) -> bool {
    |c: CharId| initially_l1(kp, c) && (c as int) < kp.num_chars && (is_movable_char(kp, c) || c >= VOID_CHAR_FIRST)
}

/// Number of ids below `n` in the pool.
pub open spec fn pool_count(kp: KeyboardParams, n: int) -> int
    decreases n,
{
    if n <= 0 {
        0
    } else {
        pool_count(kp, n - 1) + if l1_pool(kp)((n - 1) as CharId) {
            1int
        } else {
            0int
        }
    }
}

/// On both boards the pool has exactly as many characters as there are
/// free layer-1 slots.
proof fn lemma_pool_size(kp: KeyboardParams)
    requires
        kp.is_valid(),
    ensures
        pool_count(kp, kp.num_chars as int) == l1_free_slot_count(kp),
{
    reveal_with_fuel(pool_count, 65);
    if kp == crate::layout::spec_k3x10() {
        assert(pool_count(kp, 60) == 26);
    } else {
        assert(pool_count(kp, 64) == 29);
    }
}

/// Pool characters of the starting layer 1 that are not targets, in id order.
pub open spec fn spec_demote(kp: KeyboardParams, targets: Seq<CharId>) -> Seq<CharId> {
    select(all_ids(kp.num_chars as int), demote_pred(kp, targets))
}

pub open spec fn all_ids(n: int) -> Seq<CharId> {
    Seq::new(n as nat, |i: int| i as CharId)
}

pub open spec fn demote_pred(kp: KeyboardParams, targets: Seq<CharId>) -> spec_fn(CharId) -> bool {
    |c: CharId| l1_pool(kp)(c) && !targets.contains(c)
}

pub open spec fn promote_pred(kp: KeyboardParams) -> spec_fn(CharId) -> bool {
    |c: CharId| !initially_l1(kp, c)
}

/// Targets not on the starting layer 1, in rank order.
pub open spec fn spec_promote(kp: KeyboardParams, targets: Seq<CharId>) -> Seq<CharId> {
    select(targets, promote_pred(kp))
}

/// Slot of `c` after the first `n` exchanges `demote[j] <-> promote[j]`,
/// starting from the slots `init`.
pub open spec fn paired_slot(init: Seq<SlotId>, demote: Seq<CharId>, promote: Seq<CharId>, n: int, c: CharId) -> SlotId {
    if exists|j: int| 0 <= j < n && promote[j] == c {
        init[demote[choose|j: int| 0 <= j < n && promote[j] == c] as int]
    } else if exists|j: int| 0 <= j < n && demote[j] == c {
        init[promote[choose|j: int| 0 <= j < n && demote[j] == c] as int]
    } else {
        init[c as int]
    }
}

/// Slot of every character once the demoted and promoted characters have
/// been exchanged pairwise.
pub open spec fn spec_arranged_slot(kp: KeyboardParams, ranked: Seq<CharId>, c: CharId) -> SlotId {
    let targets = spec_targets(kp, ranked);
    let d = spec_demote(kp, targets);
    let p = spec_promote(kp, targets);
    let n = if d.len() < p.len() { d.len() as int } else { p.len() as int };
    paired_slot(spec_initial_char_to_slot(kp.size), d, p, n, c)
}

proof fn lemma_select_complete(s: Seq<CharId>, p: spec_fn(CharId) -> bool, x: CharId)
    requires
        s.contains(x),
        p(x),
    ensures
        select(s, p).contains(x),
    decreases s.len(),
{
    let u = s.drop_last();
    if s.last() == x {
        assert(select(s, p).last() == x);
    } else {
        let w = choose|w: int| 0 <= w < s.len() && s[w] == x;
        assert(u[w] == x);
        lemma_select_complete(u, p, x);
        let i = choose|i: int| 0 <= i < select(u, p).len() && select(u, p)[i] == x;
        if p(s.last()) {
            assert(select(s, p)[i] == x);
        }
    }
}

proof fn lemma_all_ids(n: int)
    requires
        0 <= n <= 256,
    ensures
        all_ids(n).no_duplicates(),
        forall|c: CharId| (c as int) < n ==> #[trigger] all_ids(n).contains(c),
        forall|k: int| 0 <= k < n ==> (#[trigger] all_ids(n)[k] as int) == k,
{
    assert forall|a: int, b: int| 0 <= a < n && 0 <= b < n && a != b implies all_ids(n)[a] != all_ids(n)[b] by {
        assert((a as CharId) as int == a);
        assert((b as CharId) as int == b);
    }
    assert forall|c: CharId| (c as int) < n implies #[trigger] all_ids(n).contains(c) by {
        assert(all_ids(n)[c as int] == c);
    }
    assert forall|k: int| 0 <= k < n implies (#[trigger] all_ids(n)[k] as int) == k by {
        assert((k as CharId) as int == k);
    }
}

proof fn lemma_pool_select_len(kp: KeyboardParams, n: int)
    requires
        0 <= n <= 256,
    ensures
        select(all_ids(n), l1_pool(kp)).len() == pool_count(kp, n),
    decreases n,
{
    if n > 0 {
        lemma_pool_select_len(kp, n - 1);
        assert(all_ids(n) =~= all_ids(n - 1).push((n - 1) as CharId));
        lemma_select_push(all_ids(n - 1), l1_pool(kp), (n - 1) as CharId);
    }
}

/// There are at least as many pool characters to leave layer 1 as targets
/// to enter it.
proof fn lemma_promote_fits(kp: KeyboardParams, ranked: Seq<CharId>)
    requires
        kp.is_valid(),
        ranked.no_duplicates(),
        forall|i: int| 0 <= i < ranked.len() ==> is_movable_char(kp, #[trigger] ranked[i]),
    ensures
        spec_promote(kp, spec_targets(kp, ranked)).len() <= spec_demote(kp, spec_targets(kp, ranked)).len(),
{
    broadcast use vstd::seq_lib::seq_to_set_is_finite;

    let n = kp.num_chars as int;
    let tg = spec_targets(kp, ranked);
    let ids = all_ids(n);
    let d = spec_demote(kp, tg);
    let p = spec_promote(kp, tg);
    let pool_seq = select(ids, l1_pool(kp));
    lemma_all_ids(n);
    lemma_pool_select_len(kp, n);
    lemma_pool_size(kp);
    lemma_select_props(ids, l1_pool(kp));
    lemma_select_props(ids, demote_pred(kp, tg));
    assert(tg.no_duplicates()) by {
        assert forall|a: int, b: int| 0 <= a < tg.len() && 0 <= b < tg.len() && a != b implies tg[a] != tg[b] by {
            assert(tg[a] == ranked[a] && tg[b] == ranked[b]);
        }
    }
    assert forall|k: int| 0 <= k < tg.len() implies is_movable_char(kp, #[trigger] tg[k]) by {
        assert(tg[k] == ranked[k]);
    }
    lemma_select_props(tg, promote_pred(kp));
    pool_seq.unique_seq_to_set();
    d.unique_seq_to_set();
    p.unique_seq_to_set();
    tg.unique_seq_to_set();
    let a = pool_seq.to_set();
    let b = tg.to_set();
    assert(d.to_set() =~= a.difference(b)) by {
        assert forall|x: CharId| d.to_set().contains(x) <==> a.difference(b).contains(x) by {
            if a.difference(b).contains(x) {
                lemma_select_complete(ids, demote_pred(kp, tg), x);
            }
            if d.to_set().contains(x) {
                let i = choose|i: int| 0 <= i < d.len() && d[i] == x;
                assert(demote_pred(kp, tg)(d[i]));
                lemma_select_complete(ids, l1_pool(kp), x);
            }
            if a.contains(x) {
                let i = choose|i: int| 0 <= i < pool_seq.len() && pool_seq[i] == x;
                assert(l1_pool(kp)(pool_seq[i]));
            }
        }
    }
    assert(p.to_set() =~= b.difference(a)) by {
        assert forall|x: CharId| p.to_set().contains(x) <==> b.difference(a).contains(x) by {
            if b.contains(x) {
                let k = choose|k: int| 0 <= k < tg.len() && tg[k] == x;
                assert(is_movable_char(kp, tg[k]));
                if a.contains(x) {
                    let i = choose|i: int| 0 <= i < pool_seq.len() && pool_seq[i] == x;
                    assert(l1_pool(kp)(pool_seq[i]));
                } else if initially_l1(kp, x) {
                    lemma_select_complete(ids, l1_pool(kp), x);
                }
                if !initially_l1(kp, x) {
                    lemma_select_complete(tg, promote_pred(kp), x);
                }
            }
            if p.to_set().contains(x) {
                let i = choose|i: int| 0 <= i < p.len() && p[i] == x;
                assert(promote_pred(kp)(p[i]));
                if a.contains(x) {
                    let j = choose|j: int| 0 <= j < pool_seq.len() && pool_seq[j] == x;
                    assert(l1_pool(kp)(pool_seq[j]));
                }
            }
        }
    }
    vstd::set_lib::lemma_set_difference_len(a, b);
    vstd::set_lib::lemma_set_difference_len(b, a);
    assert(a.intersect(b) =~= b.intersect(a));
}

/// Every target of the ranking ends on layer 1, and fixed and layer-1-only
/// characters keep their starting slots (on layer 1).
proof fn lemma_arranged_targets(kp: KeyboardParams, ranked: Seq<CharId>)
    requires
        kp.is_valid(),
        ranked.no_duplicates(),
        forall|i: int| 0 <= i < ranked.len() ==> is_movable_char(kp, #[trigger] ranked[i]),
    ensures
        forall|j: int|
            0 <= j < spec_targets(kp, ranked).len() ==> #[trigger] spec_arranged_slot(kp, ranked, spec_targets(kp, ranked)[j])
                < kp.num_slots_per_layer,
        forall|c: CharId|
            (c as int) < kp.num_chars && (spec_is_fixed(c, kp) || spec_is_l1_only_char(c)) ==> #[trigger] spec_arranged_slot(
                kp,
                ranked,
                c,
            ) == spec_initial_char_to_slot(kp.size)[c as int] && spec_initial_char_to_slot(kp.size)[c as int]
                < kp.num_slots_per_layer,
{
    let tg = spec_targets(kp, ranked);
    let d = spec_demote(kp, tg);
    let p = spec_promote(kp, tg);
    let n = if d.len() < p.len() { d.len() as int } else { p.len() as int };
    let init = spec_initial_char_to_slot(kp.size);
    lemma_promote_fits(kp, ranked);
    lemma_all_ids(kp.num_chars as int);
    lemma_select_props(all_ids(kp.num_chars as int), demote_pred(kp, tg));
    lemma_select_props(tg, promote_pred(kp));
    assert forall|j: int| 0 <= j < tg.len() implies #[trigger] spec_arranged_slot(kp, ranked, tg[j])
        < kp.num_slots_per_layer by {
        let t = tg[j];
        assert(t == ranked[j]);
        assert(tg.contains(t));
        if initially_l1(kp, t) {
            assert forall|i: int| 0 <= i < p.len() implies p[i] != t by {
                assert(promote_pred(kp)(p[i]));
            }
            assert forall|i: int| 0 <= i < d.len() implies d[i] != t by {
                assert(demote_pred(kp, tg)(d[i]));
            }
        } else {
            lemma_select_complete(tg, promote_pred(kp), t);
            let i = choose|i: int| 0 <= i < p.len() && p[i] == t;
            assert(0 <= i < n && p[i] == t);
            let w = choose|w: int| 0 <= w < n && p[w] == t;
            assert(demote_pred(kp, tg)(d[w]));
        }
    }
    assert forall|c: CharId|
        (c as int) < kp.num_chars && (spec_is_fixed(c, kp) || spec_is_l1_only_char(c)) implies #[trigger] spec_arranged_slot(
            kp,
            ranked,
            c,
        ) == init[c as int] && init[c as int] < kp.num_slots_per_layer by {
        assert forall|i: int| 0 <= i < p.len() implies p[i] != c by {
            let k = choose|k: int| 0 <= k < tg.len() && tg[k] == p[i];
            assert(tg[k] == ranked[k]);
            assert(is_movable_char(kp, ranked[k]));
        }
        assert forall|i: int| 0 <= i < d.len() implies d[i] != c by {
            assert(demote_pred(kp, tg)(d[i]));
        }
        if kp.size == KeyboardSize::K3x11 {
            assert(C2S_3X11@[18] == 19 && C2S_3X11@[29] == 31);
        }
    }
}

fn contains_id(v: &Vec<CharId>, c: CharId) -> (r: bool)
    ensures
        r == v@.contains(c),
{
    let mut i: usize = 0;
    while i < v.len()
        invariant
            0 <= i <= v@.len(),
            forall|j: int| 0 <= j < i ==> v@[j] != c,
        decreases v@.len() - i,
    {
        if v[i] == c {
            assert(v@[i as int] == c);
            return true;
        }
        i = i + 1;
    }
    false
}

proof fn lemma_paired_step(init: Seq<SlotId>, d: Seq<CharId>, p: Seq<CharId>, i: int, c: CharId)
    requires
        0 <= i < d.len(),
        i < p.len(),
        d.no_duplicates(),
        p.no_duplicates(),
        forall|a: int, b: int| 0 <= a < d.len() && 0 <= b < p.len() ==> d[a] != p[b],
    ensures
        paired_slot(init, d, p, i + 1, c) == if c == p[i] {
            init[d[i] as int]
        } else if c == d[i] {
            init[p[i] as int]
        } else {
            paired_slot(init, d, p, i, c)
        },
        paired_slot(init, d, p, i, d[i]) == init[d[i] as int],
        paired_slot(init, d, p, i, p[i]) == init[p[i] as int],
{
    if exists|j: int| 0 <= j < i + 1 && p[j] == c {
        let j = choose|j: int| 0 <= j < i + 1 && p[j] == c;
        if c != p[i] {
            assert(j < i);
            assert(exists|j2: int| 0 <= j2 < i && p[j2] == c);
            let j2 = choose|j2: int| 0 <= j2 < i && p[j2] == c;
            assert(j2 == j);
        }
    } else if exists|j: int| 0 <= j < i + 1 && d[j] == c {
        let j = choose|j: int| 0 <= j < i + 1 && d[j] == c;
        if c != d[i] {
            assert(j < i);
            assert(exists|j2: int| 0 <= j2 < i && d[j2] == c);
            let j2 = choose|j2: int| 0 <= j2 < i && d[j2] == c;
            assert(j2 == j);
        }
    }
    if exists|j: int| 0 <= j < i && p[j] == d[i] {
        let j = choose|j: int| 0 <= j < i && p[j] == d[i];
        assert(d[i] != p[j]);
    }
    if exists|j: int| 0 <= j < i && d[j] == d[i] {
        let j = choose|j: int| 0 <= j < i && d[j] == d[i];
        assert(j != i);
    }
    if exists|j: int| 0 <= j < i && p[j] == p[i] {
        let j = choose|j: int| 0 <= j < i && p[j] == p[i];
        assert(j != i);
    }
    if exists|j: int| 0 <= j < i && d[j] == p[i] {
        let j = choose|j: int| 0 <= j < i && d[j] == p[i];
        assert(d[j] != p[i]);
    }
}

/// The starting layout with the ranked characters moved to layer 1
/// (before any repair of pair constraints).
fn arrange_by_rank(kp: KeyboardParams, ranked: &[CharId]) -> (layout: Layout)
    requires
        kp.is_valid(),
        ranked@.no_duplicates(),
        forall|i: int| 0 <= i < ranked@.len() ==> is_movable_char(kp, #[trigger] ranked@[i]),
    ensures
        layout.kp == kp,
        layout.wf(),
        forall|c: int| 0 <= c < MAX_CHARS ==> #[trigger] layout.char_to_slot@[c] == spec_arranged_slot(kp, ranked@, c as CharId),
{
    let mut layout = Layout::initial(kp);
    let ghost init = spec_initial_char_to_slot(kp.size);
    let l1_char_slots: usize = kp.num_slots_per_layer as usize - if kp.size == KeyboardSize::K3x11 { 2usize } else { 0usize };
    let l1_fixed_count: usize = match kp.size {
        KeyboardSize::K3x10 => 4,
        KeyboardSize::K3x11 => 2,
    };
    let l1_free_slots = l1_char_slots - l1_fixed_count;
    let n_targets = if l1_free_slots < ranked.len() { l1_free_slots } else { ranked.len() };
    let mut targets: Vec<CharId> = Vec::new();
    let mut i: usize = 0;
    while i < n_targets
        invariant
            0 <= i <= n_targets,
            n_targets <= ranked@.len(),
            targets@ == ranked@.take(i as int),
        decreases n_targets - i,
    {
        targets.push(ranked[i]);
        proof {
            assert(ranked@.take(i + 1) =~= ranked@.take(i as int).push(ranked@[i as int]));
        }
        i = i + 1;
    }
    let ghost tg = spec_targets(kp, ranked@);
    assert(targets@ == tg);
    let mut demote: Vec<CharId> = Vec::new();
    let mut c: usize = 0;
    while c < kp.num_chars
        invariant
            layout.kp == kp,
            kp.is_valid(),
            layout.char_to_slot@ == init,
            init == spec_initial_char_to_slot(kp.size),
            targets@ == tg,
            0 <= c <= kp.num_chars,
            demote@ == select(all_ids(c as int), demote_pred(kp, tg)),
        decreases kp.num_chars - c,
    {
        let id = c as CharId;
        proof {
            assert(all_ids(c + 1) =~= all_ids(c as int).push(id));
            lemma_select_push(all_ids(c as int), demote_pred(kp, tg), id);
        }
        let keep = layout.is_l1(id) && (is_void(id) || (!is_fixed(id, kp) && !is_l1_only_char(id))) && !contains_id(&targets, id);
        proof {
            assert((id as int) == c);
            assert(keep == demote_pred(kp, tg)(id));
        }
        if keep {
            demote.push(id);
        }
        c = c + 1;
    }
    let mut promote: Vec<CharId> = Vec::new();
    let mut t: usize = 0;
    while t < targets.len()
        invariant
            layout.kp == kp,
            kp.is_valid(),
            layout.char_to_slot@ == init,
            init == spec_initial_char_to_slot(kp.size),
            targets@ == tg,
            0 <= t <= targets@.len(),
            promote@ == select(tg.take(t as int), promote_pred(kp)),
            forall|k: int| 0 <= k < tg.len() ==> is_movable_char(kp, #[trigger] tg[k]),
        decreases targets@.len() - t,
    {
        let id = targets[t];
        proof {
            assert(tg.take(t + 1) =~= tg.take(t as int).push(id));
            lemma_select_push(tg.take(t as int), promote_pred(kp), id);
        }
        let keep = !layout.is_l1(id);
        proof {
            assert(is_movable_char(kp, tg[t as int]));
            assert(keep == promote_pred(kp)(id));
        }
        if keep {
            promote.push(id);
        }
        t = t + 1;
    }
    let ghost d = spec_demote(kp, tg);
    let ghost p = spec_promote(kp, tg);
    proof {
        assert(tg.take(tg.len() as int) =~= tg);
        assert(demote@ == d);
        assert(promote@ == p);
        assert(all_ids(kp.num_chars as int).no_duplicates()) by {
            assert forall|a: int, b: int| 0 <= a < kp.num_chars && 0 <= b < kp.num_chars && a != b implies all_ids(kp.num_chars as int)[a] != all_ids(kp.num_chars as int)[b] by {
                assert((a as CharId) as int == a);
                assert((b as CharId) as int == b);
            }
        }
        lemma_select_props(all_ids(kp.num_chars as int), demote_pred(kp, tg));
        assert(tg.no_duplicates()) by {
            assert forall|a: int, b: int| 0 <= a < tg.len() && 0 <= b < tg.len() && a != b implies tg[a] != tg[b] by {
                assert(tg[a] == ranked@[a] && tg[b] == ranked@[b]);
            }
        }
        lemma_select_props(tg, promote_pred(kp));
        assert forall|a: int, b: int| 0 <= a < d.len() && 0 <= b < p.len() implies d[a] != p[b] by {
            assert(demote_pred(kp, tg)(d[a]));
            assert(promote_pred(kp)(p[b]));
        }
        assert forall|a: int| 0 <= a < d.len() implies (#[trigger] d[a] as int) < kp.num_chars by {
            assert(demote_pred(kp, tg)(d[a]));
        }
        assert forall|b: int| 0 <= b < p.len() implies (#[trigger] p[b] as int) < kp.num_chars by {
            assert(tg.contains(p[b]));
        }
    }
    let n = if demote.len() < promote.len() { demote.len() } else { promote.len() };
    let mut k: usize = 0;
    while k < n
        invariant
            layout.kp == kp,
            layout.wf(),
            demote@ == d,
            promote@ == p,
            n <= d.len(),
            n <= p.len(),
            d.no_duplicates(),
            p.no_duplicates(),
            forall|a: int, b: int| 0 <= a < d.len() && 0 <= b < p.len() ==> d[a] != p[b],
            forall|a: int| 0 <= a < d.len() ==> (#[trigger] d[a] as int) < kp.num_chars,
            forall|b: int| 0 <= b < p.len() ==> (#[trigger] p[b] as int) < kp.num_chars,
            0 <= k <= n,
            forall|x: int| 0 <= x < MAX_CHARS ==> #[trigger] layout.char_to_slot@[x] == paired_slot(init, d, p, k as int, x as CharId),
            init == spec_initial_char_to_slot(kp.size),
            d == spec_demote(kp, spec_targets(kp, ranked@)),
            p == spec_promote(kp, spec_targets(kp, ranked@)),
            n == if d.len() < p.len() { d.len() } else { p.len() },
        decreases n - k,
    {
        let a = demote[k];
        let b = promote[k];
        let ghost before = layout;
        proof {
            lemma_paired_step(init, d, p, k as int, a);
            assert(layout.char_to_slot@[a as int] == init[a as int]);
            assert(layout.char_to_slot@[b as int] == init[b as int]);
        }
        layout.swap_chars(a, b);
        proof {
            lemma_swap_preserves_wf(before, layout, a, b);
            assert forall|x: int| 0 <= x < MAX_CHARS implies #[trigger] layout.char_to_slot@[x] == paired_slot(init, d, p, k + 1, x as CharId) by {
                lemma_paired_step(init, d, p, k as int, x as CharId);
                assert((x as CharId) as int == x);
            }
        }
        k = k + 1;
    }
    layout
}

/// Key `k` (layer-1 slot `k` and the layer-2 slot above it) carries a
/// forbidden pair.
pub open spec fn key_bad(layout: Layout, k: int, pairs: Seq<ExclusivePair>) -> bool {
    key_violates(
        layout.slot_to_char@[k],
        layout.slot_to_char@[k + layout.kp.num_slots_per_layer as int],
        pairs,
    )
}

/// Key `alt` can take over the layer-2 character `l2_c` of a key whose
/// layer-1 character is `l1_c`, giving its own layer-2 character in
/// exchange, without either key then carrying a forbidden pair. `stc` is a
/// slot table, `npl` the slots per layer.
pub open spec fn alt_accepts(
    stc: Seq<CharId>,
    npl: int,
    pairs: Seq<ExclusivePair>,
    l1_c: CharId,
    l2_c: CharId,
    alt: int,
) -> bool {
    let alt_l1_c = stc[alt];
    let alt_l2_c = stc[alt + npl];
    &&& alt_l2_c < VOID_CHAR_FIRST
    &&& alt_l2_c != l2_c
    &&& !any_pair_violates(pairs, l1_c, alt_l2_c)
    &&& !(alt_l1_c != SHIFT_SLOT_SENTINEL && alt_l1_c < VOID_CHAR_FIRST && any_pair_violates(pairs, alt_l1_c, l2_c))
}

/// The first key, from `from` on, that accepts the exchange.
pub open spec fn first_accepting(
    stc: Seq<CharId>,
    npl: int,
    pairs: Seq<ExclusivePair>,
    l1_c: CharId,
    l2_c: CharId,
    from: int,
) -> Option<int>
    decreases npl - from,
{
    if from >= npl || from < 0 {
        None
    } else if alt_accepts(stc, npl, pairs, l1_c, l2_c, from) {
        Some(from)
    } else {
        first_accepting(stc, npl, pairs, l1_c, l2_c, from + 1)
    }
}

/// Repair of key `k`: when it carries a forbidden pair, its layer-2
/// character is exchanged with that of the first accepting key, or, when no
/// key accepts, the key is reported. Gives the new slot table, whether the
/// key is reported, and whether it carried a forbidden pair.
pub open spec fn repair_key(stc: Seq<CharId>, npl: int, pairs: Seq<ExclusivePair>, k: int) -> (Seq<CharId>, bool, bool) {
    let l1_c = stc[k];
    let l2_c = stc[k + npl];
    if key_violates(l1_c, l2_c, pairs) {
        match first_accepting(stc, npl, pairs, l1_c, l2_c, 0) {
            Some(alt) => (stc.update(k + npl, stc[alt + npl]).update(alt + npl, l2_c), false, true),
            None => (stc, true, true),
        }
    } else {
        (stc, false, false)
    }
}

/// A repair pass over keys `0 .. k`, in order: the slot table, the keys
/// reported, and whether any key carried a forbidden pair.
pub open spec fn repair_pass_upto(stc: Seq<CharId>, npl: int, pairs: Seq<ExclusivePair>, k: int) -> (
    Seq<CharId>,
    Seq<usize>,
    bool,
)
    decreases k,
{
    if k <= 0 {
        (stc, Seq::empty(), false)
    } else {
        let prev = repair_pass_upto(stc, npl, pairs, k - 1);
        let step = repair_key(prev.0, npl, pairs, k - 1);
        (step.0, if step.1 { prev.1.push((k - 1) as usize) } else { prev.1 }, prev.2 || step.2)
    }
}

/// Up to `n` repair passes over all keys, stopping after a pass that met no
/// forbidden pair: the slot table and the keys reported, pass after pass.
pub open spec fn repair_passes(stc: Seq<CharId>, npl: int, pairs: Seq<ExclusivePair>, n: nat) -> (Seq<CharId>, Seq<usize>)
    decreases n,
{
    if n == 0 {
        (stc, Seq::empty())
    } else {
        let p = repair_pass_upto(stc, npl, pairs, npl);
        if !p.2 {
            (p.0, p.1)
        } else {
            let rest = repair_passes(p.0, npl, pairs, (n - 1) as nat);
            (rest.0, p.1 + rest.1)
        }
    }
}

/// Slot table of the arrangement before repairs: each slot holds the
/// character arranged on it, or nothing.
pub open spec fn spec_arranged_stc(kp: KeyboardParams, ranked: Seq<CharId>) -> Seq<CharId> {
    Seq::new(
        MAX_SLOTS as nat,
        |s: int|
            if exists|c: int| 0 <= c < kp.num_chars && #[trigger] spec_arranged_slot(kp, ranked, c as CharId) == s {
                (choose|c: int| 0 <= c < kp.num_chars && #[trigger] spec_arranged_slot(kp, ranked, c as CharId) == s) as CharId
            } else {
                SHIFT_SLOT_SENTINEL
            },
    )
}

/// Only layer-2 characters moved between `before` and `after`.
pub open spec fn layer1_kept(before: Layout, after: Layout) -> bool {
    forall|c: int|
        0 <= c < MAX_CHARS && before.char_to_slot@[c] < before.kp.num_slots_per_layer ==> #[trigger] after.char_to_slot@[c]
            == before.char_to_slot@[c]
}

/// Tries to clear the forbidden pair on key `k` (chars `l1_c` below,
/// `l2_c` above) by exchanging `l2_c` with the layer-2 character of another
/// key, such that neither key then carries a forbidden pair.
fn fix_key(layout: &mut Layout, pairs: &[ExclusivePair], k: usize, l1_c: CharId, l2_c: CharId) -> (fixed: bool)
    requires
        old(layout).wf(),
        k < old(layout).kp.num_slots_per_layer,
        old(layout).slot_to_char@[k as int] == l1_c,
        old(layout).slot_to_char@[k + old(layout).kp.num_slots_per_layer] == l2_c,
        key_violates(l1_c, l2_c, pairs@),
    ensures
        final(layout).wf(),
        final(layout).kp == old(layout).kp,
        layer1_kept(*old(layout), *final(layout)),
        !fixed ==> *final(layout) == *old(layout),
        fixed == first_accepting(
            old(layout).slot_to_char@,
            old(layout).kp.num_slots_per_layer as int,
            pairs@,
            l1_c,
            l2_c,
            0,
        ) is Some,
        final(layout).slot_to_char@ == repair_key(
            old(layout).slot_to_char@,
            old(layout).kp.num_slots_per_layer as int,
            pairs@,
            k as int,
        ).0,
        fixed ==> !key_bad(*final(layout), k as int, pairs@),
        fixed ==> exists|alt: int|
            0 <= alt < old(layout).kp.num_slots_per_layer && alt != k && !key_bad(*final(layout), alt, pairs@) && forall|t: int|
                0 <= t < MAX_SLOTS && t != k + old(layout).kp.num_slots_per_layer && t != alt
                    + old(layout).kp.num_slots_per_layer ==> #[trigger] final(layout).slot_to_char@[t]
                    == old(layout).slot_to_char@[t],
{
    let npl = layout.kp.num_slots_per_layer as usize;
    let ghost start = *layout;
    proof {
        assert(layout.kp == crate::layout::spec_k3x10() || layout.kp == crate::layout::spec_k3x11());
        assert((l2_c as int) < layout.kp.num_chars);
    }
    let mut alt: usize = 0;
    while alt < npl
        invariant
            *layout == start,
            start == *old(layout),
            start.wf(),
            npl == start.kp.num_slots_per_layer,
            2 * npl <= MAX_SLOTS,
            k < npl,
            start.slot_to_char@[k as int] == l1_c,
            start.slot_to_char@[k + npl] == l2_c,
            key_violates(l1_c, l2_c, pairs@),
            (l2_c as int) < start.kp.num_chars,
            0 <= alt <= npl,
            first_accepting(start.slot_to_char@, npl as int, pairs@, l1_c, l2_c, 0) == first_accepting(
                start.slot_to_char@,
                npl as int,
                pairs@,
                l1_c,
                l2_c,
                alt as int,
            ),
        decreases npl - alt,
    {
        let alt_l2_c = layout.slot_to_char[alt + npl];
        if alt_l2_c < VOID_CHAR_FIRST && alt_l2_c != l2_c && !any_violates(pairs, l1_c, alt_l2_c) {
            let alt_l1_c = layout.slot_to_char[alt];
            if !(alt_l1_c != SHIFT_SLOT_SENTINEL && alt_l1_c < VOID_CHAR_FIRST && any_violates(pairs, alt_l1_c, l2_c)) {
                proof {
                    assert(start.slot_to_char@[alt + npl] != SHIFT_SLOT_SENTINEL);
                    assert((alt_l2_c as int) < start.kp.num_chars);
                    assert(start.char_to_slot@[l2_c as int] == k + npl);
                    assert(start.char_to_slot@[alt_l2_c as int] == alt + npl);
                    assert(alt != k);
                }
                layout.swap_chars(l2_c, alt_l2_c);
                proof {
                    lemma_swap_preserves_wf(start, *layout, l2_c, alt_l2_c);
                    let after = *layout;
                    assert(after.slot_to_char@[k as int] == l1_c);
                    assert(after.slot_to_char@[k + npl] == alt_l2_c);
                    assert(after.slot_to_char@[alt as int] == alt_l1_c);
                    assert(after.slot_to_char@[alt + npl] == l2_c);
                    assert(alt_accepts(start.slot_to_char@, npl as int, pairs@, l1_c, l2_c, alt as int));
                    assert(first_accepting(start.slot_to_char@, npl as int, pairs@, l1_c, l2_c, alt as int) == Some(
                        alt as int,
                    ));
                    assert(after.slot_to_char@ =~= start.slot_to_char@.update(k + npl, alt_l2_c).update(
                        alt + npl,
                        l2_c,
                    ));
                    assert(!key_bad(after, alt as int, pairs@));
                    assert forall|c: int|
                        0 <= c < MAX_CHARS && start.char_to_slot@[c] < start.kp.num_slots_per_layer implies #[trigger] after.char_to_slot@[c]
                            == start.char_to_slot@[c] by {}
                    assert forall|t: int|
                        0 <= t < MAX_SLOTS && t != k + npl && t != alt + npl implies #[trigger] after.slot_to_char@[t]
                            == start.slot_to_char@[t] by {}
                }
                return true;
            }
        }
        alt = alt + 1;
    }
    false
}

/// One pass over all keys: every key with a forbidden pair is repaired if
/// possible, or else reported. Returns whether any key had one.
fn repair_pass(layout: &mut Layout, pairs: &[ExclusivePair], warnings: &mut Vec<usize>) -> (any_violation: bool)
    requires
        old(layout).wf(),
    ensures
        final(layout).wf(),
        final(layout).kp == old(layout).kp,
        layer1_kept(*old(layout), *final(layout)),
        forall|i: int| 0 <= i < old(warnings)@.len() ==> #[trigger] final(warnings)@[i] == old(warnings)@[i],
        old(warnings)@.len() <= final(warnings)@.len(),
        forall|k: int|
            0 <= k < final(layout).kp.num_slots_per_layer && key_bad(*final(layout), k, pairs@) ==> #[trigger] final(warnings)@.contains(k as usize),
        !any_violation ==> *final(layout) == *old(layout) && !layout_violates(*final(layout), pairs@),
        !any_violation ==> final(warnings)@ == old(warnings)@,
        final(layout).slot_to_char@ == repair_pass_upto(
            old(layout).slot_to_char@,
            old(layout).kp.num_slots_per_layer as int,
            pairs@,
            old(layout).kp.num_slots_per_layer as int,
        ).0,
        final(warnings)@ == old(warnings)@ + repair_pass_upto(
            old(layout).slot_to_char@,
            old(layout).kp.num_slots_per_layer as int,
            pairs@,
            old(layout).kp.num_slots_per_layer as int,
        ).1,
        any_violation == repair_pass_upto(
            old(layout).slot_to_char@,
            old(layout).kp.num_slots_per_layer as int,
            pairs@,
            old(layout).kp.num_slots_per_layer as int,
        ).2,
{
    let npl = layout.kp.num_slots_per_layer as usize;
    let ghost start = *layout;
    let ghost start_w = warnings@;
    proof {
        assert(layout.kp == crate::layout::spec_k3x10() || layout.kp == crate::layout::spec_k3x11());
    }
    let mut any_violation = false;
    let mut l1_slot: usize = 0;
    while l1_slot < npl
        invariant
            layout.wf(),
            layout.kp == start.kp,
            npl == start.kp.num_slots_per_layer,
            2 * npl <= MAX_SLOTS,
            layer1_kept(start, *layout),
            forall|i: int| 0 <= i < start_w.len() ==> #[trigger] warnings@[i] == start_w[i],
            start_w.len() <= warnings@.len(),
            0 <= l1_slot <= npl,
            forall|k: int| 0 <= k < l1_slot && key_bad(*layout, k, pairs@) ==> #[trigger] warnings@.contains(k as usize),
            !any_violation ==> *layout == start && forall|k: int| 0 <= k < l1_slot ==> !#[trigger] key_bad(*layout, k, pairs@),
            !any_violation ==> warnings@ == start_w,
            layout.slot_to_char@ == repair_pass_upto(start.slot_to_char@, npl as int, pairs@, l1_slot as int).0,
            warnings@ == start_w + repair_pass_upto(start.slot_to_char@, npl as int, pairs@, l1_slot as int).1,
            any_violation == repair_pass_upto(start.slot_to_char@, npl as int, pairs@, l1_slot as int).2,
        decreases npl - l1_slot,
    {
        let l2_slot = l1_slot + npl;
        let l1_c = layout.slot_to_char[l1_slot];
        let l2_c = layout.slot_to_char[l2_slot];
        let ghost prev = repair_pass_upto(start.slot_to_char@, npl as int, pairs@, l1_slot as int);
        let ghost step = repair_key(prev.0, npl as int, pairs@, l1_slot as int);
        proof {
            assert(repair_pass_upto(start.slot_to_char@, npl as int, pairs@, l1_slot + 1) == (
                step.0,
                if step.1 { prev.1.push(l1_slot) } else { prev.1 },
                prev.2 || step.2,
            ));
        }
        if l1_c < VOID_CHAR_FIRST && l2_c < VOID_CHAR_FIRST && any_violates(pairs, l1_c, l2_c) {
            any_violation = true;
            let ghost before = *layout;
            let ghost before_w = warnings@;
            let fixed = fix_key(layout, pairs, l1_slot, l1_c, l2_c);
            if !fixed {
                warnings.push(l1_slot);
            }
            proof {
                assert(step.1 == !fixed);
                if !fixed {
                    assert(warnings@ =~= start_w + prev.1.push(l1_slot));
                }
            }
            proof {
                let after = *layout;
                assert forall|c: int|
                    0 <= c < MAX_CHARS && start.char_to_slot@[c] < start.kp.num_slots_per_layer implies #[trigger] after.char_to_slot@[c]
                        == start.char_to_slot@[c] by {
                    assert(before.char_to_slot@[c] == start.char_to_slot@[c]);
                }
                assert forall|i: int| 0 <= i < start_w.len() implies #[trigger] warnings@[i] == start_w[i] by {
                    assert(before_w[i] == start_w[i]);
                }
                assert forall|k: int| 0 <= k < l1_slot + 1 && key_bad(after, k, pairs@) implies #[trigger] warnings@.contains(k as usize) by {
                    if !fixed {
                        if k == l1_slot {
                            assert(warnings@[warnings@.len() - 1] == k as usize);
                        } else {
                            assert(before_w.contains(k as usize));
                            let w = choose|w: int| 0 <= w < before_w.len() && before_w[w] == k as usize;
                            assert(warnings@[w] == k as usize);
                        }
                    } else {
                        let alt = choose|alt: int|
                            0 <= alt < npl && alt != l1_slot && !key_bad(after, alt, pairs@) && forall|t: int|
                                0 <= t < MAX_SLOTS && t != l1_slot + npl && t != alt + npl ==> #[trigger] after.slot_to_char@[t]
                                    == before.slot_to_char@[t];
                        if k != alt && k != l1_slot {
                            assert(after.slot_to_char@[k] == before.slot_to_char@[k]);
                            assert(after.slot_to_char@[k + npl] == before.slot_to_char@[k + npl]);
                            assert(key_bad(before, k, pairs@));
                        }
                    }
                }
            }
        } else {
            proof {
                assert(!key_bad(*layout, l1_slot as int, pairs@));
            }
        }
        l1_slot = l1_slot + 1;
    }
    proof {
        if !any_violation {
            assert forall|k: int| 0 <= k < npl implies !#[trigger] key_violates(
                layout.slot_to_char@[k],
                layout.slot_to_char@[k + npl],
                pairs@,
            ) by {
                assert(!key_bad(*layout, k, pairs@));
            }
        }
    }
    any_violation
}

/// Without pair constraints a repair pass changes nothing and reports nothing.
proof fn lemma_pass_without_pairs(stc: Seq<CharId>, npl: int, pairs: Seq<ExclusivePair>, k: int)
    requires
        pairs.len() == 0,
    ensures
        repair_pass_upto(stc, npl, pairs, k) == (stc, Seq::<usize>::empty(), false),
    decreases k,
{
    if k > 0 {
        lemma_pass_without_pairs(stc, npl, pairs, k - 1);
        let prev = repair_pass_upto(stc, npl, pairs, k - 1);
        assert(!any_pair_violates(pairs, prev.0[k - 1], prev.0[k - 1 + npl]));
    }
}

/// A well-formed layout whose characters sit on their arranged slots has
/// the arranged slot table.
proof fn lemma_arranged_stc(l: Layout, kp: KeyboardParams, ranked: Seq<CharId>)
    requires
        l.wf(),
        l.kp == kp,
        forall|c: int| 0 <= c < MAX_CHARS ==> #[trigger] l.char_to_slot@[c] == spec_arranged_slot(kp, ranked, c as CharId),
    ensures
        l.slot_to_char@ == spec_arranged_stc(kp, ranked),
{
    assert(kp.num_chars <= MAX_CHARS);
    assert forall|s: int| 0 <= s < MAX_SLOTS implies l.slot_to_char@[s] == #[trigger] spec_arranged_stc(kp, ranked)[s] by {
        let x = l.slot_to_char@[s];
        if exists|c: int| 0 <= c < kp.num_chars && #[trigger] spec_arranged_slot(kp, ranked, c as CharId) == s {
            let c = choose|c: int| 0 <= c < kp.num_chars && #[trigger] spec_arranged_slot(kp, ranked, c as CharId) == s;
            assert(l.char_to_slot@[c] == s);
            assert(l.slot_to_char@[l.char_to_slot@[c] as int] == c);
        } else if s < kp.num_slots && x != SHIFT_SLOT_SENTINEL {
            assert(l.char_to_slot@[x as int] == s);
            assert(spec_arranged_slot(kp, ranked, (x as int) as CharId) == s);
            assert(false);
        }
    }
    assert(l.slot_to_char@ =~= spec_arranged_stc(kp, ranked));
}

/// Starting layout for the search: the starting arrangement with the most
/// frequent movable characters (the first free-slot-count of `ranked`)
/// brought to layer 1 by exchanging them pairwise with the layer-1
/// characters that may leave it and are not among them (movable characters
/// and the void placeholder), so that every one of them reaches layer 1; then, for up to 20 passes, each key
/// carrying a forbidden pair is repaired by exchanging layer-2 characters.
/// Returns the layout and the layer-1 slots of the keys that could not be
/// repaired, one entry per pass in which that happened.
pub fn arrange_initial_layout(kp: KeyboardParams, ranked: &[CharId], pairs: &[ExclusivePair]) -> (r: (Layout, Vec<usize>))
    requires
        kp.is_valid(),
        ranked@.no_duplicates(),
        forall|i: int| 0 <= i < ranked@.len() ==> is_movable_char(kp, #[trigger] ranked@[i]),
    ensures
        r.0.kp == kp,
        r.0.wf(),
        forall|c: int|
            0 <= c < MAX_CHARS && spec_arranged_slot(kp, ranked@, c as CharId) < kp.num_slots_per_layer ==> #[trigger] r.0.char_to_slot@[c]
                == spec_arranged_slot(kp, ranked@, c as CharId),
        pairs@.len() == 0 ==> r.1@.len() == 0 && forall|c: int|
            0 <= c < MAX_CHARS ==> #[trigger] r.0.char_to_slot@[c] == spec_arranged_slot(kp, ranked@, c as CharId),
        forall|k: int| 0 <= k < kp.num_slots_per_layer && key_bad(r.0, k, pairs@) ==> #[trigger] r.1@.contains(k as usize),
        r.0.slot_to_char@ == repair_passes(spec_arranged_stc(kp, ranked@), kp.num_slots_per_layer as int, pairs@, 20).0,
        r.1@ == repair_passes(spec_arranged_stc(kp, ranked@), kp.num_slots_per_layer as int, pairs@, 20).1,
        forall|j: int|
            0 <= j < spec_targets(kp, ranked@).len() ==> (#[trigger] r.0.char_to_slot@[spec_targets(kp, ranked@)[j] as int])
                < kp.num_slots_per_layer,
        forall|c: int|
            0 <= c < kp.num_chars && (spec_is_fixed(c as CharId, kp) || spec_is_l1_only_char(c as CharId))
                ==> #[trigger] r.0.char_to_slot@[c] == spec_initial_char_to_slot(kp.size)[c],
        search_invariant(r.0, r.0, pairs@),
{
    proof {
        lemma_arranged_targets(kp, ranked@);
    }
    let mut layout = arrange_by_rank(kp, ranked);
    let ghost arranged = layout;
    let ghost npl = kp.num_slots_per_layer as int;
    let ghost total = repair_passes(spec_arranged_stc(kp, ranked@), npl, pairs@, 20);
    proof {
        lemma_arranged_stc(layout, kp, ranked@);
    }
    let mut warnings: Vec<usize> = Vec::new();
    if pairs.len() == 0 {
        proof {
            assert forall|k: int| 0 <= k < kp.num_slots_per_layer implies !#[trigger] key_bad(layout, k, pairs@) by {}
            lemma_pass_without_pairs(layout.slot_to_char@, npl, pairs@, npl);
            assert(warnings@ =~= Seq::<usize>::empty());
        }
        return (layout, warnings);
    }
    proof {
        assert(warnings@ + repair_passes(layout.slot_to_char@, npl, pairs@, 20).1 =~= repair_passes(
            layout.slot_to_char@,
            npl,
            pairs@,
            20,
        ).1);
    }
    let mut pass: usize = 0;
    let mut done = false;
    while pass < 20 && !done
        invariant
            layout.wf(),
            layout.kp == kp,
            arranged.kp == kp,
            npl == kp.num_slots_per_layer as int,
            forall|c: int| 0 <= c < MAX_CHARS ==> #[trigger] arranged.char_to_slot@[c] == spec_arranged_slot(kp, ranked@, c as CharId),
            layer1_kept(arranged, layout),
            0 <= pass <= 20,
            pass > 0 ==> forall|k: int|
                0 <= k < kp.num_slots_per_layer && key_bad(layout, k, pairs@) ==> #[trigger] warnings@.contains(k as usize),
            done ==> pass > 0,
            done ==> total == (layout.slot_to_char@, warnings@),
            !done ==> total == (
                repair_passes(layout.slot_to_char@, npl, pairs@, (20 - pass) as nat).0,
                warnings@ + repair_passes(layout.slot_to_char@, npl, pairs@, (20 - pass) as nat).1,
            ),
        decreases 20 - pass,
    {
        let ghost before = layout;
        let ghost before_w = warnings@;
        let any_violation = repair_pass(&mut layout, pairs, &mut warnings);
        proof {
            let m = (20 - pass) as nat;
            let p = repair_pass_upto(before.slot_to_char@, npl, pairs@, npl);
            assert(repair_passes(before.slot_to_char@, npl, pairs@, m) == if !p.2 {
                (p.0, p.1)
            } else {
                let rest = repair_passes(p.0, npl, pairs@, (m - 1) as nat);
                (rest.0, p.1 + rest.1)
            });
            if any_violation {
                let rest = repair_passes(p.0, npl, pairs@, (m - 1) as nat);
                assert(before_w + (p.1 + rest.1) =~= warnings@ + rest.1);
            } else {
                assert(before_w + p.1 =~= warnings@);
            }
        }
        proof {
            assert forall|c: int|
                0 <= c < MAX_CHARS && arranged.char_to_slot@[c] < arranged.kp.num_slots_per_layer implies #[trigger] layout.char_to_slot@[c]
                    == arranged.char_to_slot@[c] by {
                assert(before.char_to_slot@[c] == arranged.char_to_slot@[c]);
            }
        }
        if !any_violation {
            done = true;
        }
        pass = pass + 1;
    }
    proof {
        if !done {
            assert(warnings@ + Seq::<usize>::empty() =~= warnings@);
        }
    }
    (layout, warnings)
}

/// Whether a move of `kind` exchanging `c1` and `c2` is held by the tabu list
/// of its kind.
pub open spec fn spec_is_tabu(kind: OpKind, c1: CharId, c2: CharId, l1: TabuList, l2: TabuList, inter: TabuList) -> bool {
    match kind {
        OpKind::SwapL1 => l1@.contains(spec_normalize_pair(c1, c2)),
        OpKind::SwapL2 => l2@.contains(spec_normalize_pair(c1, c2)),
        OpKind::InterLayer => inter@.contains(spec_normalize_pair(c1, c2)),
    }
}

/// A move is tabu exactly when the list of its own kind holds it, in either
/// order of its two characters; the lists of the other kinds do not matter.
pub proof fn lemma_tabu_own_list(c1: CharId, c2: CharId, l1: TabuList, l2: TabuList, inter: TabuList, other: TabuList)
    ensures
        spec_is_tabu(OpKind::SwapL1, c1, c2, l1, l2, inter) <==> l1@.contains(
            if c1 <= c2 { (c1, c2) } else { (c2, c1) },
        ),
        spec_is_tabu(OpKind::SwapL2, c1, c2, l1, l2, inter) <==> l2@.contains(
            if c1 <= c2 { (c1, c2) } else { (c2, c1) },
        ),
        spec_is_tabu(OpKind::InterLayer, c1, c2, l1, l2, inter) <==> inter@.contains(
            if c1 <= c2 { (c1, c2) } else { (c2, c1) },
        ),
        spec_is_tabu(OpKind::SwapL1, c1, c2, l1, other, other) == spec_is_tabu(OpKind::SwapL1, c1, c2, l1, l2, inter),
        spec_is_tabu(OpKind::SwapL2, c1, c2, other, l2, other) == spec_is_tabu(OpKind::SwapL2, c1, c2, l1, l2, inter),
        spec_is_tabu(OpKind::InterLayer, c1, c2, other, other, inter) == spec_is_tabu(
            OpKind::InterLayer,
            c1,
            c2,
            l1,
            l2,
            inter,
        ),
        spec_is_tabu(OpKind::InterLayer, c1, c2, l1, l2, inter) == spec_is_tabu(OpKind::InterLayer, c2, c1, l1, l2, inter),
{
}

/// A candidate may be taken when it is not tabu, or when it would beat the
/// best score found so far (aspiration).
pub open spec fn admissible(cand: (OpKind, CharId, CharId, bool), l1: TabuList, l2: TabuList, inter: TabuList) -> bool {
    !spec_is_tabu(cand.0, cand.1, cand.2, l1, l2, inter) || cand.3
}

/// Whether a move is tabu in the list of its kind.
pub fn is_tabu(kind: OpKind, c1: CharId, c2: CharId, l1: &TabuList, l2: &TabuList, inter: &TabuList) -> (r: bool)
    ensures
        r == spec_is_tabu(kind, c1, c2, *l1, *l2, *inter),
{
    match kind {
        OpKind::SwapL1 => l1.contains(c1, c2),
        OpKind::SwapL2 => l2.contains(c1, c2),
        OpKind::InterLayer => inter.contains(c1, c2),
    }
}

/// Picks the move to make from candidates given best first: the index of
/// the first one that is admissible, or `None` when every candidate is tabu
/// and none would beat the best score. Each candidate is its kind, its two
/// characters, and whether it would beat the best score.
pub fn first_admissible(
    cands: &[(OpKind, CharId, CharId, bool)],
    l1: &TabuList,
    l2: &TabuList,
    inter: &TabuList,
) -> (r: Option<usize>)
    ensures
        match r {
            Some(i) => {
                &&& i < cands@.len()
                &&& admissible(cands@[i as int], *l1, *l2, *inter)
                &&& forall|j: int| 0 <= j < i ==> !admissible(#[trigger] cands@[j], *l1, *l2, *inter)
            },
            None => forall|j: int| 0 <= j < cands@.len() ==> !admissible(#[trigger] cands@[j], *l1, *l2, *inter),
        },
{
    let mut i: usize = 0;
    while i < cands.len()
        invariant
            0 <= i <= cands@.len(),
            forall|j: int| 0 <= j < i ==> !admissible(#[trigger] cands@[j], *l1, *l2, *inter),
        decreases cands@.len() - i,
    {
        let (kind, c1, c2, aspires) = cands[i];
        if aspires || !is_tabu(kind, c1, c2, l1, l2, inter) {
            return Some(i);
        }
        i = i + 1;
    }
    None
}

/// Fixed parameters of the tabu tenure and restart schedule, for the three
/// move kinds (layer 1, layer 2, between layers).
pub struct TenureSchedule {
    /// Starting tenure of each list.
    pub base: [usize; 3],
    /// Largest tenure each list may grow to.
    pub max: [usize; 3],
    /// Growth step of each tenure.
    pub step: [usize; 3],
    /// Non-improving moves before tenures start to grow.
    pub grow_start: usize,
    /// Non-improving moves between two growth steps.
    pub grow_interval: usize,
    /// Non-improving moves that trigger a restart.
    pub restart_after: usize,
    /// Restarts allowed before the search stops.
    pub max_restarts: usize,
}

impl TenureSchedule {
    pub open spec fn well_formed(self) -> bool {
        forall|i: int| 0 <= i < 3 ==> #[trigger] self.base@[i] <= self.max@[i] && self.max@[i] + self.step@[i] <= usize::MAX
    }
}

/// Progress counters of the search that drive the schedule.
pub struct SearchProgress {
    /// Moves since the best score last improved (or since the last restart).
    pub no_improve: usize,
    /// Restarts made so far.
    pub restarts: usize,
    /// Current tenure of each tabu list.
    pub tenure: [usize; 3],
}

/// What the search does after the restart check.
#[derive(Clone, Copy, Debug, PartialEq, Eq, Structural)]
pub enum RestartDecision {
    /// Keep going.
    Continue,
    /// Restart from the best layout, perturbed, with fresh tabu lists.
    Restart,
    /// Stop: the restart budget is spent.
    Stop,
}

/// Tenures between their bases and their maxima.
pub open spec fn tenures_in_range(p: SearchProgress, s: TenureSchedule) -> bool {
    forall|i: int| 0 <= i < 3 ==> s.base@[i] <= #[trigger] p.tenure@[i] <= s.max@[i]
}

/// `(no_improve - grow_start)` is a positive multiple of the growth interval.
pub open spec fn is_growth_step(no_improve: int, s: TenureSchedule) -> bool {
    no_improve > s.grow_start && s.grow_interval > 0 && (no_improve - s.grow_start) % (s.grow_interval as int) == 0
}

impl SearchProgress {
    /// Counters at the start of a search: no moves, tenures at their bases.
    pub fn new(s: &TenureSchedule) -> (p: Self)
        ensures
            p.no_improve == 0,
            p.restarts == 0,
            p.tenure@ == s.base@,
    {
        SearchProgress { no_improve: 0, restarts: 0, tenure: s.base }
    }

    /// Updates the counters after a move. An improving move resets the
    /// count of non-improving moves and the tenures; a non-improving move
    /// counts, and at each growth step every tenure grows by its step, up to
    /// its maximum. Returns whether the tabu lists must be rebuilt (the
    /// tenures changed).
    pub fn after_move(&mut self, s: &TenureSchedule, improved: bool) -> (rebuild: bool)
        requires
            forall|i: int| 0 <= i < 3 ==> #[trigger] old(self).tenure@[i] + s.step@[i] <= usize::MAX,
            old(self).no_improve < usize::MAX,
        ensures
            s.well_formed() && tenures_in_range(*old(self), *s) ==> tenures_in_range(*final(self), *s),
            final(self).restarts == old(self).restarts,
            improved ==> final(self).no_improve == 0 && final(self).tenure@ == s.base@ && rebuild == (old(self).tenure@
                != s.base@),
            !improved ==> final(self).no_improve == old(self).no_improve + 1,
            !improved && !is_growth_step(final(self).no_improve as int, *s) ==> final(self).tenure@ == old(self).tenure@
                && !rebuild,
            !improved && is_growth_step(final(self).no_improve as int, *s) ==> {
                &&& forall|i: int|
                    0 <= i < 3 ==> #[trigger] final(self).tenure@[i] == if old(self).tenure@[i] + s.step@[i]
                        < s.max@[i] {
                        old(self).tenure@[i] + s.step@[i]
                    } else {
                        s.max@[i] as int
                    }
                &&& rebuild == exists|i: int| 0 <= i < 3 && #[trigger] old(self).tenure@[i] < s.max@[i]
            },
    {
        if improved {
            self.no_improve = 0;
            let changed = self.tenure[0] != s.base[0] || self.tenure[1] != s.base[1] || self.tenure[2] != s.base[2];
            self.tenure = s.base;
            proof {
                if !changed {
                    assert(old(self).tenure@ =~= s.base@);
                }
            }
            return changed;
        }
        self.no_improve = self.no_improve + 1;
        let grows = self.no_improve > s.grow_start && s.grow_interval != 0
            && (self.no_improve - s.grow_start) % s.grow_interval == 0;
        if !grows {
            return false;
        }
        let grew = self.tenure[0] < s.max[0] || self.tenure[1] < s.max[1] || self.tenure[2] < s.max[2];
        let mut i: usize = 0;
        while i < 3
            invariant
                0 <= i <= 3,
                self.restarts == old(self).restarts,
                self.no_improve == old(self).no_improve + 1,
                forall|j: int| 0 <= j < 3 ==> #[trigger] old(self).tenure@[j] + s.step@[j] <= usize::MAX,
                forall|j: int|
                    0 <= j < 3 ==> #[trigger] self.tenure@[j] == if j < i {
                        if old(self).tenure@[j] + s.step@[j] < s.max@[j] {
                            old(self).tenure@[j] + s.step@[j]
                        } else {
                            s.max@[j] as int
                        }
                    } else {
                        old(self).tenure@[j] as int
                    },
            decreases 3 - i,
        {
            let grown = self.tenure[i] + s.step[i];
            self.tenure[i] = if grown < s.max[i] { grown } else { s.max[i] };
            i = i + 1;
        }
        proof {
            if grew {
                assert(old(self).tenure@[0] < s.max@[0] || old(self).tenure@[1] < s.max@[1] || old(self).tenure@[2] < s.max@[2]);
            }
        }
        grew
    }

    /// The restart check after a move: once `restart_after` moves passed
    /// without improvement, the search restarts (counting the restart and
    /// resetting the count and the tenures) or, when the restart budget is
    /// spent, stops.
    pub fn restart_decision(&mut self, s: &TenureSchedule) -> (d: RestartDecision)
        requires
            old(self).restarts <= s.max_restarts,
        ensures
            final(self).restarts <= s.max_restarts,
            old(self).no_improve < s.restart_after ==> d == RestartDecision::Continue && *final(self) == *old(self),
            old(self).no_improve >= s.restart_after && old(self).restarts >= s.max_restarts ==> d == RestartDecision::Stop
                && *final(self) == *old(self),
            old(self).no_improve >= s.restart_after && old(self).restarts < s.max_restarts ==> {
                &&& d == RestartDecision::Restart
                &&& final(self).restarts == old(self).restarts + 1
                &&& final(self).no_improve == 0
                &&& final(self).tenure@ == s.base@
            },
    {
        if self.no_improve < s.restart_after {
            return RestartDecision::Continue;
        }
        if self.restarts >= s.max_restarts {
            return RestartDecision::Stop;
        }
        self.restarts = self.restarts + 1;
        self.no_improve = 0;
        self.tenure = s.base;
        RestartDecision::Restart
    }
}

} // verus!
