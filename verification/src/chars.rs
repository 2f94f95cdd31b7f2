use vstd::prelude::*;

verus! {

/// Identifier of a kana character: an index into `CHAR_LIST`, or a void id
/// (`VOID_CHAR_FIRST` and above) standing for an empty key position.
pub type CharId = u8;

/// Number of named characters in `CHAR_LIST`.
pub const NUM_CHARS: usize = 62;

/// Upper bound (exclusive) of character ids, void placeholders included.
pub const MAX_CHARS: usize = 64;

/// First id handed out to void placeholders (`□`).
pub const VOID_CHAR_FIRST: CharId = 62;

/// Id of the comma `、` (fixed on the D key of the 3x10 board).
pub const TOUTEN_ID: CharId = 12;
/// Id of the full stop `。` (fixed on the K key of the 3x10 board).
pub const KUTEN_ID: CharId = 17;
/// Id of the voicing mark `゛` (kept on layer 1).
pub const DAKUTEN_ID: CharId = 18;
/// Id of the semi-voicing mark `゜` (kept on layer 1).
pub const HANDAKUTEN_ID: CharId = 29;

/// All named characters; the position of a character is its `CharId`.
/// In the 3x10 starting layout, id `i` also sits on slot `i`.
pub const CHAR_LIST: [char; NUM_CHARS] = [
    'そ','こ','し','て','ょ','つ','ん','い','の','り',
    'は','か','、','と','た','く','う','。','゛','き',
    'す','け','に','な','さ','っ','る','ち','れ','゜',
    'ぁ','ひ','ほ','ふ','め','ぬ','え','み','や','ぇ',
    'ぃ','を','ら','あ','よ','ま','お','も','わ','ゆ',
    'ぅ','へ','せ','ゅ','ゃ','む','ろ','ね','ー','ぉ',
    '「','」',
];

/// Voiced and semi-voiced kana, each with its base kana and its mark.
pub const VOICED: [(char, char, char); 26] = [
    ('が','か','゛'),('ぎ','き','゛'),('ぐ','く','゛'),('げ','け','゛'),('ご','こ','゛'),
    ('ざ','さ','゛'),('じ','し','゛'),('ず','す','゛'),('ぜ','せ','゛'),('ぞ','そ','゛'),
    ('だ','た','゛'),('ぢ','ち','゛'),('づ','つ','゛'),('で','て','゛'),('ど','と','゛'),
    ('ば','は','゛'),('び','ひ','゛'),('ぶ','ふ','゛'),('べ','へ','゛'),('ぼ','ほ','゛'),
    ('ぱ','は','゜'),('ぴ','ひ','゜'),('ぷ','ふ','゜'),('ぺ','へ','゜'),('ぽ','ほ','゜'),
    ('ゔ','う','゛'),
];

/// `i` is the first position of `c` in `CHAR_LIST`.
pub open spec fn is_first_char_index(c: char, i: int) -> bool {
    &&& 0 <= i < NUM_CHARS
    &&& CHAR_LIST@[i] == c
    &&& forall|j: int| 0 <= j < i ==> CHAR_LIST@[j] != c
}

/// The id of a named character, if `c` is one.
pub open spec fn spec_char_id(c: char) -> Option<CharId> {
    if exists|i: int| is_first_char_index(c, i) {
        Some((choose|i: int| is_first_char_index(c, i)) as CharId)
    } else {
        None
    }
}

/// `i` is the first row of `VOICED` whose voiced kana is `c`.
pub open spec fn is_first_voiced_index(c: char, i: int) -> bool {
    &&& 0 <= i < 26
    &&& VOICED@[i].0 == c
    &&& forall|j: int| 0 <= j < i ==> VOICED@[j].0 != c
}

/// Base kana and mark of a voiced kana, if `c` is one.
pub open spec fn spec_voiced_parts(c: char) -> Option<(char, char)> {
    if exists|i: int| is_first_voiced_index(c, i) {
        let i = choose|i: int| is_first_voiced_index(c, i);
        Some((VOICED@[i].1, VOICED@[i].2))
    } else {
        None
    }
}

/// The ids one corpus character stands for: its own id, or the ids of its
/// base kana and its mark, or nothing for a character outside the layout.
pub open spec fn spec_decompose(c: char) -> Seq<CharId> {
    match spec_char_id(c) {
        Some(id) => seq![id],
        None => match spec_voiced_parts(c) {
            Some((base, mark)) => match (spec_char_id(base), spec_char_id(mark)) {
                (Some(b), Some(m)) => seq![b, m],
                _ => Seq::empty(),
            },
            None => Seq::empty(),
        },
    }
}

proof fn lemma_first_char_index_unique(c: char, i: int, k: int)
    requires
        is_first_char_index(c, i),
        is_first_char_index(c, k),
    ensures
        i == k,
{
}

proof fn lemma_first_voiced_index_unique(c: char, i: int, k: int)
    requires
        is_first_voiced_index(c, i),
        is_first_voiced_index(c, k),
    ensures
        i == k,
{
}

/// A named character's id is its position in `CHAR_LIST`.
pub proof fn lemma_char_id_bound(c: char)
    ensures
        spec_char_id(c) matches Some(id) ==> (id as int) < NUM_CHARS && CHAR_LIST@[id as int] == c,
{
    if exists|i: int| is_first_char_index(c, i) {
        let i = choose|i: int| is_first_char_index(c, i);
        assert(i as CharId as int == i);
    }
}

/// Every id a character decomposes into is a named character's id.
pub proof fn lemma_decompose_ids_bound(c: char)
    ensures
        forall|k: int| 0 <= k < spec_decompose(c).len() ==> (#[trigger] spec_decompose(c)[k] as int) < NUM_CHARS,
        spec_decompose(c).len() <= 2,
{
    lemma_char_id_bound(c);
    if let Some((base, mark)) = spec_voiced_parts(c) {
        lemma_char_id_bound(base);
        lemma_char_id_bound(mark);
    }
}

/// Lookup table from characters to their ids.
pub struct CharMap {
    table: [char; NUM_CHARS],
}

impl CharMap {
    #[verifier::type_invariant]
    spec fn table_is_char_list(self) -> bool {
        self.table@ == CHAR_LIST@
    }

    /// The id of `c`, if `c` is a named character.
    pub fn get(&self, c: char) -> (r: Option<CharId>)
        ensures
            r == spec_char_id(c),
    {
        proof {
            use_type_invariant(self);
        }
        let mut i: usize = 0;
        while i < NUM_CHARS
            invariant
                0 <= i <= NUM_CHARS,
                self.table@ == CHAR_LIST@,
                forall|j: int| 0 <= j < i ==> CHAR_LIST@[j] != c,
            decreases NUM_CHARS - i,
        {
            if self.table[i] == c {
                proof {
                    assert(is_first_char_index(c, i as int));
                    let k = choose|k: int| is_first_char_index(c, k);
                    lemma_first_char_index_unique(c, i as int, k);
                }
                return Some(i as CharId);
            }
            i = i + 1;
        }
        None
    }
}

/// `i` is the first position of `c` in the table `t`.
pub open spec fn is_first_index_in(t: Seq<char>, c: char, i: int) -> bool {
    &&& 0 <= i < t.len()
    &&& t[i] == c
    &&& forall|j: int| 0 <= j < i ==> t[j] != c
}

/// Position of the first occurrence of `c` in the table `t`, if any.
pub open spec fn index_in(t: Seq<char>, c: char) -> Option<CharId> {
    if exists|i: int| is_first_index_in(t, c, i) {
        Some((choose|i: int| is_first_index_in(t, c, i)) as CharId)
    } else {
        None
    }
}

/// Looking a character up in `CHAR_LIST` gives its id.
proof fn lemma_index_in_char_list(c: char)
    ensures
        index_in(CHAR_LIST@, c) == spec_char_id(c),
{
    assert(CHAR_LIST@.len() == NUM_CHARS);
    assert forall|i: int| is_first_index_in(CHAR_LIST@, c, i) <==> is_first_char_index(c, i) by {}
    if exists|i: int| is_first_char_index(c, i) {
        let k = choose|k: int| is_first_char_index(c, k);
        assert(is_first_index_in(CHAR_LIST@, c, k));
        let i = choose|i: int| is_first_index_in(CHAR_LIST@, c, i);
        assert(is_first_char_index(c, i));
        lemma_first_char_index_unique(c, i, k);
        assert(index_in(CHAR_LIST@, c) == Some(i as CharId));
    } else {
        assert forall|i: int| !is_first_index_in(CHAR_LIST@, c, i) by {
            assert(!is_first_char_index(c, i));
        }
    }
}

impl View for CharMap {
    type V = Map<char, CharId>;

    /// Each character of the table, mapped to its first position there.
    closed spec fn view(&self) -> Map<char, CharId> {
        Map::new(|c: char| index_in(self.table@, c) is Some, |c: char| index_in(self.table@, c)->0)
    }
}

/// Builds the lookup table from characters to ids: it maps exactly the
/// named characters, each to its id.
pub fn build_char_to_id() -> (m: CharMap)
    ensures
        forall|c: char| #[trigger] m@.contains_key(c) <==> spec_char_id(c) is Some,
        forall|c: char| m@.contains_key(c) ==> #[trigger] m@[c] == spec_char_id(c)->0,
{
    let m = CharMap { table: CHAR_LIST };
    proof {
        assert(m.table@ == CHAR_LIST@);
        assert forall|c: char| #[trigger] m@.contains_key(c) <==> spec_char_id(c) is Some by {
            lemma_index_in_char_list(c);
        }
        assert forall|c: char| m@.contains_key(c) implies #[trigger] m@[c] == spec_char_id(c)->0 by {
            lemma_index_in_char_list(c);
        }
    }
    m
}

/// Base kana and mark of a voiced kana (`が` gives `か` and `゛`).
fn voiced_parts(c: char) -> (r: Option<(char, char)>)
    ensures
        r == spec_voiced_parts(c),
{
    let mut i: usize = 0;
    while i < 26
        invariant
            0 <= i <= 26,
            forall|j: int| 0 <= j < i ==> VOICED@[j].0 != c,
        decreases 26 - i,
    {
        let (v, base, mark) = VOICED[i];
        if v == c {
            proof {
                assert(is_first_voiced_index(c, i as int));
                let k = choose|k: int| is_first_voiced_index(c, k);
                lemma_first_voiced_index_unique(c, i as int, k);
            }
            return Some((base, mark));
        }
        i = i + 1;
    }
    None
}

/// Splits one corpus character into the ids that are typed for it:
/// a named character gives its own id, a voiced or semi-voiced kana gives
/// its base kana and its mark, anything else gives nothing.
pub fn decompose(c: char, map: &CharMap) -> (r: ArrayVec2)
    ensures
        r@ == spec_decompose(c),
{
    if let Some(id) = map.get(c) {
        return ArrayVec2::one(id);
    }
    if let Some((base, mark)) = voiced_parts(c) {
        if let (Some(bid), Some(did)) = (map.get(base), map.get(mark)) {
            return ArrayVec2::two(bid, did);
        }
    }
    ArrayVec2::empty()
}

/// A list of at most two character ids, stored inline.
#[derive(Clone, Copy)]
pub struct ArrayVec2 {
    data: [CharId; 2],
    len: u8,
}

impl ArrayVec2 {
    #[verifier::type_invariant]
    spec fn len_at_most_two(self) -> bool {
        self.len <= 2
    }

    pub fn empty() -> (r: Self)
        ensures
            r@ == Seq::<CharId>::empty(),
    {
        Self { data: [0; 2], len: 0 }
    }

    pub fn one(a: CharId) -> (r: Self)
        ensures
            r@ == seq![a],
    {
        Self { data: [a, 0], len: 1 }
    }

    pub fn two(a: CharId, b: CharId) -> (r: Self)
        ensures
            r@ == seq![a, b],
    {
        Self { data: [a, b], len: 2 }
    }

    pub fn as_slice(&self) -> (r: &[CharId])
        ensures
            r@ == self@,
    {
        proof {
            use_type_invariant(self);
        }
        &self.data[0..self.len as usize]
    }
}

impl View for ArrayVec2 {
    type V = Seq<CharId>;

    closed spec fn view(&self) -> Seq<CharId> {
        self.data@.subrange(0, self.len as int)
    }
}


/// Collects characters into a `String` (`Iterator::collect` over the
/// characters); the string holds exactly those characters, in order.
#[verifier::external_body]
pub(crate) fn string_from_chars(v: &Vec<char>) -> (s: String)
    ensures
        s@ == v@,
{
    v.iter().collect()
}

/// The characters of the given ids, in order, as text.
pub fn glyphs(ids: &[CharId]) -> (s: String)
    requires
        forall|i: int| 0 <= i < ids@.len() ==> #[trigger] ids@[i] < NUM_CHARS,
    ensures
        s@ == ids@.map_values(|c: CharId| CHAR_LIST[c as int]),
{
    let mut out: Vec<char> = Vec::new();
    let mut i: usize = 0;
    while i < ids.len()
        invariant
            0 <= i <= ids@.len(),
            forall|k: int| 0 <= k < ids@.len() ==> #[trigger] ids@[k] < NUM_CHARS,
            out@ == ids@.subrange(0, i as int).map_values(|c: CharId| CHAR_LIST[c as int]),
        decreases ids@.len() - i,
    {
        out.push(CHAR_LIST[ids[i] as usize]);
        i = i + 1;
        assert(ids@.subrange(0, i as int) == ids@.subrange(0, i - 1).push(ids@[i - 1]));
    }
    assert(ids@.subrange(0, ids@.len() as int) == ids@);
    string_from_chars(&out)
}

} // verus!
