use vstd::prelude::*;

use crate::chars::{build_char_to_id, decompose, lemma_decompose_ids_bound, spec_decompose, CharId, CharMap, MAX_CHARS, NUM_CHARS};

verus! {

/// One unit of a corpus after decomposition: a character id, or a break
/// where a character outside the layout cut the text.
pub enum Token {
    Id(CharId),
    Break,
}

/// Tokens of one corpus character: none for a line break, a break for a
/// character outside the layout, otherwise its ids.
pub open spec fn char_tokens(c: char) -> Seq<Token> {
    if c == '\n' || c == '\r' {
        Seq::empty()
    } else if spec_decompose(c).len() == 0 {
        seq![Token::Break]
    } else {
        spec_decompose(c).map_values(|id: CharId| Token::Id(id))
    }
}

pub open spec fn spec_tokens(text: Seq<char>) -> Seq<Token>
    decreases text.len(),
{
    if text.len() == 0 {
        Seq::empty()
    } else {
        spec_tokens(text.drop_last()) + char_tokens(text.last())
    }
}

/// Occurrences of id `c`.
pub open spec fn count_uni(t: Seq<Token>, c: CharId) -> nat
    decreases t.len(),
{
    if t.len() == 0 {
        0
    } else {
        count_uni(t.drop_last(), c) + if t.last() == Token::Id(c) { 1nat } else { 0nat }
    }
}

/// Occurrences of id `a` directly followed by id `b` (no break between).
pub open spec fn count_bi(t: Seq<Token>, a: CharId, b: CharId) -> nat
    decreases t.len(),
{
    if t.len() < 2 {
        0
    } else {
        count_bi(t.drop_last(), a, b) + if t[t.len() - 2] == Token::Id(a) && t.last() == Token::Id(b) {
            1nat
        } else {
            0nat
        }
    }
}

/// Occurrences of ids `a`, `b`, `c` in a row.
pub open spec fn count_tri(t: Seq<Token>, a: CharId, b: CharId, c: CharId) -> nat
    decreases t.len(),
{
    if t.len() < 3 {
        0
    } else {
        count_tri(t.drop_last(), a, b, c) + if t[t.len() - 3] == Token::Id(a) && t[t.len() - 2] == Token::Id(b)
            && t.last() == Token::Id(c) {
            1nat
        } else {
            0nat
        }
    }
}

/// Number of ids.
pub open spec fn count_ids(t: Seq<Token>) -> nat
    decreases t.len(),
{
    if t.len() == 0 {
        0
    } else {
        count_ids(t.drop_last()) + if t.last() is Id { 1nat } else { 0nat }
    }
}

/// Number of breaks.
pub open spec fn count_breaks(t: Seq<Token>) -> nat
    decreases t.len(),
{
    if t.len() == 0 {
        0
    } else {
        count_breaks(t.drop_last()) + if t.last() is Break { 1nat } else { 0nat }
    }
}

/// Number of maximal runs of ids (segments between breaks).
pub open spec fn count_segments(t: Seq<Token>) -> nat
    decreases t.len(),
{
    if t.len() == 0 {
        0
    } else {
        count_segments(t.drop_last()) + if t.last() is Id && (t.len() == 1 || t[t.len() - 2] is Break) {
            1nat
        } else {
            0nat
        }
    }
}

pub open spec fn bi_index(a: int, b: int) -> int {
    a * 64 + b
}

pub open spec fn tri_index(a: int, b: int, c: int) -> int {
    a * 4096 + b * 64 + c
}

/// The id of the last token, if it is an id.
pub open spec fn last_id(t: Seq<Token>) -> Option<CharId> {
    if t.len() >= 1 && t.last() is Id {
        Some(t.last()->Id_0)
    } else {
        None
    }
}

/// The id of the token before the last, if both are ids.
pub open spec fn second_last_id(t: Seq<Token>) -> Option<CharId> {
    if t.len() >= 2 && t.last() is Id && t[t.len() - 2] is Id {
        Some(t[t.len() - 2]->Id_0)
    } else {
        None
    }
}

pub open spec fn ids_bounded(t: Seq<Token>) -> bool {
    forall|i: int| 0 <= i < t.len() && (#[trigger] t[i]) is Id ==> (t[i]->Id_0 as int) < NUM_CHARS
}

/// Running n-gram counts over a token stream.
struct NgramCounter {
    uni: Vec<u64>,
    bi: Vec<u64>,
    tri: Vec<u64>,
    prev1: Option<CharId>,
    prev2: Option<CharId>,
    total: u64,
    skipped: u64,
    segments: u64,
    toks: Ghost<Seq<Token>>,
}

impl NgramCounter {
    spec fn inv(self) -> bool {
        let t = self.toks@;
        &&& self.uni@.len() == 64
        &&& self.bi@.len() == 4096
        &&& self.tri@.len() == 262144
        &&& ids_bounded(t)
        &&& t.len() < 0x8000_0000_0000_0000
        &&& forall|c: int| 0 <= c < 64 ==> #[trigger] self.uni@[c] == count_uni(t, c as CharId)
        &&& forall|a: int, b: int|
            0 <= a < 64 && 0 <= b < 64 ==> #[trigger] self.bi@[bi_index(a, b)] == count_bi(t, a as CharId, b as CharId)
        &&& forall|a: int, b: int, c: int|
            0 <= a < 64 && 0 <= b < 64 && 0 <= c < 64 ==> #[trigger] self.tri@[tri_index(a, b, c)] == count_tri(
                t,
                a as CharId,
                b as CharId,
                c as CharId,
            )
        &&& forall|c: int| 0 <= c < 64 ==> #[trigger] self.uni@[c] <= t.len()
        &&& forall|i: int| 0 <= i < 4096 ==> #[trigger] self.bi@[i] <= t.len()
        &&& forall|i: int| 0 <= i < 262144 ==> #[trigger] self.tri@[i] <= t.len()
        &&& self.prev1 == last_id(t)
        &&& self.prev2 == second_last_id(t)
        &&& self.total == count_ids(t)
        &&& self.skipped == count_breaks(t)
        &&& self.segments == count_segments(t)
        &&& self.total <= t.len()
        &&& self.skipped <= t.len()
        &&& self.segments <= t.len()
    }

    fn new() -> (r: Self)
        ensures
            r.inv(),
            r.toks@ == Seq::<Token>::empty(),
    {
        let r = NgramCounter {
            uni: vec![0u64; 64],
            bi: vec![0u64; 4096],
            tri: vec![0u64; 262144],
            prev1: None,
            prev2: None,
            total: 0,
            skipped: 0,
            segments: 0,
            toks: Ghost(Seq::empty()),
        };
        r
    }

    fn add_break(&mut self)
        requires
            old(self).inv(),
            old(self).toks@.len() + 1 < 0x8000_0000_0000_0000,
        ensures
            final(self).inv(),
            final(self).toks@ == old(self).toks@.push(Token::Break),
    {
        let ghost t = self.toks@;
        let ghost t2 = t.push(Token::Break);
        proof {
            assert(t2.drop_last() =~= t);
            assert forall|c: int| 0 <= c < 64 implies #[trigger] count_uni(t2, c as CharId) == count_uni(t, c as CharId) by {}
            assert forall|a: int, b: int| 0 <= a < 64 && 0 <= b < 64 implies #[trigger] count_bi(t2, a as CharId, b as CharId) == count_bi(t, a as CharId, b as CharId) by {}
            assert forall|a: int, b: int, c: int| 0 <= a < 64 && 0 <= b < 64 && 0 <= c < 64 implies #[trigger] count_tri(t2, a as CharId, b as CharId, c as CharId) == count_tri(t, a as CharId, b as CharId, c as CharId) by {}
        }
        self.skipped = self.skipped + 1;
        self.prev1 = None;
        self.prev2 = None;
        self.toks = Ghost(t2);
    }

    #[verifier::spinoff_prover]
    #[verifier::rlimit(80)]
    fn add_id(&mut self, x: CharId)
        requires
            old(self).inv(),
            (x as int) < NUM_CHARS,
            old(self).toks@.len() + 1 < 0x8000_0000_0000_0000,
        ensures
            final(self).inv(),
            final(self).toks@ == old(self).toks@.push(Token::Id(x)),
    {
        let ghost t = self.toks@;
        let ghost t2 = t.push(Token::Id(x));
        proof {
            assert(t2.drop_last() =~= t);
        }
        let cu = self.uni[x as usize];
        self.uni.set(x as usize, cu + 1);
        match self.prev1 {
            Some(p) => {
                let bidx = (p as usize) * 64 + (x as usize);
                let cb = self.bi[bidx];
                self.bi.set(bidx, cb + 1);
                match self.prev2 {
                    Some(q) => {
                        let tidx = (q as usize) * 4096 + (p as usize) * 64 + (x as usize);
                        let ct = self.tri[tidx];
                        self.tri.set(tidx, ct + 1);
                    },
                    None => {},
                }
            },
            None => {
                self.segments = self.segments + 1;
            },
        }
        self.total = self.total + 1;
        self.prev2 = self.prev1;
        self.prev1 = Some(x);
        self.toks = Ghost(t2);
        proof {
            let s = *self;
            assert forall|c: int| 0 <= c < 64 implies #[trigger] s.uni@[c] == count_uni(t2, c as CharId) by {}
            assert forall|a: int, b: int| 0 <= a < 64 && 0 <= b < 64 implies #[trigger] s.bi@[bi_index(a, b)] == count_bi(t2, a as CharId, b as CharId) by {
                if t.len() >= 1 && t.last() == Token::Id(a as CharId) && b == x {
                } else {
                    assert(!(t2[t2.len() - 2] == Token::Id(a as CharId) && t2.last() == Token::Id(b as CharId)) || t.len() == 0);
                }
            }
            assert forall|a: int, b: int, c: int| 0 <= a < 64 && 0 <= b < 64 && 0 <= c < 64 implies #[trigger] s.tri@[tri_index(a, b, c)] == count_tri(t2, a as CharId, b as CharId, c as CharId) by {
            }
            assert forall|i: int| 0 <= i < t2.len() && (#[trigger] t2[i]) is Id implies (t2[i]->Id_0 as int) < NUM_CHARS by {
                if i < t.len() {
                    assert(t2[i] == t[i]);
                }
            }
        }
    }
}

/// N-gram statistics of a corpus, as counts.
pub struct NgramCounts {
    /// `unigrams[c]`: occurrences of id `c` (64 entries).
    pub unigrams: Vec<u64>,
    /// Bigrams `(c1, c2, count)` with a positive count, in increasing order of `(c1, c2)`.
    pub bigrams: Vec<(CharId, CharId, u64)>,
    /// Trigrams `(c1, c2, c3, count)` with a positive count, in increasing order.
    pub trigrams: Vec<(CharId, CharId, CharId, u64)>,
    /// Ids in the corpus.
    pub total_chars: u64,
    /// Characters outside the layout.
    pub skipped_chars: u64,
    /// Runs of ids between such characters.
    pub segments: u64,
}

pub open spec fn bigram_key(e: (CharId, CharId, u64)) -> int {
    bi_index(e.0 as int, e.1 as int)
}

pub open spec fn trigram_key(e: (CharId, CharId, CharId, u64)) -> int {
    tri_index(e.0 as int, e.1 as int, e.2 as int)
}

/// `v` lists exactly the bigrams with a positive count in `t`, with their
/// counts, in increasing order.
pub open spec fn lists_bigrams(v: Seq<(CharId, CharId, u64)>, t: Seq<Token>) -> bool {
    &&& forall|i: int, j: int| 0 <= i < j < v.len() ==> bigram_key(v[i]) < bigram_key(v[j])
    &&& forall|i: int|
        0 <= i < v.len() ==> (#[trigger] v[i]).2 == count_bi(t, v[i].0, v[i].1) && v[i].2 > 0 && (v[i].0 as int)
            < 64 && (v[i].1 as int) < 64
    &&& forall|a: CharId, b: CharId|
        #[trigger] count_bi(t, a, b) > 0 ==> exists|i: int| 0 <= i < v.len() && v[i].0 == a && v[i].1 == b
}

pub open spec fn lists_trigrams(v: Seq<(CharId, CharId, CharId, u64)>, t: Seq<Token>) -> bool {
    &&& forall|i: int, j: int| 0 <= i < j < v.len() ==> trigram_key(v[i]) < trigram_key(v[j])
    &&& forall|i: int|
        0 <= i < v.len() ==> (#[trigger] v[i]).3 == count_tri(t, v[i].0, v[i].1, v[i].2) && v[i].3 > 0 && (v[i].0 as int)
            < 64 && (v[i].1 as int) < 64 && (v[i].2 as int) < 64
    &&& forall|a: CharId, b: CharId, c: CharId|
        #[trigger] count_tri(t, a, b, c) > 0 ==> exists|i: int|
            0 <= i < v.len() && v[i].0 == a && v[i].1 == b && v[i].2 == c
}

proof fn lemma_count_bi_ids(t: Seq<Token>, a: CharId, b: CharId)
    requires
        ids_bounded(t),
        count_bi(t, a, b) > 0,
    ensures
        (a as int) < NUM_CHARS,
        (b as int) < NUM_CHARS,
    decreases t.len(),
{
    let u = t.drop_last();
    assert forall|i: int| 0 <= i < u.len() && (#[trigger] u[i]) is Id implies (u[i]->Id_0 as int) < NUM_CHARS by {
        assert(u[i] == t[i]);
    }
    if count_bi(u, a, b) > 0 {
        lemma_count_bi_ids(u, a, b);
    } else {
        assert(t[t.len() - 2] is Id);
        assert(t[t.len() - 1] is Id);
    }
}

proof fn lemma_count_tri_ids(t: Seq<Token>, a: CharId, b: CharId, c: CharId)
    requires
        ids_bounded(t),
        count_tri(t, a, b, c) > 0,
    ensures
        (a as int) < NUM_CHARS,
        (b as int) < NUM_CHARS,
        (c as int) < NUM_CHARS,
    decreases t.len(),
{
    let u = t.drop_last();
    assert forall|i: int| 0 <= i < u.len() && (#[trigger] u[i]) is Id implies (u[i]->Id_0 as int) < NUM_CHARS by {
        assert(u[i] == t[i]);
    }
    if count_tri(u, a, b, c) > 0 {
        lemma_count_tri_ids(u, a, b, c);
    } else {
        assert(t[t.len() - 3] is Id);
        assert(t[t.len() - 2] is Id);
        assert(t[t.len() - 1] is Id);
    }
}

impl NgramCounter {
    #[verifier::spinoff_prover]
    fn bigram_list(&self) -> (v: Vec<(CharId, CharId, u64)>)
        requires
            self.inv(),
        ensures
            lists_bigrams(v@, self.toks@),
    {
        let mut v: Vec<(CharId, CharId, u64)> = Vec::new();
        let mut k: usize = 0;
        while k < 4096
            invariant
                self.inv(),
                0 <= k <= 4096,
                forall|i: int, j: int| 0 <= i < j < v@.len() ==> bigram_key(v@[i]) < bigram_key(v@[j]),
                forall|i: int| 0 <= i < v@.len() ==> bigram_key(#[trigger] v@[i]) < k,
                forall|i: int|
                    0 <= i < v@.len() ==> (#[trigger] v@[i]).2 == count_bi(self.toks@, v@[i].0, v@[i].1) && v@[i].2
                        > 0 && (v@[i].0 as int) < 64 && (v@[i].1 as int) < 64,
                forall|a: int, b: int|
                    0 <= a < 64 && 0 <= b < 64 && bi_index(a, b) < k && #[trigger] count_bi(self.toks@, a as CharId, b as CharId) > 0
                        ==> exists|i: int| 0 <= i < v@.len() && v@[i].0 == a && v@[i].1 == b,
            decreases 4096 - k,
        {
            let cnt = self.bi[k];
            let a = (k / 64) as CharId;
            let b = (k % 64) as CharId;
            assert(bi_index(a as int, b as int) == k);
            if cnt > 0 {
                let ghost old_v = v@;
                v.push((a, b, cnt));
                proof {
                    assert forall|i: int| 0 <= i < old_v.len() implies v@[i] == old_v[i] by {}
                    assert(v@[old_v.len() as int] == (a, b, cnt));
                }
            }
            proof {
                assert forall|aa: int, bb: int|
                    0 <= aa < 64 && 0 <= bb < 64 && bi_index(aa, bb) < k + 1 && #[trigger] count_bi(self.toks@, aa as CharId, bb as CharId) > 0
                        implies exists|i: int| 0 <= i < v@.len() && v@[i].0 == aa && v@[i].1 == bb by {
                    if bi_index(aa, bb) == k {
                        assert(aa == a && bb == b);
                        assert(v@[v@.len() - 1].0 == aa && v@[v@.len() - 1].1 == bb);
                    }
                }
            }
            k = k + 1;
        }
        proof {
            assert forall|a: CharId, b: CharId| #[trigger] count_bi(self.toks@, a, b) > 0 implies exists|i: int|
                0 <= i < v@.len() && v@[i].0 == a && v@[i].1 == b by {
                lemma_count_bi_ids(self.toks@, a, b);
                assert(count_bi(self.toks@, a as int as CharId, b as int as CharId) > 0);
            }
        }
        v
    }

    #[verifier::spinoff_prover]
    #[verifier::rlimit(80)]
    fn trigram_list(&self) -> (v: Vec<(CharId, CharId, CharId, u64)>)
        requires
            self.inv(),
        ensures
            lists_trigrams(v@, self.toks@),
    {
        let mut v: Vec<(CharId, CharId, CharId, u64)> = Vec::new();
        let mut k: usize = 0;
        while k < 262144
            invariant
                self.inv(),
                0 <= k <= 262144,
                forall|i: int, j: int| 0 <= i < j < v@.len() ==> trigram_key(v@[i]) < trigram_key(v@[j]),
                forall|i: int| 0 <= i < v@.len() ==> trigram_key(#[trigger] v@[i]) < k,
                forall|i: int|
                    0 <= i < v@.len() ==> (#[trigger] v@[i]).3 == count_tri(self.toks@, v@[i].0, v@[i].1, v@[i].2)
                        && v@[i].3 > 0 && (v@[i].0 as int) < 64 && (v@[i].1 as int) < 64 && (v@[i].2 as int) < 64,
                forall|a: int, b: int, c: int|
                    0 <= a < 64 && 0 <= b < 64 && 0 <= c < 64 && tri_index(a, b, c) < k && #[trigger] count_tri(
                        self.toks@,
                        a as CharId,
                        b as CharId,
                        c as CharId,
                    ) > 0 ==> exists|i: int| 0 <= i < v@.len() && v@[i].0 == a && v@[i].1 == b && v@[i].2 == c,
            decreases 262144 - k,
        {
            let cnt = self.tri[k];
            let a = (k / 4096) as CharId;
            let b = ((k / 64) % 64) as CharId;
            let c = (k % 64) as CharId;
            assert(tri_index(a as int, b as int, c as int) == k);
            if cnt > 0 {
                let ghost old_v = v@;
                v.push((a, b, c, cnt));
                proof {
                    assert forall|i: int| 0 <= i < old_v.len() implies v@[i] == old_v[i] by {}
                    assert(v@[old_v.len() as int] == (a, b, c, cnt));
                }
            }
            proof {
                assert forall|aa: int, bb: int, cc: int|
                    0 <= aa < 64 && 0 <= bb < 64 && 0 <= cc < 64 && tri_index(aa, bb, cc) < k + 1 && #[trigger] count_tri(
                        self.toks@,
                        aa as CharId,
                        bb as CharId,
                        cc as CharId,
                    ) > 0 implies exists|i: int| 0 <= i < v@.len() && v@[i].0 == aa && v@[i].1 == bb && v@[i].2 == cc by {
                    if tri_index(aa, bb, cc) == k {
                        assert(aa == a && bb == b && cc == c);
                        assert(v@[v@.len() - 1].0 == aa && v@[v@.len() - 1].1 == bb && v@[v@.len() - 1].2 == cc);
                    }
                }
            }
            k = k + 1;
        }
        proof {
            assert forall|a: CharId, b: CharId, c: CharId| #[trigger] count_tri(self.toks@, a, b, c) > 0 implies exists|i: int|
                0 <= i < v@.len() && v@[i].0 == a && v@[i].1 == b && v@[i].2 == c by {
                lemma_count_tri_ids(self.toks@, a, b, c);
                assert(count_tri(self.toks@, a as int as CharId, b as int as CharId, c as int as CharId) > 0);
            }
        }
        v
    }
}

/// Counts the unigrams, bigrams and trigrams of a corpus. Each character
/// is decomposed (voiced kana into base kana and mark); line breaks are
/// skipped; any other character outside the layout cuts the text, and no
/// n-gram spans a cut.
pub fn count_ngrams(text: &str) -> (r: NgramCounts)
    requires
        text@.len() < 0x2000_0000_0000_0000,
    ensures
        r.unigrams@.len() == MAX_CHARS,
        forall|c: int| 0 <= c < MAX_CHARS ==> #[trigger] r.unigrams@[c] == count_uni(spec_tokens(text@), c as CharId),
        lists_bigrams(r.bigrams@, spec_tokens(text@)),
        lists_trigrams(r.trigrams@, spec_tokens(text@)),
        r.total_chars == count_ids(spec_tokens(text@)),
        r.skipped_chars == count_breaks(spec_tokens(text@)),
        r.segments == count_segments(spec_tokens(text@)),
{
    broadcast use vstd::string::group_string_axioms;

    let map = build_char_to_id();
    let mut counter = NgramCounter::new();
    for ch in it: text.chars()
        invariant
            it.seq() == text@,
            text@.len() < 0x2000_0000_0000_0000,
            counter.inv(),
            counter.toks@ == spec_tokens(text@.take(it.index() as int)),
            counter.toks@.len() <= 2 * it.index(),
    {
        let ghost i = it.index() as int;
        let ghost before = counter.toks@;
        proof {
            assert(text@.take(i + 1).drop_last() =~= text@.take(i));
            assert(text@.take(i + 1).last() == ch);
            lemma_decompose_ids_bound(ch);
        }
        if ch != '\n' && ch != '\r' {
            let ids = decompose(ch, &map);
            let sl = ids.as_slice();
            if sl.len() == 0 {
                counter.add_break();
                proof {
                    assert(counter.toks@ =~= before + char_tokens(ch));
                }
            } else {
                let mut k: usize = 0;
                while k < sl.len()
                    invariant
                        0 <= k <= sl@.len(),
                        sl@ == spec_decompose(ch),
                        sl@.len() <= 2,
                        forall|m: int| 0 <= m < sl@.len() ==> (#[trigger] sl@[m] as int) < NUM_CHARS,
                        before.len() <= 2 * i,
                        i < 0x2000_0000_0000_0000,
                        counter.inv(),
                        counter.toks@ == before + sl@.take(k as int).map_values(|id: CharId| Token::Id(id)),
                        counter.toks@.len() == before.len() + k,
                    decreases sl@.len() - k,
                {
                    counter.add_id(sl[k]);
                    proof {
                        assert(sl@.take(k + 1).map_values(|id: CharId| Token::Id(id)) =~= sl@.take(k as int).map_values(
                            |id: CharId| Token::Id(id),
                        ).push(Token::Id(sl@[k as int])));
                    }
                    k = k + 1;
                }
                proof {
                    assert(sl@.take(sl@.len() as int) =~= sl@);
                }
            }
        }
        proof {
            assert(counter.toks@ =~= spec_tokens(text@.take(i + 1)));
        }
    }
    proof {
        assert(text@.take(text@.len() as int) =~= text@);
    }
    let bigrams = counter.bigram_list();
    let trigrams = counter.trigram_list();
    NgramCounts {
        unigrams: counter.uni,
        bigrams,
        trigrams,
        total_chars: counter.total,
        skipped_chars: counter.skipped,
        segments: counter.segments,
    }
}

/// `list` holds, in increasing order, exactly the indices below `n` for which `p` holds.
pub open spec fn lists_indices(list: Seq<usize>, n: int, p: spec_fn(int) -> bool) -> bool {
    &&& forall|i: int, j: int| 0 <= i < j < list.len() ==> list[i] < list[j]
    &&& forall|i: int| 0 <= i < list.len() ==> (#[trigger] list[i] as int) < n && p(list[i] as int)
    &&& forall|idx: int| 0 <= idx < n && p(idx) ==> #[trigger] list.contains(idx as usize)
}

pub open spec fn bigram_touches(pairs: Seq<(CharId, CharId)>, c: int) -> spec_fn(int) -> bool {
    |idx: int| pairs[idx].0 == c || pairs[idx].1 == c
}

pub open spec fn trigram_touches(triples: Seq<(CharId, CharId, CharId)>, c: int) -> spec_fn(int) -> bool {
    |idx: int| triples[idx].0 == c || triples[idx].1 == c || triples[idx].2 == c
}

fn empty_lists() -> (adj: Vec<Vec<usize>>)
    ensures
        adj@.len() == MAX_CHARS,
        forall|c: int| 0 <= c < MAX_CHARS ==> (#[trigger] adj@[c])@ == Seq::<usize>::empty(),
{
    let mut adj: Vec<Vec<usize>> = Vec::new();
    let mut c: usize = 0;
    while c < MAX_CHARS
        invariant
            0 <= c <= MAX_CHARS,
            adj@.len() == c,
            forall|k: int| 0 <= k < c ==> (#[trigger] adj@[k])@ == Seq::<usize>::empty(),
        decreases MAX_CHARS - c,
    {
        adj.push(Vec::new());
        c = c + 1;
    }
    adj
}

/// Appends `idx` to list `c`, keeping every list's description up to date.
proof fn lemma_push_index(old_list: Seq<usize>, new_list: Seq<usize>, idx: int, p: spec_fn(int) -> bool)
    requires
        lists_indices(old_list, idx, p),
        0 <= idx,
        idx <= usize::MAX,
        p(idx),
        new_list == old_list.push(idx as usize),
    ensures
        lists_indices(new_list, idx + 1, p),
{
    assert forall|i: int, j: int| 0 <= i < j < new_list.len() implies new_list[i] < new_list[j] by {
        if j == new_list.len() - 1 {
            assert((old_list[i] as int) < idx);
        }
    }
    assert forall|i: int| 0 <= i < new_list.len() implies (#[trigger] new_list[i] as int) < idx + 1 && p(new_list[i] as int) by {
        if i < old_list.len() {
            assert(new_list[i] == old_list[i]);
        }
    }
    assert forall|k: int| 0 <= k < idx + 1 && p(k) implies #[trigger] new_list.contains(k as usize) by {
        if k < idx {
            assert(old_list.contains(k as usize));
            let w = choose|w: int| 0 <= w < old_list.len() && old_list[w] == k as usize;
            assert(new_list[w] == k as usize);
        } else {
            assert(new_list[new_list.len() - 1] == k as usize);
        }
    }
}

proof fn lemma_skip_index(list: Seq<usize>, idx: int, p: spec_fn(int) -> bool)
    requires
        lists_indices(list, idx, p),
        !p(idx),
    ensures
        lists_indices(list, idx + 1, p),
{
}

/// For each id, the indices of the bigrams that contain it (each index once).
pub fn build_bigram_adj(pairs: &[(CharId, CharId)]) -> (adj: Vec<Vec<usize>>)
    requires
        forall|i: int| 0 <= i < pairs@.len() ==> (#[trigger] pairs@[i]).0 < 64 && pairs@[i].1 < 64,
    ensures
        adj@.len() == MAX_CHARS,
        forall|c: int| 0 <= c < MAX_CHARS ==> lists_indices((#[trigger] adj@[c])@, pairs@.len() as int, bigram_touches(pairs@, c)),
{
    let mut adj = empty_lists();
    let mut idx: usize = 0;
    while idx < pairs.len()
        invariant
            0 <= idx <= pairs@.len(),
            forall|i: int| 0 <= i < pairs@.len() ==> (#[trigger] pairs@[i]).0 < 64 && pairs@[i].1 < 64,
            adj@.len() == MAX_CHARS,
            forall|c: int| 0 <= c < MAX_CHARS ==> lists_indices((#[trigger] adj@[c])@, idx as int, bigram_touches(pairs@, c)),
        decreases pairs@.len() - idx,
    {
        let (c1, c2) = pairs[idx];
        let ghost before = adj@;
        adj[c1 as usize].push(idx);
        if c2 != c1 {
            adj[c2 as usize].push(idx);
        }
        proof {
            assert forall|c: int| 0 <= c < MAX_CHARS implies lists_indices((#[trigger] adj@[c])@, idx + 1, bigram_touches(pairs@, c)) by {
                if c == c1 || c == c2 {
                    lemma_push_index(before[c]@, adj@[c]@, idx as int, bigram_touches(pairs@, c));
                } else {
                    assert(adj@[c] == before[c]);
                    lemma_skip_index(adj@[c]@, idx as int, bigram_touches(pairs@, c));
                }
            }
        }
        idx = idx + 1;
    }
    adj
}

/// For each id, the indices of the trigrams that contain it (each index once).
pub fn build_trigram_adj(triples: &[(CharId, CharId, CharId)]) -> (adj: Vec<Vec<usize>>)
    requires
        forall|i: int| 0 <= i < triples@.len() ==> (#[trigger] triples@[i]).0 < 64 && triples@[i].1 < 64 && triples@[i].2 < 64,
    ensures
        adj@.len() == MAX_CHARS,
        forall|c: int| 0 <= c < MAX_CHARS ==> lists_indices((#[trigger] adj@[c])@, triples@.len() as int, trigram_touches(triples@, c)),
{
    let mut adj = empty_lists();
    let mut idx: usize = 0;
    while idx < triples.len()
        invariant
            0 <= idx <= triples@.len(),
            forall|i: int| 0 <= i < triples@.len() ==> (#[trigger] triples@[i]).0 < 64 && triples@[i].1 < 64 && triples@[i].2 < 64,
            adj@.len() == MAX_CHARS,
            forall|c: int| 0 <= c < MAX_CHARS ==> lists_indices((#[trigger] adj@[c])@, idx as int, trigram_touches(triples@, c)),
        decreases triples@.len() - idx,
    {
        let (c1, c2, c3) = triples[idx];
        let ghost before = adj@;
        adj[c1 as usize].push(idx);
        if c2 != c1 {
            adj[c2 as usize].push(idx);
        }
        if c3 != c1 && c3 != c2 {
            adj[c3 as usize].push(idx);
        }
        proof {
            assert forall|c: int| 0 <= c < MAX_CHARS implies lists_indices((#[trigger] adj@[c])@, idx + 1, trigram_touches(triples@, c)) by {
                if c == c1 || c == c2 || c == c3 {
                    lemma_push_index(before[c]@, adj@[c]@, idx as int, trigram_touches(triples@, c));
                } else {
                    assert(adj@[c] == before[c]);
                    lemma_skip_index(adj@[c]@, idx as int, trigram_touches(triples@, c));
                }
            }
        }
        idx = idx + 1;
    }
    adj
}


/// N-gram counts of a corpus together with, for each id, the indices of the
/// bigrams and trigrams that contain it.
pub struct NgramIndex {
    pub counts: NgramCounts,
    pub bigram_adj: Vec<Vec<usize>>,
    pub trigram_adj: Vec<Vec<usize>>,
}

/// The `(c1, c2)` of each bigram entry.
pub open spec fn bigram_pairs(v: Seq<(CharId, CharId, u64)>) -> Seq<(CharId, CharId)> {
    v.map_values(|e: (CharId, CharId, u64)| (e.0, e.1))
}

/// The `(c1, c2, c3)` of each trigram entry.
pub open spec fn trigram_triples(v: Seq<(CharId, CharId, CharId, u64)>) -> Seq<(CharId, CharId, CharId)> {
    v.map_values(|e: (CharId, CharId, CharId, u64)| (e.0, e.1, e.2))
}

/// Counts the n-grams of a corpus (as `count_ngrams`) and indexes them: for
/// every id, the adjacency lists hold, once each and in increasing order,
/// exactly the indices of the bigrams and of the trigrams that contain it.
/// No two bigrams share their characters and no two trigrams share theirs.
pub fn index_ngrams(text: &str) -> (r: NgramIndex)
    requires
        text@.len() < 0x2000_0000_0000_0000,
    ensures
        r.counts.unigrams@.len() == MAX_CHARS,
        forall|c: int| 0 <= c < MAX_CHARS ==> #[trigger] r.counts.unigrams@[c] == count_uni(spec_tokens(text@), c as CharId),
        lists_bigrams(r.counts.bigrams@, spec_tokens(text@)),
        lists_trigrams(r.counts.trigrams@, spec_tokens(text@)),
        r.counts.total_chars == count_ids(spec_tokens(text@)),
        r.counts.skipped_chars == count_breaks(spec_tokens(text@)),
        r.counts.segments == count_segments(spec_tokens(text@)),
        r.bigram_adj@.len() == MAX_CHARS,
        r.trigram_adj@.len() == MAX_CHARS,
        forall|c: int|
            0 <= c < MAX_CHARS ==> lists_indices(
                (#[trigger] r.bigram_adj@[c])@,
                r.counts.bigrams@.len() as int,
                bigram_touches(bigram_pairs(r.counts.bigrams@), c),
            ),
        forall|c: int|
            0 <= c < MAX_CHARS ==> lists_indices(
                (#[trigger] r.trigram_adj@[c])@,
                r.counts.trigrams@.len() as int,
                trigram_touches(trigram_triples(r.counts.trigrams@), c),
            ),
        forall|i: int, j: int|
            0 <= i < j < r.counts.bigrams@.len() ==> (r.counts.bigrams@[i].0, r.counts.bigrams@[i].1) != (
                r.counts.bigrams@[j].0,
                r.counts.bigrams@[j].1,
            ),
        forall|i: int, j: int|
            0 <= i < j < r.counts.trigrams@.len() ==> (
                r.counts.trigrams@[i].0,
                r.counts.trigrams@[i].1,
                r.counts.trigrams@[i].2,
            ) != (r.counts.trigrams@[j].0, r.counts.trigrams@[j].1, r.counts.trigrams@[j].2),
{
    let counts = count_ngrams(text);
    let mut pairs: Vec<(CharId, CharId)> = Vec::new();
    let mut i: usize = 0;
    while i < counts.bigrams.len()
        invariant
            0 <= i <= counts.bigrams@.len(),
            lists_bigrams(counts.bigrams@, spec_tokens(text@)),
            pairs@ == bigram_pairs(counts.bigrams@.take(i as int)),
        decreases counts.bigrams@.len() - i,
    {
        let (c1, c2, _) = counts.bigrams[i];
        pairs.push((c1, c2));
        proof {
            assert(bigram_pairs(counts.bigrams@.take(i + 1)) =~= bigram_pairs(counts.bigrams@.take(i as int)).push((c1, c2)));
        }
        i = i + 1;
    }
    proof {
        assert(counts.bigrams@.take(i as int) =~= counts.bigrams@);
        assert forall|k: int| 0 <= k < pairs@.len() implies (#[trigger] pairs@[k]).0 < 64 && pairs@[k].1 < 64 by {
            assert(pairs@[k] == (counts.bigrams@[k].0, counts.bigrams@[k].1));
        }
    }
    let bigram_adj = build_bigram_adj(&pairs);
    let mut triples: Vec<(CharId, CharId, CharId)> = Vec::new();
    let mut i: usize = 0;
    while i < counts.trigrams.len()
        invariant
            0 <= i <= counts.trigrams@.len(),
            lists_trigrams(counts.trigrams@, spec_tokens(text@)),
            triples@ == trigram_triples(counts.trigrams@.take(i as int)),
        decreases counts.trigrams@.len() - i,
    {
        let (c1, c2, c3, _) = counts.trigrams[i];
        triples.push((c1, c2, c3));
        proof {
            assert(trigram_triples(counts.trigrams@.take(i + 1)) =~= trigram_triples(counts.trigrams@.take(i as int)).push(
                (c1, c2, c3),
            ));
        }
        i = i + 1;
    }
    proof {
        assert(counts.trigrams@.take(i as int) =~= counts.trigrams@);
        assert forall|k: int| 0 <= k < triples@.len() implies (#[trigger] triples@[k]).0 < 64 && triples@[k].1 < 64
            && triples@[k].2 < 64 by {
            assert(triples@[k] == (counts.trigrams@[k].0, counts.trigrams@[k].1, counts.trigrams@[k].2));
        }
        assert forall|a: int, b: int| 0 <= a < b < counts.bigrams@.len() implies (counts.bigrams@[a].0, counts.bigrams@[a].1) != (
            counts.bigrams@[b].0,
            counts.bigrams@[b].1,
        ) by {
            assert(bigram_key(counts.bigrams@[a]) < bigram_key(counts.bigrams@[b]));
        }
        assert forall|a: int, b: int| 0 <= a < b < counts.trigrams@.len() implies (
            counts.trigrams@[a].0,
            counts.trigrams@[a].1,
            counts.trigrams@[a].2,
        ) != (counts.trigrams@[b].0, counts.trigrams@[b].1, counts.trigrams@[b].2) by {
            assert(trigram_key(counts.trigrams@[a]) < trigram_key(counts.trigrams@[b]));
        }
    }
    let trigram_adj = build_trigram_adj(&triples);
    NgramIndex { counts, bigram_adj, trigram_adj }
}

} // verus!
