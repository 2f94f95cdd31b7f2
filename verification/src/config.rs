use vstd::prelude::*;
use std::collections::HashSet;

use crate::chars::{build_char_to_id, spec_char_id, CharId, CharMap};
use crate::layout::{spec_k3x10, spec_k3x11, ExclusivePair, KeyboardParams, KeyboardSize};

verus! {

/// The `[constraints]` section of the configuration file.
pub struct ConstraintsConfig {
    pub exclusive_pairs: Vec<ExclusivePairConfig>,
}

/// One `[[constraints.exclusive_pairs]]` entry: two groups of kana written
/// as strings (for example `"ゃゅょ"` and `"きしちにひみり"`).
pub struct ExclusivePairConfig {
    pub group_a: String,
    pub group_b: String,
}

/// Ids of the named characters that occur in `text` (others are ignored).
pub open spec fn spec_group_ids(text: Seq<char>) -> Set<CharId> {
    Set::new(|id: CharId| exists|i: int| 0 <= i < text.len() && spec_char_id(text[i]) == Some(id))
}

/// Collects the ids of the named characters of `text`.
fn group_ids(text: &String, map: &CharMap) -> (ids: HashSet<CharId>)
    ensures
        ids@ == spec_group_ids(text@),
{
    broadcast use vstd::std_specs::hash::group_hash_axioms;

    let s = text.as_str();
    let n = s.unicode_len();
    let mut ids: HashSet<CharId> = HashSet::new();
    let mut i: usize = 0;
    while i < n
        invariant
            0 <= i <= n,
            n == s@.len(),
            s@ == text@,
            ids@ == spec_group_ids(s@.take(i as int)),
        decreases n - i,
    {
        let c = s.get_char(i);
        if let Some(id) = map.get(c) {
            ids.insert(id);
        }
        proof {
            let pre = s@.take(i as int);
            let next = s@.take(i + 1);
            assert(next =~= pre.push(c));
            assert forall|k: CharId| ids@.contains(k) <==> #[trigger] spec_group_ids(next).contains(k) by {
                if spec_group_ids(pre).contains(k) {
                    let j = choose|j: int| 0 <= j < pre.len() && spec_char_id(pre[j]) == Some(k);
                    assert(next[j] == pre[j]);
                }
                if spec_group_ids(next).contains(k) {
                    let j = choose|j: int| 0 <= j < next.len() && spec_char_id(next[j]) == Some(k);
                    if j < pre.len() {
                        assert(pre[j] == next[j]);
                    }
                }
                if spec_char_id(c) == Some(k) {
                    assert(next[i as int] == c);
                }
            }
            assert(ids@ =~= spec_group_ids(next));
        }
        i = i + 1;
    }
    proof {
        assert(s@.take(n as int) =~= s@);
    }
    ids
}

impl ConstraintsConfig {
    /// The configured exclusive pairs, each group turned into character ids.
    pub fn build_exclusive_pairs(&self) -> (pairs: Vec<ExclusivePair>)
        ensures
            pairs@.len() == self.exclusive_pairs@.len(),
            forall|i: int|
                0 <= i < pairs@.len() ==> {
                    &&& (#[trigger] pairs@[i]).group_a@ == spec_group_ids(self.exclusive_pairs@[i].group_a@)
                    &&& pairs@[i].group_b@ == spec_group_ids(self.exclusive_pairs@[i].group_b@)
                },
    {
        let map = build_char_to_id();
        let mut pairs: Vec<ExclusivePair> = Vec::new();
        let mut i: usize = 0;
        while i < self.exclusive_pairs.len()
            invariant
                0 <= i <= self.exclusive_pairs@.len(),
                pairs@.len() == i,
                forall|j: int|
                    0 <= j < i ==> {
                        &&& (#[trigger] pairs@[j]).group_a@ == spec_group_ids(self.exclusive_pairs@[j].group_a@)
                        &&& pairs@[j].group_b@ == spec_group_ids(self.exclusive_pairs@[j].group_b@)
                    },
            decreases self.exclusive_pairs@.len() - i,
        {
            let entry = &self.exclusive_pairs[i];
            let group_a = group_ids(&entry.group_a, &map);
            let group_b = group_ids(&entry.group_b, &map);
            pairs.push(ExclusivePair { group_a, group_b });
            i = i + 1;
        }
        pairs
    }
}

/// Name of the board, as written in the configuration file.
pub fn keyboard_size_str(kp: &KeyboardParams) -> (name: &'static str)
    ensures
        kp.size == KeyboardSize::K3x10 ==> name@ == "3x10"@,
        kp.size == KeyboardSize::K3x11 ==> name@ == "3x11"@,
{
    match kp.size {
        KeyboardSize::K3x10 => "3x10",
        KeyboardSize::K3x11 => "3x11",
    }
}

/// `text` spells exactly `lit`.
fn str_equals(text: &str, lit: &str) -> (r: bool)
    ensures
        r == (text@ == lit@),
{
    let n = text.unicode_len();
    if n != lit.unicode_len() {
        return false;
    }
    let mut i: usize = 0;
    while i < n
        invariant
            0 <= i <= n,
            n == text@.len(),
            n == lit@.len(),
            forall|j: int| 0 <= j < i ==> text@[j] == lit@[j],
        decreases n - i,
    {
        if text.get_char(i) != lit.get_char(i) {
            return false;
        }
        i = i + 1;
    }
    assert(text@ =~= lit@);
    true
}

/// The board named by a configuration value: `"3x10"` or `"3x11"`, none for
/// any other name.
pub fn parse_keyboard_size(name: &str) -> (kp: Option<KeyboardParams>)
    ensures
        kp == if name@ == "3x11"@ {
            Some(spec_k3x11())
        } else if name@ == "3x10"@ {
            Some(spec_k3x10())
        } else {
            None::<KeyboardParams>
        },
{
    if str_equals(name, "3x11") {
        Some(KeyboardParams::k3x11())
    } else if str_equals(name, "3x10") {
        Some(KeyboardParams::k3x10())
    } else {
        None
    }
}


/// The board named by a configuration value, falling back to 3x10 for a
/// name that is neither `"3x10"` nor `"3x11"`.
pub fn keyboard_or_default(name: &str) -> (kp: KeyboardParams)
    ensures
        kp == if name@ == "3x11"@ {
            spec_k3x11()
        } else {
            spec_k3x10()
        },
{
    match parse_keyboard_size(name) {
        Some(kp) => kp,
        None => KeyboardParams::k3x10(),
    }
}

} // verus!
