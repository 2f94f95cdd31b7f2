use tsuki_optimize::search::make_move;
use std::collections::HashSet;

use rand::rngs::SmallRng;
use rand::SeedableRng;

use tsuki_optimize::chars::{CharId, DAKUTEN_ID, HANDAKUTEN_ID, KUTEN_ID, TOUTEN_ID};
use tsuki_optimize::layout::{is_fixed, ExclusivePair, KeyboardParams, Layout};
use tsuki_optimize::search::{
    arrange_initial_layout, collect_l1_free_chars, collect_l1_movable_chars, collect_l2_chars, first_admissible,
    is_l1_only_char, is_tabu, is_void, normalize_pair, random_perturbation, sample_swap_pairs, OpKind,
    RestartDecision, SearchProgress, TabuList, TenureSchedule,
};

fn l1_only() -> HashSet<CharId> {
    [DAKUTEN_ID, HANDAKUTEN_ID].into_iter().collect()
}

fn consistent(layout: &Layout) -> bool {
    (0..layout.kp.num_chars).all(|c| layout.slot_to_char[layout.char_to_slot[c] as usize] as usize == c)
}

#[test]
fn pairs_are_normalized() {
    assert_eq!(normalize_pair(5, 2), (2, 5));
    assert_eq!(normalize_pair(2, 5), (2, 5));
    assert_eq!(normalize_pair(3, 3), (3, 3));
}

#[test]
fn tabu_list_keeps_the_latest_moves() {
    let mut t = TabuList::new(2);
    assert!(!t.contains(1, 2));
    t.add(2, 1);
    assert!(t.contains(1, 2));
    assert!(t.contains(2, 1));
    t.add(3, 4);
    t.add(5, 6);
    // capacity 2: the oldest move left
    assert!(!t.contains(1, 2));
    assert!(t.contains(4, 3));
    assert!(t.contains(5, 6));
    t.add(7, 8);
    assert!(!t.contains(3, 4));
    assert!(t.contains(5, 6));
    assert!(t.contains(7, 8));
}

#[test]
fn void_and_layer1_only_ids() {
    assert!(is_void(62));
    assert!(is_void(63));
    assert!(!is_void(61));
    assert!(is_l1_only_char(DAKUTEN_ID));
    assert!(is_l1_only_char(HANDAKUTEN_ID));
    assert!(!is_l1_only_char(KUTEN_ID));
}

#[test]
fn character_lists_of_the_starting_layout() {
    let layout = Layout::initial(KeyboardParams::k3x10());
    let free = collect_l1_free_chars(&layout);
    assert_eq!(free.len(), 28);
    assert!(!free.contains(&KUTEN_ID) && !free.contains(&TOUTEN_ID));
    assert!(free.contains(&DAKUTEN_ID));
    let l2 = collect_l2_chars(&layout);
    assert_eq!(l2, (30u8..60).collect::<Vec<u8>>());
    let movable = collect_l1_movable_chars(&layout, &l1_only());
    assert_eq!(movable.len(), 26);
    assert!(!movable.contains(&DAKUTEN_ID) && !movable.contains(&HANDAKUTEN_ID));
    assert!(movable.windows(2).all(|w| w[0] < w[1]));
}

#[test]
fn perturbation_keeps_fixed_and_layer1_only_characters() {
    let kp = KeyboardParams::k3x10();
    let start = Layout::initial(kp);
    let mut layout = start;
    let mut rng = SmallRng::seed_from_u64(7);
    random_perturbation(&mut layout, 50, &mut rng, &[], &l1_only());
    assert!(consistent(&layout));
    for c in [KUTEN_ID, TOUTEN_ID, DAKUTEN_ID, HANDAKUTEN_ID] {
        assert_eq!(layout.char_to_slot[c as usize], start.char_to_slot[c as usize]);
    }
    // the number of characters on layer 1 is unchanged
    let l1 = (0..60).filter(|&c| layout.is_l1(c)).count();
    assert_eq!(l1, 30);
    assert_ne!(layout.char_to_slot, start.char_to_slot);
}

fn violates_somewhere(layout: &Layout, pairs: &[ExclusivePair]) -> bool {
    let npl = layout.kp.num_slots_per_layer as usize;
    (0..npl).any(|k| {
        let a = layout.slot_to_char[k];
        let b = layout.slot_to_char[k + npl];
        a < 62 && b < 62 && pairs.iter().any(|p| p.violates(a, b))
    })
}

#[test]
fn perturbation_respects_pairs() {
    let kp = KeyboardParams::k3x10();
    let mut layout = Layout::initial(kp);
    // 'ゃ' (54) may not share a key with any of the characters 0..10
    let pairs = vec![ExclusivePair {
        group_a: [54u8].into_iter().collect(),
        group_b: (0u8..10).collect(),
    }];
    assert!(!violates_somewhere(&layout, &pairs));
    for seed in 0..20u64 {
        let mut rng = SmallRng::seed_from_u64(seed);
        random_perturbation(&mut layout, 30, &mut rng, &pairs, &l1_only());
        assert!(!violates_somewhere(&layout, &pairs));
        assert!(consistent(&layout));
    }
}

#[test]
fn exhaustive_pairs_in_order() {
    let layout = Layout::initial(KeyboardParams::k3x10());
    let mut rng = SmallRng::seed_from_u64(1);
    let out = sample_swap_pairs(&layout, &[0, 1, 2], 10, &mut rng, &[]);
    assert_eq!(out, vec![(0, 1), (0, 2), (1, 2)]);
    // a pair that would stack 'ゃ' above 'そ' is left out: 'そ' onto key 24
    let pairs = vec![ExclusivePair { group_a: [54u8].into_iter().collect(), group_b: [0u8].into_iter().collect() }];
    let out = sample_swap_pairs(&layout, &[0, 1, 24], 10, &mut rng, &pairs);
    assert_eq!(out, vec![(0, 1), (1, 24)]);
}

#[test]
fn sampled_pairs_are_bounded_and_distinct() {
    let layout = Layout::initial(KeyboardParams::k3x10());
    let chars: Vec<u8> = (0..10).collect();
    let mut rng = SmallRng::seed_from_u64(11);
    let out = sample_swap_pairs(&layout, &chars, 3, &mut rng, &[]);
    assert!(out.len() <= 3);
    for (a, b) in out {
        assert_ne!(a, b);
        assert!(chars.contains(&a) && chars.contains(&b));
    }
}

#[test]
fn arrangement_brings_frequent_characters_to_layer1() {
    let kp = KeyboardParams::k3x10();
    let mut ranked: Vec<u8> = vec![45];
    ranked.extend((0u8..30).filter(|&c| !is_fixed(c, kp) && c != DAKUTEN_ID && c != HANDAKUTEN_ID));
    assert_eq!(ranked.len(), 27);
    let (layout, warnings) = arrange_initial_layout(kp, &ranked, &[]);
    assert!(warnings.is_empty());
    // 'ま' (45) takes the slot of the least frequent layer-1 character, 28
    assert_eq!(layout.char_to_slot[45], 28);
    assert_eq!(layout.char_to_slot[28], 45);
    for c in 0..60usize {
        if c != 45 && c != 28 {
            assert_eq!(layout.char_to_slot[c], c as u8);
        }
    }
    assert!(consistent(&layout));
}

#[test]
fn arrangement_with_satisfied_pairs_has_no_warnings() {
    let kp = KeyboardParams::k3x11();
    let pairs = vec![ExclusivePair { group_a: [60u8].into_iter().collect(), group_b: [61u8].into_iter().collect() }];
    let (layout, warnings) = arrange_initial_layout(kp, &[], &pairs);
    assert!(consistent(&layout));
    let s60 = layout.char_to_slot[60] as usize % 33;
    let s61 = layout.char_to_slot[61] as usize % 33;
    if s60 != s61 {
        assert!(warnings.is_empty());
    }
}

#[test]
fn first_admissible_skips_tabu_moves() {
    let mut l1 = TabuList::new(4);
    let l2 = TabuList::new(4);
    let inter = TabuList::new(4);
    l1.add(1, 2);
    assert!(is_tabu(OpKind::SwapL1, 2, 1, &l1, &l2, &inter));
    assert!(!is_tabu(OpKind::SwapL2, 2, 1, &l1, &l2, &inter));
    let cands = vec![(OpKind::SwapL1, 2, 1, false), (OpKind::SwapL2, 2, 1, false)];
    assert_eq!(first_admissible(&cands, &l1, &l2, &inter), Some(1));
    // aspiration: a tabu move that beats the best is taken
    let cands = vec![(OpKind::SwapL1, 2, 1, true), (OpKind::SwapL2, 2, 1, false)];
    assert_eq!(first_admissible(&cands, &l1, &l2, &inter), Some(0));
    let cands = vec![(OpKind::SwapL1, 1, 2, false)];
    assert_eq!(first_admissible(&cands, &l1, &l2, &inter), None);
    assert_eq!(first_admissible(&[], &l1, &l2, &inter), None);
}

fn schedule() -> TenureSchedule {
    TenureSchedule {
        base: [2, 3, 4],
        max: [4, 6, 5],
        step: [1, 2, 3],
        grow_start: 2,
        grow_interval: 2,
        restart_after: 6,
        max_restarts: 1,
    }
}

#[test]
fn tenures_grow_on_schedule_and_reset_on_improvement() {
    let s = schedule();
    let mut p = SearchProgress::new(&s);
    assert_eq!((p.no_improve, p.restarts, p.tenure), (0, 0, [2, 3, 4]));
    assert!(!p.after_move(&s, false)); // 1
    assert!(!p.after_move(&s, false)); // 2
    assert!(!p.after_move(&s, false)); // 3
    assert!(p.after_move(&s, false)); // 4: growth step
    assert_eq!(p.tenure, [3, 5, 5]);
    assert!(!p.after_move(&s, false)); // 5
    assert!(p.after_move(&s, false)); // 6: growth step
    assert_eq!(p.tenure, [4, 6, 5]);
    assert!(!p.after_move(&s, false)); // 7
    assert!(!p.after_move(&s, false)); // 8: all at their maxima
    assert_eq!(p.tenure, [4, 6, 5]);
    assert_eq!(p.no_improve, 8);
    assert!(p.after_move(&s, true));
    assert_eq!((p.no_improve, p.tenure), (0, [2, 3, 4]));
    assert!(!p.after_move(&s, true));
}

#[test]
fn restarts_until_the_budget_is_spent() {
    let s = schedule();
    let mut p = SearchProgress::new(&s);
    for _ in 0..5 {
        p.after_move(&s, false);
    }
    assert_eq!(p.restart_decision(&s), RestartDecision::Continue);
    p.after_move(&s, false);
    assert_eq!(p.no_improve, 6);
    assert_eq!(p.restart_decision(&s), RestartDecision::Restart);
    assert_eq!((p.no_improve, p.restarts, p.tenure), (0, 1, [2, 3, 4]));
    for _ in 0..6 {
        p.after_move(&s, false);
    }
    assert_eq!(p.restart_decision(&s), RestartDecision::Stop);
    assert_eq!(p.restarts, 1);
}

#[test]
fn arrangement_repairs_a_forbidden_key() {
    let kp = KeyboardParams::k3x10();
    // 'ゃ' (54) sits above 'さ' (24) in the starting layout
    let pairs = vec![ExclusivePair { group_a: [54u8].into_iter().collect(), group_b: [24u8].into_iter().collect() }];
    let (layout, warnings) = arrange_initial_layout(kp, &[], &pairs);
    assert!(warnings.is_empty());
    // exchanged with the layer-2 character of the first key that accepts it (key 0)
    assert_eq!(layout.char_to_slot[54], 30);
    assert_eq!(layout.char_to_slot[30], 54);
    assert!(consistent(&layout));
}

#[test]
fn arrangement_reports_an_unrepairable_key_on_every_pass() {
    let kp = KeyboardParams::k3x10();
    let pairs = vec![ExclusivePair { group_a: [54u8].into_iter().collect(), group_b: (0u8..30).collect() }];
    let (layout, warnings) = arrange_initial_layout(kp, &[], &pairs);
    assert_eq!(warnings, vec![24usize; 20]);
    assert_eq!(layout.char_to_slot, Layout::initial(kp).char_to_slot);
}

#[test]
fn arrangement_fills_all_free_slots_on_3x11() {
    let kp = KeyboardParams::k3x11();
    // every movable character, least likely first by id reversed
    let ranked: Vec<u8> = (0u8..62).rev().filter(|&c| c != DAKUTEN_ID && c != HANDAKUTEN_ID).collect();
    assert_eq!(ranked.len(), 60);
    let (layout, warnings) = arrange_initial_layout(kp, &ranked, &[]);
    assert!(warnings.is_empty());
    assert!(consistent(&layout));
    for (i, &c) in ranked.iter().enumerate() {
        let on_l1 = (layout.char_to_slot[c as usize] as usize) < 33;
        assert_eq!(on_l1, i < 29, "character {c} at rank {i}");
    }
    // the void placeholders are on layer 2; the voicing marks kept their slots
    assert!(layout.char_to_slot[62] >= 33 && layout.char_to_slot[63] >= 33);
    let start = Layout::initial(kp);
    assert_eq!(layout.char_to_slot[DAKUTEN_ID as usize], start.char_to_slot[DAKUTEN_ID as usize]);
    assert_eq!(layout.char_to_slot[HANDAKUTEN_ID as usize], start.char_to_slot[HANDAKUTEN_ID as usize]);
}

#[test]
fn moves_are_made_only_when_allowed() {
    let kp = KeyboardParams::k3x10();
    let start = Layout::initial(kp);
    let pairs = vec![ExclusivePair { group_a: [54u8].into_iter().collect(), group_b: [0u8].into_iter().collect() }];
    let mut layout = start;
    assert!(make_move(&mut layout, OpKind::SwapL1, 1, 2, &pairs));
    assert_eq!((layout.char_to_slot[1], layout.char_to_slot[2]), (2, 1));
    let before = layout;
    // a fixed character does not move
    assert!(!make_move(&mut layout, OpKind::SwapL1, KUTEN_ID, 3, &pairs));
    // a layer-1-only character does not leave layer 1
    assert!(!make_move(&mut layout, OpKind::InterLayer, DAKUTEN_ID, 30, &pairs));
    // a layer-2 exchange needs two layer-2 characters
    assert!(!make_move(&mut layout, OpKind::SwapL2, 30, 0, &pairs));
    // 'そ' onto key 24 would stack it under 'ゃ'
    assert!(!make_move(&mut layout, OpKind::SwapL1, 0, 24, &pairs));
    assert_eq!(layout.char_to_slot, before.char_to_slot);
    assert!(make_move(&mut layout, OpKind::InterLayer, 5, 40, &pairs));
    assert_eq!((layout.char_to_slot[5], layout.char_to_slot[40]), (40, 5));
    assert!(make_move(&mut layout, OpKind::SwapL2, 31, 32, &pairs));
    assert!(consistent(&layout));
}
