use tsuki_optimize::config::keyboard_or_default;
use tsuki_optimize::chars::{build_char_to_id, decompose, glyphs, ArrayVec2, CHAR_LIST, DAKUTEN_ID, HANDAKUTEN_ID, KUTEN_ID, NUM_CHARS, TOUTEN_ID};
use tsuki_optimize::config::{keyboard_size_str, parse_keyboard_size, ConstraintsConfig, ExclusivePairConfig};
use tsuki_optimize::layout::{KeyboardParams, KeyboardSize};

#[test]
fn char_ids_match_the_list() {
    let map = build_char_to_id();
    for (i, &c) in CHAR_LIST.iter().enumerate() {
        assert_eq!(map.get(c), Some(i as u8));
    }
    assert_eq!(map.get('a'), None);
    assert_eq!(map.get('が'), None);
    assert_eq!(CHAR_LIST.len(), NUM_CHARS);
    assert_eq!(CHAR_LIST[KUTEN_ID as usize], '。');
    assert_eq!(CHAR_LIST[TOUTEN_ID as usize], '、');
    assert_eq!(CHAR_LIST[DAKUTEN_ID as usize], '゛');
    assert_eq!(CHAR_LIST[HANDAKUTEN_ID as usize], '゜');
}

#[test]
fn decompose_named_voiced_and_other() {
    let map = build_char_to_id();
    assert_eq!(decompose('そ', &map).as_slice(), &[0u8][..]);
    // 'が' is 'か' (11) followed by '゛' (18)
    assert_eq!(decompose('が', &map).as_slice(), &[11u8, 18u8][..]);
    // 'ぱ' is 'は' (10) followed by '゜' (29)
    assert_eq!(decompose('ぱ', &map).as_slice(), &[10u8, 29u8][..]);
    // 'ゔ' is 'う' (16) and '゛'
    assert_eq!(decompose('ゔ', &map).as_slice(), &[16u8, 18u8][..]);
    assert!(decompose('x', &map).as_slice().is_empty());
    assert!(decompose('\n', &map).as_slice().is_empty());
}

#[test]
fn array_vec_two_constructors() {
    assert!(ArrayVec2::empty().as_slice().is_empty());
    assert_eq!(ArrayVec2::one(5).as_slice(), &[5u8][..]);
    assert_eq!(ArrayVec2::two(5, 7).as_slice(), &[5u8, 7u8][..]);
}

#[test]
fn glyphs_of_ids() {
    assert_eq!(glyphs(&[0, 1, 2]), "そこし");
    assert_eq!(glyphs(&[]), "");
    assert_eq!(glyphs(&[KUTEN_ID, 60, 61]), "。「」");
}

#[test]
fn keyboard_size_names() {
    assert_eq!(keyboard_size_str(&KeyboardParams::k3x10()), "3x10");
    assert_eq!(keyboard_size_str(&KeyboardParams::k3x11()), "3x11");
    assert_eq!(parse_keyboard_size("3x11").map(|k| k.size), Some(KeyboardSize::K3x11));
    assert_eq!(parse_keyboard_size("3x10").map(|k| k.size), Some(KeyboardSize::K3x10));
    assert!(parse_keyboard_size("3x12").is_none());
    assert!(parse_keyboard_size("").is_none());
    assert!(parse_keyboard_size("3x1").is_none());
}

#[test]
fn exclusive_pairs_from_config() {
    let cfg = ConstraintsConfig {
        exclusive_pairs: vec![
            ExclusivePairConfig { group_a: "ゃゅょ".to_string(), group_b: "きしx".to_string() },
            ExclusivePairConfig { group_a: String::new(), group_b: "そそ".to_string() },
        ],
    };
    let pairs = cfg.build_exclusive_pairs();
    assert_eq!(pairs.len(), 2);
    let mut a: Vec<u8> = pairs[0].group_a.iter().copied().collect();
    a.sort();
    assert_eq!(a, vec![4, 53, 54]);
    let mut b: Vec<u8> = pairs[0].group_b.iter().copied().collect();
    b.sort();
    assert_eq!(b, vec![2, 19]);
    assert!(pairs[1].group_a.is_empty());
    assert_eq!(pairs[1].group_b.len(), 1);
    assert!(pairs[1].group_b.contains(&0));
}

#[test]
fn unknown_board_names_fall_back_to_3x10() {
    assert_eq!(keyboard_or_default("3x11").size, KeyboardSize::K3x11);
    assert_eq!(keyboard_or_default("3x10").size, KeyboardSize::K3x10);
    assert_eq!(keyboard_or_default("4x12").size, KeyboardSize::K3x10);
}
