use fourai::helpers::{checkpoint_name, generation_suffix, newest_generation, parse_usize};

#[test]
fn unsigned_numbers() {
    assert_eq!(Some(0), parse_usize("0"));
    assert_eq!(Some(2500), parse_usize("2500"));
    assert_eq!(Some(7), parse_usize("+7"));
    assert_eq!(Some(18446744073709551615), parse_usize("18446744073709551615"));
    assert_eq!(None, parse_usize("18446744073709551616"));
    assert_eq!(None, parse_usize(""));
    assert_eq!(None, parse_usize("+"));
    assert_eq!(None, parse_usize("-1"));
    assert_eq!(None, parse_usize("12a"));
}

#[test]
fn generation_after_last_underscore() {
    assert_eq!(Some(250), generation_suffix("gen_250"));
    assert_eq!(Some(3), generation_suffix("my_gen_3"));
    assert_eq!(Some(42), generation_suffix("42"));
    assert_eq!(None, generation_suffix("gen_"));
    assert_eq!(None, generation_suffix("gen_x"));
    assert_eq!(None, generation_suffix("gen2500"));
}

#[test]
fn newest_checkpoint() {
    let names = vec![
        "gen_250".to_string(),
        "notes".to_string(),
        "gen_1000".to_string(),
        "gen_500".to_string(),
    ];
    assert_eq!(Some((2, 1000)), newest_generation(&names));
    let tie = vec!["a_5".to_string(), "b_5".to_string(), "c_1".to_string()];
    assert_eq!(Some((1, 5)), newest_generation(&tie));
    assert_eq!(None, newest_generation(&vec!["readme".to_string()]));
    assert_eq!(None, newest_generation(&Vec::new()));
}

#[test]
fn checkpoint_names_round_trip() {
    let name = checkpoint_name("./saves/gen", 2500);
    assert_eq!("./saves/gen_2500", name);
    assert_eq!(Some(2500), generation_suffix(&name));
    assert_eq!("x_0", checkpoint_name("x", 0));
    assert_eq!(Some(0), generation_suffix(&checkpoint_name("x", 0)));
}
