use gemini_video_player::order::{check_numbering, frame_number, frame_order, name_before, Still};

fn still_named(name: &str) -> Still {
    Still { name: name.as_bytes().to_vec(), data: vec![] }
}

fn stills_named(names: &[&str]) -> Vec<Still> {
    names.iter().map(|name| still_named(name)).collect()
}

fn before(a: &str, b: &str) -> bool {
    name_before(&a.as_bytes().to_vec(), &b.as_bytes().to_vec())
}

fn number_of(name: &str) -> Option<u64> {
    frame_number(&name.as_bytes().to_vec())
}

#[test]
fn names_compare_byte_by_byte() {
    assert!(before("a", "b"));
    assert!(!before("b", "a"));
    assert!(!before("a", "a"));
    assert!(before("", "a"));
    assert!(!before("a", ""));
    assert!(!before("", ""));
    assert!(before("a", "aa"));
    assert!(!before("aa", "a"));
    assert!(before("ab", "b"));
    assert!(before("frame_000002.png", "frame_000010.png"));
    assert!(before("frame_10.png", "frame_2.png"));
    assert!(before("frame_     9.png", "frame_    10.png"));
    assert!(name_before(&vec![0x7f], &vec![0x80]));
    assert!(name_before(&vec![0x00], &vec![0xff]));
}

#[test]
fn name_order_agrees_with_the_order_of_byte_vectors() {
    let names = ["", "a", "aa", "ab", "b", "frame_1.png", "frame_10.png", "frame_2.png", "z"];
    for a in names {
        for b in names {
            assert_eq!(before(a, b), a.as_bytes() < b.as_bytes());
        }
    }
}

#[test]
fn stills_are_played_in_the_order_of_their_names() {
    let stills = stills_named(&["c.png", "a.png", "d.png", "b.png"]);
    assert_eq!(frame_order(&stills), vec![1, 3, 0, 2]);
}

#[test]
fn no_stills_have_an_empty_order() {
    assert_eq!(frame_order(&vec![]), vec![]);
}

#[test]
fn stills_of_one_name_keep_the_order_in_which_they_were_given() {
    let stills = stills_named(&["b", "a", "b", "a", "b"]);
    assert_eq!(frame_order(&stills), vec![1, 3, 0, 2, 4]);
}

#[test]
fn sorted_stills_stay_as_they_are() {
    let stills = stills_named(&["f_1.png", "f_2.png", "f_3.png"]);
    assert_eq!(frame_order(&stills), vec![0, 1, 2]);
}

#[test]
fn every_still_is_played_once() {
    let names = ["q", "d", "x", "a", "m", "d", "b", "zz", "", "m"];
    let stills = stills_named(&names);
    let mut order = frame_order(&stills);
    assert_eq!(order.len(), names.len());
    order.sort();
    assert_eq!(order, (0..names.len()).collect::<Vec<usize>>());
}

#[test]
fn the_number_of_a_still_is_read_from_the_end_of_its_stem() {
    assert_eq!(number_of("frame_000123.png"), Some(123));
    assert_eq!(number_of("frame_000001.png"), Some(1));
    assert_eq!(number_of("frame_     7.png"), Some(7));
    assert_eq!(number_of("frame_0.png"), Some(0));
    assert_eq!(number_of("12"), Some(12));
    assert_eq!(number_of("a1.b2"), Some(1));
    assert_eq!(number_of("v2_frame_0042.tar.gz"), None);
    assert_eq!(number_of("v2_frame_0042.png"), Some(42));
    assert_eq!(number_of("7.png"), Some(7));
}

#[test]
fn a_name_without_digits_before_its_extension_has_no_number() {
    assert_eq!(number_of("frame.png"), None);
    assert_eq!(number_of("frame_12a.png"), None);
    assert_eq!(number_of(".png"), None);
    assert_eq!(number_of(""), None);
    assert_eq!(number_of("frame.123"), None);
    assert_eq!(number_of("12."), Some(12));
}

#[test]
fn a_number_too_large_for_a_u64_is_none() {
    assert_eq!(number_of("frame_18446744073709551615.png"), Some(u64::MAX));
    assert_eq!(number_of("frame_18446744073709551616.png"), None);
    assert_eq!(number_of("frame_99999999999999999999999.png"), None);
    assert_eq!(number_of("frame_00000000000000000000000000007.png"), Some(7));
}

#[test]
fn ascending_numbers_pass_the_check() {
    let stills = stills_named(&["f_003.png", "f_001.png", "f_002.png"]);
    let order = frame_order(&stills);
    assert_eq!(order, vec![1, 2, 0]);
    assert_eq!(check_numbering(&stills, &order), Ok(()));
    assert_eq!(check_numbering(&vec![], &vec![]), Ok(()));
}

#[test]
fn numbers_that_outgrow_their_padding_fail_the_check() {
    let stills = stills_named(&["frame_1.png", "frame_2.png", "frame_10.png"]);
    let order = frame_order(&stills);
    assert_eq!(order, vec![0, 2, 1]);
    assert_eq!(check_numbering(&stills, &order), Err(2));
}

#[test]
fn a_still_without_a_number_fails_the_check() {
    let stills = stills_named(&["frame_1.png", "frame_2.png", "notes.txt"]);
    let order = frame_order(&stills);
    assert_eq!(check_numbering(&stills, &order), Err(2));
    let stills = stills_named(&["cover.png", "frame_2.png"]);
    let order = frame_order(&stills);
    assert_eq!(check_numbering(&stills, &order), Err(0));
}

#[test]
fn a_repeated_number_fails_the_check() {
    let stills = stills_named(&["a_5.png", "b_5.png"]);
    let order = frame_order(&stills);
    assert_eq!(check_numbering(&stills, &order), Err(1));
}

#[test]
fn the_first_bad_place_is_told() {
    let stills = stills_named(&["f_1.png", "f_3.png", "f_2.png", "f_0.png"]);
    assert_eq!(check_numbering(&stills, &vec![0, 1, 2, 3]), Err(2));
    assert_eq!(check_numbering(&stills, &vec![3, 0, 2, 1]), Ok(()));
}

#[test]
fn zero_padded_names_play_in_the_order_of_their_numbers() {
    let mut stills = Vec::new();
    for n in [7u64, 120, 3, 99, 1, 100, 12, 11, 2, 1000, 999, 10] {
        stills.push(still_named(&format!("frame_{:06}.png", n)));
    }
    let order = frame_order(&stills);
    let numbers: Vec<u64> = order.iter().map(|&i| frame_number(&stills[i].name).unwrap()).collect();
    assert_eq!(numbers, vec![1, 2, 3, 7, 10, 11, 12, 99, 100, 120, 999, 1000]);
    assert_eq!(check_numbering(&stills, &order), Ok(()));
}

#[test]
fn space_padded_names_play_in_the_order_of_their_numbers() {
    let mut stills = Vec::new();
    for n in [30u64, 4, 200, 1, 17] {
        stills.push(still_named(&format!("frame_{:6}.png", n)));
    }
    let order = frame_order(&stills);
    let numbers: Vec<u64> = order.iter().map(|&i| frame_number(&stills[i].name).unwrap()).collect();
    assert_eq!(numbers, vec![1, 4, 17, 30, 200]);
    assert_eq!(check_numbering(&stills, &order), Ok(()));
}
