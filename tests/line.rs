use nonogram::game::Game;
use nonogram::line::Square;
use nonogram::text::{line_from_str, str_from_line, str_from_placements, test_line};

fn left(hint: &[u32], line: &str) -> Option<String> {
    str_from_placements(Game::place_all_left(hint, &line_from_str(line)))
}

fn right(hint: &[u32], line: &str) -> Option<String> {
    str_from_placements(Game::place_all_right(hint, &line_from_str(line)))
}

fn refine(hint: &[u32], line: &str) -> (String, bool, bool) {
    let (l, solved, changed) = Game::refine_line(&line_from_str(line), hint);
    (str_from_line(l), solved, changed)
}

#[test]
fn left_one_seg_1() {
    assert_eq!(left(&[3], "_____"), Some("000__".to_owned()));
}

#[test]
fn left_one_seg_2() {
    assert_eq!(left(&[3], "___o_"), Some("_000_".to_owned()));
}

#[test]
fn left_one_seg_3() {
    assert_eq!(left(&[3], "____o"), Some("__000".to_owned()));
}

#[test]
fn left_one_seg_4() {
    assert_eq!(left(&[3], "x____"), Some("_000_".to_owned()));
}

#[test]
fn left_one_seg_5() {
    assert_eq!(left(&[3], "xx___"), Some("__000".to_owned()));
}

#[test]
fn left_one_seg_6() {
    assert_eq!(left(&[3], "x___x"), Some("_000_".to_owned()));
}

#[test]
fn left_two_seg_1() {
    assert_eq!(left(&[3, 2], "__________"), Some("000_11____".to_owned()));
}

#[test]
fn left_two_seg_2() {
    assert_eq!(left(&[3, 2], "____x_____"), Some("000__11___".to_owned()));
}

#[test]
fn left_two_seg_3() {
    assert_eq!(left(&[3, 2], "_________o"), Some("000_____11".to_owned()));
}

#[test]
fn left_too_long_1() {
    assert_eq!(left(&[3], "__"), None);
}

#[test]
fn left_filled_left() {
    assert_eq!(left(&[1, 1], "oxox______"), Some("0_1_______".to_owned()));
}

#[test]
fn left_filled_left1() {
    assert_eq!(left(&[1, 1], "oxoxxxxx__"), Some("0_1_______".to_owned()));
}

#[test]
fn left_filled_left2() {
    assert_eq!(left(&[1, 1], "xxxxxxxoxo"), Some("_______0_1".to_owned()));
}

#[test]
fn left_must_shift_earlier_segment() {
    // both segments must cover the filled cells, so the first moves right past its
    // leftmost free start
    assert_eq!(left(&[1, 1], "__o_o"), Some("__0_1".to_owned()));
    assert_eq!(left(&[2, 1], "_o__o"), Some("00__1".to_owned()));
}

#[test]
fn left_many_segments_hex_digits() {
    let hint = vec![1u32; 17];
    let line = "_".repeat(33);
    let got = left(&hint, &line).unwrap();
    assert_eq!(&got[0..1], "0");
    assert_eq!(&got[20..21], "a");
    assert_eq!(&got[30..31], "f");
    assert_eq!(&got[32..33], "1");
}

#[test]
fn right_one_seg_1() {
    assert_eq!(right(&[3], "_____"), Some("__000".to_owned()));
}

#[test]
fn right_two_seg_1() {
    assert_eq!(right(&[3, 2], "__________"), Some("____000_11".to_owned()));
}

#[test]
fn right_too_long_1() {
    assert_eq!(right(&[3], "__"), None);
}

#[test]
fn right_filled_left1() {
    assert_eq!(right(&[1, 1], "oxox______"), Some("0_1_______".to_owned()));
}

#[test]
fn right_filled_left2() {
    assert_eq!(right(&[1, 1], "oxoxx_____"), Some("0_1_______".to_owned()));
}

#[test]
fn right_filled_left3() {
    assert_eq!(right(&[1, 1], "oxoxxx____"), Some("0_1_______".to_owned()));
}

#[test]
fn right_filled_left4() {
    assert_eq!(right(&[1, 1], "oxoxxxx___"), Some("0_1_______".to_owned()));
}

#[test]
fn right_filled_left5() {
    assert_eq!(right(&[1, 1], "oxoxxxxx__"), Some("0_1_______".to_owned()));
}

#[test]
fn right_filled_left6() {
    assert_eq!(right(&[1, 1], "oxoxxxxxx_"), Some("0_1_______".to_owned()));
}

#[test]
fn right_filled_left7() {
    assert_eq!(right(&[1, 1], "oxoxxxxxxx"), Some("0_1_______".to_owned()));
}

#[test]
fn right_filled_left8() {
    assert_eq!(right(&[1, 1], "oxo_______"), Some("0_1_______".to_owned()));
}

#[test]
fn right_filled_left9() {
    assert_eq!(right(&[1, 1], "o_o_______"), Some("0_1_______".to_owned()));
}

#[test]
fn overlap_1() {
    assert_eq!(refine(&[4], "______").0, "__oo__");
}

#[test]
fn overlap_2() {
    assert_eq!(refine(&[4], "oooo__").0, "ooooxx");
}

#[test]
fn empty() {
    assert_eq!(refine(&[], "_____").0, "xxxxx");
}

#[test]
fn capping_beyond_overlap_rule() {
    // the two extreme placements share no segment and no gap here, so the overlap rule
    // forces nothing
    assert_eq!(refine(&[1, 1, 1, 1], "x_x__o_o__"), ("x_x__o_o__".to_owned(), false, false));
}

#[test]
fn i_dunno() {
    assert_eq!(refine(&[1, 1], "oxoxxxxx__").0, "oxoxxxxxxx");
}

#[test]
fn refine_four_in_six_flags() {
    assert_eq!(refine(&[4], "______"), ("__oo__".to_owned(), false, true));
}

#[test]
fn refine_solved_line_flags() {
    assert_eq!(refine(&[4], "oooo__"), ("ooooxx".to_owned(), true, true));
}

#[test]
fn refine_empty_hint_flags() {
    assert_eq!(refine(&[], "_____"), ("xxxxx".to_owned(), true, true));
}

#[test]
fn refine_unchanged_line() {
    assert_eq!(refine(&[2], "_oo_"), ("xoox".to_owned(), true, true));
    assert_eq!(refine(&[2], "xoox"), ("xoox".to_owned(), true, false));
    assert_eq!(refine(&[1, 1], "____"), ("____".to_owned(), false, false));
}

#[test]
fn check_line_matches_runs() {
    let l = line_from_str("ooxo");
    assert!(Game::check_line(&[2, 1], &l));
    assert!(!Game::check_line(&[1, 2], &l));
    assert!(!Game::check_line(&[2], &l));
    assert!(!Game::check_line(&[2, 1, 1], &l));
    assert!(Game::check_line(&[], &line_from_str("xxx")));
    assert!(Game::check_line(&[3], &line_from_str("ooo")));
    assert!(!Game::check_line(&[0], &line_from_str("xxx")));
    assert!(Game::check_line(&[], &[]));
}

#[test]
fn single_completion_left_equals_right() {
    for (hint, line) in [(&[1u32, 1][..], "o_o"), (&[3u32][..], "_o_"), (&[2, 1][..], "oo_o")] {
        assert_eq!(left(hint, line), right(hint, line));
    }
}

#[test]
fn mirror_law() {
    let cases: [(&[u32], &str); 4] = [(&[3, 2], "__________"), (&[1, 2], "x___o__"), (&[2], "o___"), (&[1, 1], "_x_")];
    for (hint, line) in cases {
        let mut rh = hint.to_vec();
        rh.reverse();
        let mut rl = line_from_str(line);
        rl.reverse();
        let expected = Game::place_all_left(&rh, &rl).map(|mut p| {
            p.reverse();
            p.into_iter().map(|c| c.map(|k| hint.len() - k - 1)).collect::<Vec<_>>()
        });
        assert_eq!(Game::place_all_right(hint, &line_from_str(line)), expected);
    }
}

#[test]
fn refine_keeps_known_and_settles() {
    let line = line_from_str("o_x___");
    let (first, _, _) = Game::refine_line(&line, &[2, 1]);
    for (a, b) in line.iter().zip(first.iter()) {
        if *a != Square::Unknown {
            assert_eq!(a, b);
        }
    }
    let (solved_line, solved, _) = Game::refine_line(&line_from_str("_o_xo"), &[2, 1]);
    if solved {
        let (again, solved_again, changed_again) = Game::refine_line(&solved_line, &[2, 1]);
        assert_eq!(again, solved_line);
        assert!(solved_again);
        assert!(!changed_again);
    }
}

#[test]
fn text_round_trip() {
    let l = line_from_str("_ox");
    assert_eq!(l, vec![Square::Unknown, Square::Filled, Square::Empty]);
    assert_eq!(str_from_line(l), "_ox");
    assert_eq!(str_from_placements(Some(vec![None, Some(0), Some(11), Some(300)])), Some("_0b1".to_owned()));
    assert_eq!(str_from_placements(None), None);
}

#[test]
fn test_line_helper() {
    assert!(test_line(&[3], "_____", Some("000__")));
    assert!(!test_line(&[3], "_____", Some("__000")));
    assert!(test_line(&[3], "__", None));
    assert!(!test_line(&[3], "__", Some("00")));
}
