use nonogram::game::Game;
use nonogram::render::{double_vec_to_string, hint_layout, place_object};

fn chars(rows: &[&str]) -> Vec<Vec<char>> {
    rows.iter().map(|r| r.chars().collect()).collect()
}

#[test]
fn place_object_in_middle() {
    let mut buffer = chars(&["abcdef", "ghijkl", "mnopqr"]);
    place_object(chars(&["123", "456"]), 1, 1, &mut buffer);
    assert_eq!(buffer, chars(&["abcdef", "g123kl", "m456qr"]));
}

#[test]
fn place_object_at_corner() {
    let mut buffer = chars(&["....", "...."]);
    place_object(chars(&["xy"]), 0, 2, &mut buffer);
    assert_eq!(buffer, chars(&["..xy", "...."]));
}

#[test]
fn double_vec_joins_rows() {
    let buffer = vec![
        vec!["a".to_string(), "b".to_string()],
        vec!["c".to_string()],
        vec![],
    ];
    assert_eq!(double_vec_to_string(buffer), "ab\nc\n");
    assert_eq!(double_vec_to_string(vec![]), "");
}

#[test]
fn hint_layout_pads_and_shades() {
    let layout = hint_layout(&[vec![1], vec![12, 3]]);
    assert_eq!(
        layout,
        vec![
            vec![(' ', false), (' ', false), (' ', true), ('1', true)],
            vec![('1', false), ('2', false), (' ', true), ('3', true)],
        ]
    );
}

#[test]
fn hint_layout_empty_hint_is_blank() {
    let layout = hint_layout(&[vec![], vec![2, 1, 4]]);
    assert_eq!(layout[0], vec![(' ', false), (' ', true), (' ', false)]);
    assert_eq!(layout[1], vec![('2', false), ('1', true), ('4', false)]);
}

#[test]
fn render_hints_shape() {
    let r = Game::render_hints(&[vec![1], vec![12, 3]]);
    assert_eq!(r.len(), 2);
    assert!(r.iter().all(|row| row.len() == 4));
    assert!(r[1][0].contains('1'));
    assert!(r[1][3].contains('3'));
}

#[test]
fn render_grid_shape() {
    let game = Game::new(vec![vec![1], vec![1], vec![]], vec![vec![2], vec![1]]);
    let r = game.render_grid();
    assert_eq!(r.len(), 2);
    assert!(r.iter().all(|row| row.len() == 3));
}

#[test]
fn render_all_layout() {
    let mut game = Game::new(vec![vec![1], vec![2]], vec![vec![1], vec![1, 1]]);
    let r = game.render_all();
    assert_eq!(game.grid_pos, Some((1, 2)));
    assert_eq!(r.len(), 3);
    assert!(r.iter().all(|row| row.len() == 4));
    assert_eq!(r[0][0], " ");
    assert_eq!(r[0][1], " ");
    assert!(r[0][3].contains('2'));
}
