use gamey::{Coordinates, GameY, Movement, PlayerId, RenderOptions};

fn small_game() -> GameY {
    let mut game = GameY::new(2);
    game.add_move(Movement::Placement {
        player: PlayerId::new(0),
        coords: Coordinates::new(1, 0, 0),
    })
    .unwrap();
    game.add_move(Movement::Placement {
        player: PlayerId::new(1),
        coords: Coordinates::new(0, 1, 0),
    })
    .unwrap();
    game
}

#[test]
fn render_plain_board() {
    let options = RenderOptions {
        show_3d_coords: false,
        show_idx: false,
        show_colors: false,
    };
    assert_eq!(
        small_game().render(&options),
        "--- Game of Y (Size 2) ---\n  0   \n.   1   \n"
    );
}

#[test]
fn render_with_coordinates_and_indices() {
    let options = RenderOptions {
        show_3d_coords: true,
        show_idx: true,
        show_colors: false,
    };
    let expected = String::from("--- Game of Y (Size 2) ---\n")
        + "        0(1,0,0)(0)    \n\n"
        + ".(0,0,1)(1)    1(0,1,0)(2)    \n\n";
    assert_eq!(small_game().render(&options), expected);
}

#[test]
fn render_pads_coordinates_to_the_size_width() {
    let options = RenderOptions {
        show_3d_coords: true,
        show_idx: false,
        show_colors: false,
    };
    let text = GameY::new(10).render(&options);
    assert!(text.starts_with("--- Game of Y (Size 10) ---\n"));
    assert!(text.contains(".(09,00,00)   \n"));
    assert!(text.contains(".(00,09,00)   \n"));
}

#[test]
fn render_with_colors() {
    let options = RenderOptions {
        show_3d_coords: false,
        show_idx: false,
        show_colors: true,
    };
    assert_eq!(
        small_game().render(&options),
        "--- Game of Y (Size 2) ---\n  \u{1b}[34m0\u{1b}[0m   \n.   \u{1b}[31m1\u{1b}[0m   \n"
    );
}
