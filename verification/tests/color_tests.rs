use clrs::color::{TileColor, TileColorStrength};

fn color(s: TileColorStrength) -> TileColor {
    TileColor { tile_color_strength: s }
}

const ALL: [TileColorStrength; 6] = [
    TileColorStrength::Neutral,
    TileColorStrength::One,
    TileColorStrength::Two,
    TileColorStrength::Three,
    TileColorStrength::Four,
    TileColorStrength::Five,
];

#[test]
fn number_representation_counts_the_steps() {
    for (i, s) in ALL.iter().enumerate() {
        assert_eq!(color(*s).get_number_representation(), i as u32);
    }
}

#[test]
fn only_five_is_max_strength() {
    for s in ALL.iter() {
        assert_eq!(color(*s).max_strength(), *s == TileColorStrength::Five);
    }
}

#[test]
fn damage_lowers_one_step_and_stops_at_neutral() {
    let mut c = color(TileColorStrength::Three);
    c.damage();
    assert_eq!(c.tile_color_strength, TileColorStrength::Two);
    let mut n = color(TileColorStrength::Neutral);
    n.damage();
    assert_eq!(n.tile_color_strength, TileColorStrength::Neutral);
}

#[test]
fn strengthen_raises_one_step_and_stops_at_five() {
    let mut c = color(TileColorStrength::Neutral);
    c.strengthen();
    assert_eq!(c.tile_color_strength, TileColorStrength::One);
    let mut f = color(TileColorStrength::Five);
    f.strengthen();
    assert_eq!(f.tile_color_strength, TileColorStrength::Five);
}

#[test]
fn damage_undoes_strengthen_below_five() {
    for s in ALL.iter().take(5) {
        let mut c = color(*s);
        c.strengthen();
        c.damage();
        assert_eq!(c.tile_color_strength, *s);
    }
}

#[test]
fn five_strengthens_saturate() {
    let mut c = color(TileColorStrength::Neutral);
    for _ in 0..5 {
        c.strengthen();
    }
    assert!(c.max_strength());
}

#[test]
fn default_color_is_neutral() {
    assert_eq!(TileColor::default().tile_color_strength, TileColorStrength::Neutral);
}

#[test]
fn scale_in_tenths_follows_strength() {
    let expected = [10, 5, 6, 7, 8, 10];
    for (s, e) in ALL.iter().zip(expected.iter()) {
        assert_eq!(color(*s).scale_tenths(), *e);
    }
}
