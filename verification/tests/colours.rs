use leptos_chartistry::colours::{arbitrary, grey_layout, Colour, ColourScheme};

#[test]
fn colour_formats_as_upper_case_hex() {
    assert_eq!(Colour::new(0x12, 0xA5, 0xED).to_string(), "#12A5ED");
    assert_eq!(Colour::new(0x7b, 0x4d, 0xff).to_string(), "#7B4DFF");
    assert_eq!(Colour::new(0, 0, 0).to_string(), "#000000");
    assert_eq!(Colour::new(255, 255, 255).to_string(), "#FFFFFF");
    assert_eq!(Colour::new(0x0a, 0xf0, 0x09).to_string(), "#0AF009");
}

#[test]
fn distinct_colours_format_differently() {
    let a = Colour::new(0x12, 0x34, 0x56);
    let b = Colour::new(0x12, 0x34, 0x57);
    assert_ne!(a.to_string(), b.to_string());
    assert_eq!(a.to_string(), Colour::new(0x12, 0x34, 0x56).to_string());
}

#[test]
fn palettes_hold_their_colours() {
    let greys: Vec<String> = grey_layout().iter().map(|c| c.to_string()).collect();
    assert_eq!(greys, vec!["#9A9A9A", "#D2D2D2", "#EFF2FA"]);
    let bright: Vec<String> = arbitrary().iter().map(|c| c.to_string()).collect();
    assert_eq!(
        bright,
        vec![
            "#12A5ED", "#F5325B", "#71C614", "#FF8400", "#7B4DFF", "#DB4CB2", "#92B42C",
            "#FFCA00", "#22D2BA", "#EA60DF"
        ]
    );
}

#[test]
fn scheme_by_index_cycles() {
    let colours = arbitrary();
    let scheme = ColourScheme::from_colours(&colours);
    assert_eq!(scheme.len(), 10);
    assert_eq!(scheme.by_index(0), colours[0]);
    assert_eq!(scheme.by_index(9), colours[9]);
    assert_eq!(scheme.by_index(10), colours[0]);
    assert_eq!(scheme.by_index(13), colours[3]);
    assert_eq!(scheme.by_index(13 + 10), scheme.by_index(13));
    assert_eq!(scheme.by_index(usize::MAX), colours[usize::MAX % 10]);
}

#[test]
fn scheme_of_one_colour_always_gives_it() {
    let only = Colour::new(1, 2, 3);
    let scheme = ColourScheme::new(vec![only]);
    assert_eq!(scheme.len(), 1);
    for i in 0..5 {
        assert_eq!(scheme.by_index(i), only);
    }
}

#[test]
fn signal_option_prefers_the_chosen_colour() {
    let scheme = ColourScheme::from_colours(&grey_layout());
    let chosen = Colour::new(0xAB, 0xCD, 0xEF);
    assert_eq!(Colour::signal_option(Some(chosen), &scheme, 1), chosen);
    assert_eq!(Colour::signal_option(None, &scheme, 1), grey_layout()[1]);
    assert_eq!(Colour::signal_option(None, &scheme, 4), grey_layout()[1]);
    let empty = ColourScheme::new(Vec::new());
    assert_eq!(Colour::signal_option(Some(chosen), &empty, 7), chosen);
}
