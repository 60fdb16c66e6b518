use akafoe_menu::meal::{description_matches, Meal};

#[test]
fn canonical_description_is_extracted() {
    let m = Meal::new("Spaghetti Bolognese (vegetarian) 1,50 EUR - 3,00 EUR");
    assert_eq!(m.desc, "Spaghetti Bolognese");
    assert_eq!(m.info, "(vegetarian)");
    assert_eq!(m.price_student, "1.50");
    assert_eq!(m.price_regular, "3.00");
    assert_eq!(m.price_student.parse::<f32>().unwrap(), 1.50);
    assert_eq!(m.price_regular.parse::<f32>().unwrap(), 3.00);
    assert!(description_matches(
        "Spaghetti Bolognese (vegetarian) 1,50 EUR - 3,00 EUR"
    ));
}

#[test]
fn unparseable_description_falls_back_with_warning() {
    let m = Meal::new("random unparseable text");
    assert_eq!(m.desc, "No description");
    assert_eq!(m.info, "");
    assert_eq!(m.price_student, "0.0");
    assert_eq!(m.price_regular, "0.0");
    assert_eq!(m.price_student.parse::<f32>().unwrap(), 0.0);
    assert!(!description_matches("random unparseable text"));
}

#[test]
fn description_without_info_group() {
    let m = Meal::new("Currywurst 2,20 EUR - 3,30 EUR");
    assert_eq!(m.desc, "Currywurst");
    assert_eq!(m.info, "");
    assert_eq!(m.price_student, "2.20");
    assert_eq!(m.price_regular, "3.30");
}

#[test]
fn two_info_groups_are_kept_together() {
    let m = Meal::new("Pasta (veg) (vegan) 1,00 EUR - 2,00 EUR");
    assert_eq!(m.desc, "Pasta");
    assert_eq!(m.info, "(veg) (vegan)");
}

#[test]
fn whitespace_runs_are_collapsed() {
    let m = Meal::new("Pasta   mit\t So\u{df}e  (scharf)   1,50  EUR  -  3,00  EUR");
    assert_eq!(m.desc, "Pasta mit So\u{df}e");
    assert_eq!(m.info, "(scharf)");
    assert_eq!(m.price_student, "1.50");
    assert_eq!(m.price_regular, "3.00");
}

#[test]
fn punctuation_gets_a_following_space() {
    let m = Meal::new("Chili,Reis:scharf 1,00 EUR - 2,00 EUR");
    assert_eq!(m.desc, "Chili, Reis: scharf");
}

#[test]
fn punctuation_spacing_is_idempotent_on_a_name() {
    let once = Meal::new("Chili,Reis 1,00 EUR - 2,00 EUR");
    // feeding a name that already carries the spacing changes nothing
    let again = Meal::new(&format!(
        "{} 1,00 EUR - 2,00 EUR",
        once.desc
    ));
    assert_eq!(once.desc, again.desc);
}

#[test]
fn price_with_two_commas_falls_back_silently() {
    let m = Meal::new("Suppe 1,5,0 EUR - 2 EUR");
    assert_eq!(m.desc, "Suppe");
    assert_eq!(m.price_student, "0.0");
    assert_eq!(m.price_regular, "2");
}

#[test]
fn price_of_only_commas_falls_back() {
    // `,` is a price-shaped token but not a readable number
    let m = Meal::new("Suppe , EUR - 2,00 EUR");
    assert_eq!(m.desc, "Suppe");
    assert_eq!(m.price_student, "0.0");
    assert_eq!(m.price_regular, "2.00");
}

#[test]
fn missing_space_before_info_group_does_not_match() {
    let m = Meal::new("Name(veg) 1,00 EUR - 2,00 EUR");
    assert_eq!(m.desc, "No description");
    assert_eq!(m.info, "");
}

#[test]
fn stray_closing_paren_in_name_does_not_match() {
    let m = Meal::new("Na)me 1,00 EUR - 2,00 EUR");
    assert_eq!(m.desc, "No description");
}

#[test]
fn missing_second_price_does_not_match() {
    let m = Meal::new("Eintopf 2,50 EUR");
    assert_eq!(m.desc, "No description");
}

#[test]
fn tight_spacing_around_markers_matches() {
    let m = Meal::new("Salat 1,10EUR-2,20EUR");
    assert_eq!(m.desc, "Salat");
    assert_eq!(m.price_student, "1.10");
    assert_eq!(m.price_regular, "2.20");
}

#[test]
fn trailing_garbage_after_info_does_not_match() {
    let m = Meal::new("Name (x) y 1,00 EUR - 2,00 EUR");
    assert_eq!(m.desc, "No description");
}
