use gen_cpp_units::ident::make_literal_suffix;
use gen_cpp_units::ident::pascal_to_upper_snake;

#[test]
fn snake_simple() {
    assert_eq!(pascal_to_upper_snake("Meter"), "METER");
    assert_eq!(pascal_to_upper_snake("Kilometer"), "KILOMETER");
}

#[test]
fn snake_multi_word() {
    assert_eq!(pascal_to_upper_snake("PlanckLength"), "PLANCK_LENGTH");
    assert_eq!(pascal_to_upper_snake("LightYear"), "LIGHT_YEAR");
    assert_eq!(pascal_to_upper_snake("MicroArcsecond"), "MICRO_ARCSECOND");
    assert_eq!(pascal_to_upper_snake("BohrRadius"), "BOHR_RADIUS");
    assert_eq!(
        pascal_to_upper_snake("AstronomicalUnit"),
        "ASTRONOMICAL_UNIT"
    );
    assert_eq!(pascal_to_upper_snake("ErgPerSecond"), "ERG_PER_SECOND");
    assert_eq!(pascal_to_upper_snake("HourAngle"), "HOUR_ANGLE");
    assert_eq!(pascal_to_upper_snake("JulianCentury"), "JULIAN_CENTURY");
    assert_eq!(pascal_to_upper_snake("SynodicMonth"), "SYNODIC_MONTH");
    assert_eq!(pascal_to_upper_snake("SiderealDay"), "SIDEREAL_DAY");
}

#[test]
fn snake_abbreviation() {
    // All-caps abbreviation followed by PascalCase word.
    assert_eq!(pascal_to_upper_snake("HTTPSClient"), "HTTPS_CLIENT");
    // Single all-caps "word" — no underscore should be added.
    assert_eq!(pascal_to_upper_snake("AU"), "AU");
}

#[test]
fn snake_idempotent_on_ascii() {
    // Applying the casing rule to its own output changes nothing.
    for name in ["Meter", "PlanckLength", "HTTPSClient", "AU", "ErgPerSecond"] {
        let once = pascal_to_upper_snake(name);
        let twice = pascal_to_upper_snake(&once);
        assert_eq!(once, twice);
    }
}

#[test]
fn literal_suffix_simple() {
    assert_eq!(make_literal_suffix("m").as_deref(), Some("m"));
    assert_eq!(make_literal_suffix("km").as_deref(), Some("km"));
}

#[test]
fn literal_suffix_slash() {
    assert_eq!(
        make_literal_suffix("m/s").as_deref(),
        Some("m_per_s")
    );
}

#[test]
fn literal_suffix_unicode() {
    assert_eq!(make_literal_suffix("µm").as_deref(), Some("um"));
    assert_eq!(make_literal_suffix("°").as_deref(), Some("deg"));
    assert_eq!(make_literal_suffix("′").as_deref(), Some("arcmin"));
}

#[test]
fn literal_suffix_strips_non_ascii() {
    // λ̄_e → after removing non-ASCII chars the underscore and 'e' survive
    assert_eq!(make_literal_suffix("λ̄_e").as_deref(), Some("_e"));
    // A symbol that is purely non-ASCII yields None
    assert_eq!(make_literal_suffix("λ"), None);
}

#[test]
fn literal_suffix_more_replacements() {
    assert_eq!(make_literal_suffix("″").as_deref(), Some("arcsec"));
    assert_eq!(make_literal_suffix("☉").as_deref(), Some("sol"));
    assert_eq!(make_literal_suffix("⊕").as_deref(), Some("earth"));
    assert_eq!(make_literal_suffix("☾").as_deref(), Some("moon"));
    assert_eq!(make_literal_suffix("♃").as_deref(), Some("jupiter"));
    assert_eq!(make_literal_suffix("light year").as_deref(), Some("light_year"));
    assert_eq!(make_literal_suffix("erg/s").as_deref(), Some("erg_per_s"));
}
