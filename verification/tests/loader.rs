use gen_cpp_units::parse::parse_units;
use gen_cpp_units::parse::ParseWarning;
use gen_cpp_units::records::dimension_of_discriminant;
use gen_cpp_units::records::Dimension;

#[test]
fn dimension_mapping_exact() {
    assert_eq!(dimension_of_discriminant(10011), Some(Dimension::Length));
    assert_eq!(dimension_of_discriminant(19999), Some(Dimension::Length));
    assert_eq!(dimension_of_discriminant(20001), Some(Dimension::Time));
    assert_eq!(dimension_of_discriminant(30000), Some(Dimension::Angle));
    assert_eq!(dimension_of_discriminant(40123), Some(Dimension::Mass));
    assert_eq!(dimension_of_discriminant(50002), Some(Dimension::Power));
    // Codes outside 1..=5 are rejected.
    assert_eq!(dimension_of_discriminant(0), None);
    assert_eq!(dimension_of_discriminant(9999), None);
    assert_eq!(dimension_of_discriminant(60000), None);
    assert_eq!(dimension_of_discriminant(4_000_000_000), None);
}

#[test]
fn loader_accepts_valid_rows() {
    let text = "\
# comment line\n\
\n\
10011,Length,Meter,m,1.0\n\
  20011 , Time , SiderealDay , d , 86164.0905  \n\
30011,Angle,Degree,°,0.017453292519943295\n";
    let (records, warnings) = parse_units(text);
    assert_eq!(records.len(), 3);
    assert!(warnings.is_empty());
    assert_eq!(records[0].name, "Meter");
    assert_eq!(records[0].constant_suffix, "METER");
    assert_eq!(records[0].symbol, "m");
    assert_eq!(records[0].dimension, Dimension::Length);
    assert_eq!(records[1].name, "SiderealDay");
    assert_eq!(records[1].constant_suffix, "SIDEREAL_DAY");
    assert_eq!(records[1].symbol, "d");
    assert_eq!(records[1].dimension, Dimension::Time);
    assert_eq!(records[2].symbol, "°");
    assert_eq!(records[2].dimension, Dimension::Angle);
}

#[test]
fn loader_keeps_commas_in_last_field() {
    // The split keeps everything past the fourth comma in the fifth field.
    let text = "10011,Length,Meter,m,1.0,extra,fields\n";
    let (records, warnings) = parse_units(text);
    assert_eq!(records.len(), 1);
    assert!(warnings.is_empty());
    assert_eq!(records[0].name, "Meter");
}

#[test]
fn loader_skips_malformed_lines() {
    let text = "\
10011,Length,Meter,m,1.0\n\
only,four,fields,here\n\
abc,Length,Bogus,b,1.0\n\
70001,Nowhere,Elsewhere,e,1.0\n\
20011,Time,Day,d,86400.0\n";
    let (records, warnings) = parse_units(text);
    // The bad rows never appear in the output and never abort the run.
    assert_eq!(records.len(), 2);
    assert_eq!(records[0].name, "Meter");
    assert_eq!(records[1].name, "Day");
    assert_eq!(warnings.len(), 3);
    match &warnings[0] {
        ParseWarning::MalformedLine { line } => {
            assert_eq!(line, "only,four,fields,here");
        }
        other => panic!("expected a malformed-line warning, got {:?}", warning_kind(other)),
    }
    match &warnings[1] {
        ParseWarning::InvalidDiscriminant { line } => {
            assert_eq!(line, "abc,Length,Bogus,b,1.0");
        }
        other => panic!("expected an invalid-discriminant warning, got {:?}", warning_kind(other)),
    }
    match &warnings[2] {
        ParseWarning::UnknownDimensionCode { discriminant, code } => {
            assert_eq!(*discriminant, 70001);
            assert_eq!(*code, 7);
        }
        other => panic!("expected an unknown-code warning, got {:?}", warning_kind(other)),
    }
}

fn warning_kind(w: &ParseWarning) -> &'static str {
    match w {
        ParseWarning::MalformedLine { .. } => "malformed line",
        ParseWarning::InvalidDiscriminant { .. } => "invalid discriminant",
        ParseWarning::UnknownDimensionCode { .. } => "unknown dimension code",
    }
}

#[test]
fn loader_dimension_field_is_ignored() {
    // The dimension comes from the discriminant, not from the second field.
    let text = "20011,Length,Day,d,86400.0\n";
    let (records, warnings) = parse_units(text);
    assert_eq!(records.len(), 1);
    assert!(warnings.is_empty());
    assert_eq!(records[0].dimension, Dimension::Time);
}

#[test]
fn loader_accepts_plus_sign_and_leading_zeros() {
    let text = "\
+10011,Length,Meter,m,1.0\n\
0020011,Time,Day,d,86400.0\n\
99999999999999999999,Huge,TooBig,t,1.0\n";
    let (records, warnings) = parse_units(text);
    assert_eq!(records.len(), 2);
    assert_eq!(records[0].dimension, Dimension::Length);
    assert_eq!(records[1].dimension, Dimension::Time);
    // An overflowing discriminant is an invalid discriminant, not a crash.
    assert_eq!(warnings.len(), 1);
    assert!(matches!(&warnings[0], ParseWarning::InvalidDiscriminant { .. }));
}
