use gen_cpp_units::emit::escape_cpp_string;
use gen_cpp_units::emit::generate_dimension_header;
use gen_cpp_units::emit::generate_headers;
use gen_cpp_units::emit::generate_literals;
use gen_cpp_units::group::units_for_dimension;
use gen_cpp_units::parse::parse_units;
use gen_cpp_units::records::dimension_file_name;
use gen_cpp_units::records::Dimension;

#[test]
fn escape_backslash_and_quote() {
    assert_eq!(escape_cpp_string("m"), "m");
    assert_eq!(escape_cpp_string("a\"b\\c"), "a\\\"b\\\\c");
    // Multi-byte characters pass through untouched.
    assert_eq!(escape_cpp_string("µm"), "µm");
}

#[test]
fn file_names_are_fixed() {
    assert_eq!(dimension_file_name(Dimension::Length), "length.hpp");
    assert_eq!(dimension_file_name(Dimension::Time), "time.hpp");
    assert_eq!(dimension_file_name(Dimension::Angle), "angular.hpp");
    assert_eq!(dimension_file_name(Dimension::Mass), "mass.hpp");
    assert_eq!(dimension_file_name(Dimension::Power), "power.hpp");
}

#[test]
fn grouping_preserves_row_order() {
    let text = "\
10011,Length,Meter,m,1.0\n\
20011,Time,Day,d,86400.0\n\
10012,Length,Kilometer,km,1000.0\n\
10013,Length,Micrometer,µm,0.000001\n";
    let (records, _) = parse_units(text);
    let lengths = units_for_dimension(&records, Dimension::Length);
    assert_eq!(lengths.len(), 3);
    assert_eq!(lengths[0].name, "Meter");
    assert_eq!(lengths[1].name, "Kilometer");
    assert_eq!(lengths[2].name, "Micrometer");
    let times = units_for_dimension(&records, Dimension::Time);
    assert_eq!(times.len(), 1);
    assert_eq!(times[0].name, "Day");
    let masses = units_for_dimension(&records, Dimension::Mass);
    assert!(masses.is_empty());
}

#[test]
fn header_has_each_unit_exactly_once() {
    let text = "\
10011,Length,Meter,m,1.0\n\
10012,Length,Kilometer,km,1000.0\n";
    let (records, _) = parse_units(text);
    let lengths = units_for_dimension(&records, Dimension::Length);
    let header = generate_dimension_header("Length", &lengths);
    for name in ["Meter", "Kilometer"] {
        let tag = format!("struct {name}Tag {{}};\n");
        let spec = format!("template <> struct UnitTraits<{name}Tag> {{\n");
        let alias = format!("using {name} = Quantity<{name}Tag>;\n");
        assert_eq!(header.matches(&tag).count(), 1);
        assert_eq!(header.matches(&spec).count(), 1);
        assert_eq!(header.matches(&alias).count(), 1);
    }
    assert!(header.contains("#pragma once\n"));
    assert!(header.contains("#include \"../ffi_core.hpp\"\n"));
    assert!(header.contains("namespace qtty {\n"));
    assert!(header.contains("} // namespace qtty\n"));
    assert!(header.contains("  static constexpr UnitId unit_id() { return UNIT_ID_KILOMETER; }\n"));
    assert!(header.contains("  static constexpr std::string_view symbol() { return \"km\"; }\n"));
}

#[test]
fn header_sections_are_ordered() {
    let text = "10011,Length,Meter,m,1.0\n";
    let (records, _) = parse_units(text);
    let lengths = units_for_dimension(&records, Dimension::Length);
    let header = generate_dimension_header("Length", &lengths);
    let tag_at = header.find("struct MeterTag {};").unwrap();
    let spec_at = header.find("template <> struct UnitTraits<MeterTag>").unwrap();
    let alias_at = header.find("using Meter = Quantity<MeterTag>;").unwrap();
    assert!(tag_at < spec_at);
    assert!(spec_at < alias_at);
}

#[test]
fn headers_skip_empty_dimensions() {
    let text = "\
10011,Length,Meter,m,1.0\n\
30011,Angle,Degree,°,0.0174\n";
    let (records, _) = parse_units(text);
    let (artifacts, empties) = generate_headers(&records);
    assert_eq!(artifacts.len(), 2);
    assert_eq!(artifacts[0].dimension, Dimension::Length);
    assert_eq!(artifacts[1].dimension, Dimension::Angle);
    assert!(artifacts[0].content.contains("struct MeterTag {};"));
    assert!(artifacts[1].content.contains("struct DegreeTag {};"));
    // The empty dimensions are reported, never written as empty files.
    assert_eq!(empties, vec![Dimension::Time, Dimension::Mass, Dimension::Power]);
}

#[test]
fn literals_emit_two_operators_per_unit() {
    let text = "\
10011,Length,Meter,m,1.0\n\
20011,Time,Second,s,1.0\n";
    let (records, _) = parse_units(text);
    let (content, conflicts) = generate_literals(&records);
    assert!(conflicts.is_empty());
    assert!(content.contains("// Length literals\n"));
    assert!(content.contains("// Time literals\n"));
    assert!(content.contains("constexpr Meter operator\"\"_m(long double value) {\n"));
    assert!(content.contains("constexpr Meter operator\"\"_m(unsigned long long value) {\n"));
    assert!(content.contains("constexpr Second operator\"\"_s(long double value) {\n"));
    assert!(content.contains("  return Meter(static_cast<double>(value));\n"));
    assert!(content.contains("inline namespace literals {\n"));
    assert!(content.contains("#include \"units/length.hpp\"\n"));
    assert!(content.contains("} // namespace literals\n"));
}

#[test]
fn literal_conflict_first_wins() {
    // Two units in the same dimension whose suffixes collide: the first
    // processed keeps the literal, the second is skipped with a diagnostic
    // naming both.
    let text = "\
10011,Length,Meter,m,1.0\n\
10012,Length,Mile,m,1609.344\n";
    let (records, _) = parse_units(text);
    let (content, conflicts) = generate_literals(&records);
    assert!(content.contains("constexpr Meter operator\"\"_m(long double value) {\n"));
    assert!(!content.contains("constexpr Mile operator\"\"_m"));
    assert_eq!(conflicts.len(), 1);
    assert_eq!(conflicts[0].suffix, "m");
    assert_eq!(conflicts[0].unit, "Mile");
    assert_eq!(conflicts[0].prior, "Meter");
}

#[test]
fn literal_conflict_across_dimensions() {
    // The registry is shared across dimensions, walked in the fixed order
    // Length, Time, Angle, Mass, Power: a Length unit registers first even
    // when the colliding unit's row comes earlier in the file.
    let text = "\
20011,Time,Minute,min,60.0\n\
10011,Length,MinimalUnit,min,1.0\n";
    let (records, _) = parse_units(text);
    let (content, conflicts) = generate_literals(&records);
    assert!(content.contains("constexpr MinimalUnit operator\"\"_min(long double value) {\n"));
    assert!(!content.contains("constexpr Minute operator\"\"_min"));
    assert_eq!(conflicts.len(), 1);
    assert_eq!(conflicts[0].suffix, "min");
    assert_eq!(conflicts[0].unit, "Minute");
    assert_eq!(conflicts[0].prior, "MinimalUnit");
}

#[test]
fn literals_skip_units_without_suffix() {
    let text = "\
10011,Length,Lambda,λ,1.0\n\
20011,Time,Second,s,1.0\n";
    let (records, _) = parse_units(text);
    let (content, conflicts) = generate_literals(&records);
    assert!(conflicts.is_empty());
    // The symbol with no usable suffix yields no operator and no banner for
    // a dimension whose units all lack one.
    assert!(!content.contains("// Length literals"));
    assert!(!content.contains("constexpr Lambda"));
    assert!(content.contains("constexpr Second operator\"\"_s(long double value) {\n"));
}

#[test]
fn malformed_rows_never_reach_artifacts() {
    let text = "\
10011,Length,Meter,m,1.0\n\
bogus,Length,Ghost,g,1.0\n\
not even close\n";
    let (records, warnings) = parse_units(text);
    assert_eq!(warnings.len(), 2);
    let (artifacts, _) = generate_headers(&records);
    let (literals, _) = generate_literals(&records);
    for artifact in &artifacts {
        assert!(!artifact.content.contains("Ghost"));
    }
    assert!(!literals.contains("Ghost"));
    assert!(literals.contains("constexpr Meter"));
}

#[test]
fn escaped_symbol_lands_in_header() {
    let text = "10011,Length,Weird,a\"b,1.0\n";
    let (records, _) = parse_units(text);
    let lengths = units_for_dimension(&records, Dimension::Length);
    let header = generate_dimension_header("Length", &lengths);
    assert!(header.contains("symbol() { return \"a\\\"b\"; }"));
}
