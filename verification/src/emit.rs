//! The emitter: renders the grouped records into the per-dimension headers
//! and the consolidated literal-operators header.

use vstd::prelude::*;
use vstd::string::StringExecFns;
use crate::chars::chars_to_string;
use crate::chars::str_to_chars;
use crate::group::group_of;
use crate::group::units_for_dimension;
use crate::ident::make_literal_suffix;
use crate::ident::suffix_of;
use crate::records::Dimension;
use crate::records::dimension_name;
use crate::records::dimension_order;
use crate::records::spec_dimension_name;
use crate::records::UnitRecord;
use crate::records::UnitView;
use crate::records::views_of;

verus! {

// ---------------------------------------------------------------------
// Escaping symbol text for embedding in a string literal
// ---------------------------------------------------------------------

/// How one character is embedded in a C++ string literal: backslash and
/// double quote get a backslash, everything else passes through.
pub open spec fn escape_char(c: char) -> Seq<char> {
    if c == '\\' {
        seq!['\\', '\\']
    } else if c == '"' {
        seq!['\\', '"']
    } else {
        seq![c]
    }
}

/// The escaped form of the first `n` characters of `s`.
pub open spec fn escape_prefix(s: Seq<char>, n: int) -> Seq<char>
    decreases n,
{
    if n <= 0 {
        Seq::empty()
    } else {
        escape_prefix(s, n - 1) + escape_char(s[n - 1])
    }
}

/// The escaped form of a whole string.
pub open spec fn escape_seq(s: Seq<char>) -> Seq<char> {
    escape_prefix(s, s.len() as int)
}

/// Escape a string for embedding in a C++ string literal: only backslashes
/// and double quotes are escaped; all other characters, multi-byte ones
/// included, pass through unchanged.
pub fn escape_cpp_string(s: &str) -> (r: String)
    ensures
        r@ == escape_seq(s@),
{
    let cs = str_to_chars(s);
    let n = cs.len();
    let mut out: Vec<char> = Vec::new();
    let mut i: usize = 0;
    while i < n
        invariant
            i <= n,
            n == cs@.len(),
            cs@ == s@,
            out@ == escape_prefix(s@, i as int),
        decreases n - i,
    {
        let c = cs[i];
        let mut piece: Vec<char> = if c == '\\' {
            vec!['\\', '\\']
        } else if c == '"' {
            vec!['\\', '"']
        } else {
            vec![c]
        };
        out.append(&mut piece);
        proof {
            assert(out@ =~= escape_prefix(s@, i as int) + escape_char(s@[i as int]));
        }
        i = i + 1;
    }
    chars_to_string(&out)
}

// ---------------------------------------------------------------------
// The per-dimension header
// ---------------------------------------------------------------------

/// The license banner stamped on every generated file.
pub open spec fn license_text() -> Seq<char> {
    "// SPDX-License-Identifier: AGPL-3.0-or-later\n// Copyright (C) 2026 Vall\u{e9}s Puig, Ramon\n"@
}

fn license_str() -> (r: &'static str)
    ensures
        r@ == license_text(),
{
    "// SPDX-License-Identifier: AGPL-3.0-or-later\n// Copyright (C) 2026 Vall\u{e9}s Puig, Ramon\n"
}

/// One unit's tag declaration.
pub open spec fn tag_line(u: UnitView) -> Seq<char> {
    "struct "@ + u.name + "Tag {};\n"@
}

/// One unit's trait specialization: its identifier constant and its symbol,
/// the latter escaped for embedding.
pub open spec fn traits_block(u: UnitView) -> Seq<char> {
    "template <> struct UnitTraits<"@ + u.name + "Tag> {\n"@
        + "  static constexpr UnitId unit_id() { return UNIT_ID_"@ + u.constant_suffix + "; }\n"@
        + "  static constexpr std::string_view symbol() { return \""@ + escape_seq(u.symbol)
        + "\"; }\n"@ + "};\n"@
}

/// One unit's type alias.
pub open spec fn alias_line(u: UnitView) -> Seq<char> {
    "using "@ + u.name + " = Quantity<"@ + u.name + "Tag>;\n"@
}

/// The tag declarations of the first `n` units, one per unit, in order.
pub open spec fn tags_prefix(us: Seq<UnitView>, n: int) -> Seq<char>
    decreases n,
{
    if n <= 0 {
        Seq::empty()
    } else {
        tags_prefix(us, n - 1) + tag_line(us[n - 1])
    }
}

/// The trait specializations of the first `n` units, one per unit, in order.
pub open spec fn traits_prefix(us: Seq<UnitView>, n: int) -> Seq<char>
    decreases n,
{
    if n <= 0 {
        Seq::empty()
    } else {
        traits_prefix(us, n - 1) + traits_block(us[n - 1])
    }
}

/// The type aliases of the first `n` units, one per unit, in order.
pub open spec fn aliases_prefix(us: Seq<UnitView>, n: int) -> Seq<char>
    decreases n,
{
    if n <= 0 {
        Seq::empty()
    } else {
        aliases_prefix(us, n - 1) + alias_line(us[n - 1])
    }
}

/// The fixed framing that precedes the three per-unit sections.
pub open spec fn header_frame_start() -> Seq<char> {
    license_text() + "\n"@ + "#pragma once\n"@ + "\n"@ + "#include \"../ffi_core.hpp\"\n"@ + "\n"@
        + "namespace qtty {\n"@ + "\n"@
}

/// The whole text of one dimension's header: the framing, then exactly one
/// tag declaration, one trait specialization and one type alias per unit.
pub open spec fn header_text(us: Seq<UnitView>) -> Seq<char> {
    header_frame_start() + tags_prefix(us, us.len() as int) + "\n"@
        + traits_prefix(us, us.len() as int) + "\n"@ + aliases_prefix(us, us.len() as int) + "\n"@
        + "} // namespace qtty\n"@
}

/// Render one dimension's header from its member units. The dimension's name
/// plays no part in the text; the caller chooses the output file by it.
#[verifier::rlimit(60)]
pub fn generate_dimension_header(_dimension: &str, units: &Vec<UnitRecord>) -> (r: String)
    ensures
        r@ == header_text(views_of(units@)),
{
    let ghost uv = views_of(units@);
    let n = units.len();
    let mut s = String::new();
    s.append(license_str());
    s.append("\n");
    s.append("#pragma once\n");
    s.append("\n");
    s.append("#include \"../ffi_core.hpp\"\n");
    s.append("\n");
    s.append("namespace qtty {\n");
    s.append("\n");
    proof {
        assert(s@ =~= header_frame_start() + tags_prefix(uv, 0));
    }
    let mut i: usize = 0;
    while i < n
        invariant
            i <= n,
            n == units@.len(),
            uv == views_of(units@),
            s@ == header_frame_start() + tags_prefix(uv, i as int),
        decreases n - i,
    {
        proof {
            assert(uv[i as int] == units@[i as int]@);
        }
        s.append("struct ");
        s.append(units[i].name.as_str());
        s.append("Tag {};\n");
        proof {
            assert(s@ =~= header_frame_start() + tags_prefix(uv, i + 1));
        }
        i = i + 1;
    }
    s.append("\n");
    let ghost mark1 = header_frame_start() + tags_prefix(uv, n as int) + "\n"@;
    proof {
        assert(s@ =~= mark1 + traits_prefix(uv, 0));
    }
    let mut i: usize = 0;
    while i < n
        invariant
            i <= n,
            n == units@.len(),
            uv == views_of(units@),
            s@ == mark1 + traits_prefix(uv, i as int),
        decreases n - i,
    {
        proof {
            assert(uv[i as int] == units@[i as int]@);
        }
        s.append("template <> struct UnitTraits<");
        s.append(units[i].name.as_str());
        s.append("Tag> {\n");
        s.append("  static constexpr UnitId unit_id() { return UNIT_ID_");
        s.append(units[i].constant_suffix.as_str());
        s.append("; }\n");
        s.append("  static constexpr std::string_view symbol() { return \"");
        let esc = escape_cpp_string(units[i].symbol.as_str());
        s.append(esc.as_str());
        s.append("\"; }\n");
        s.append("};\n");
        proof {
            assert(s@ =~= mark1 + traits_prefix(uv, i + 1));
        }
        i = i + 1;
    }
    s.append("\n");
    let ghost mark2 = mark1 + traits_prefix(uv, n as int) + "\n"@;
    proof {
        assert(s@ =~= mark2 + aliases_prefix(uv, 0));
    }
    let mut i: usize = 0;
    while i < n
        invariant
            i <= n,
            n == units@.len(),
            uv == views_of(units@),
            s@ == mark2 + aliases_prefix(uv, i as int),
        decreases n - i,
    {
        proof {
            assert(uv[i as int] == units@[i as int]@);
        }
        s.append("using ");
        s.append(units[i].name.as_str());
        s.append(" = Quantity<");
        s.append(units[i].name.as_str());
        s.append("Tag>;\n");
        proof {
            assert(s@ =~= mark2 + aliases_prefix(uv, i + 1));
        }
        i = i + 1;
    }
    s.append("\n");
    s.append("} // namespace qtty\n");
    proof {
        assert(s@ =~= header_text(uv));
    }
    s
}

// ---------------------------------------------------------------------
// The consolidated literals header
// ---------------------------------------------------------------------

/// One unit's pair of literal operators, one for a floating-point literal
/// and one for an integer literal.
pub open spec fn lit_block(u: UnitView, sfx: Seq<char>) -> Seq<char> {
    "\n"@ + "constexpr "@ + u.name + " operator\"\"_"@ + sfx + "(long double value) {\n"@
        + "  return "@ + u.name + "(static_cast<double>(value));\n"@ + "}\n"@ + "constexpr "@
        + u.name + " operator\"\"_"@ + sfx + "(unsigned long long value) {\n"@ + "  return "@
        + u.name + "(static_cast<double>(value));\n"@ + "}\n"@
}

/// The owner of a suffix in the registry, if the suffix is registered.
pub open spec fn registry_lookup(reg: Seq<(Seq<char>, Seq<char>)>, sfx: Seq<char>) -> Option<
    Seq<char>,
>
    decreases reg.len(),
{
    if reg.len() == 0 {
        Option::None
    } else if reg[0].0 == sfx {
        Option::Some(reg[0].1)
    } else {
        registry_lookup(reg.drop_first(), sfx)
    }
}

/// The literal blocks emitted for `us` under registry `reg`: a unit without
/// a usable suffix is passed over, a unit whose suffix is already registered
/// is skipped, and an emitted unit registers its suffix.
pub open spec fn section_text(us: Seq<UnitView>, reg: Seq<(Seq<char>, Seq<char>)>) -> Seq<char>
    decreases us.len(),
{
    if us.len() == 0 {
        Seq::empty()
    } else {
        let u = us[0];
        let sfx = suffix_of(u.symbol);
        if sfx.len() == 0 {
            section_text(us.drop_first(), reg)
        } else if registry_lookup(reg, sfx) is Some {
            section_text(us.drop_first(), reg)
        } else {
            lit_block(u, sfx) + section_text(us.drop_first(), reg.push((sfx, u.name)))
        }
    }
}

/// The registry after processing `us`: first-registered-wins.
pub open spec fn registry_after(us: Seq<UnitView>, reg: Seq<(Seq<char>, Seq<char>)>) -> Seq<
    (Seq<char>, Seq<char>),
>
    decreases us.len(),
{
    if us.len() == 0 {
        reg
    } else {
        let u = us[0];
        let sfx = suffix_of(u.symbol);
        if sfx.len() == 0 {
            registry_after(us.drop_first(), reg)
        } else if registry_lookup(reg, sfx) is Some {
            registry_after(us.drop_first(), reg)
        } else {
            registry_after(us.drop_first(), reg.push((sfx, u.name)))
        }
    }
}

/// The mathematical shadow of a `SuffixConflict`.
pub ghost struct ConflictView {
    /// The colliding suffix.
    pub suffix: Seq<char>,
    /// The unit whose literal is skipped.
    pub unit: Seq<char>,
    /// The earlier unit that owns the suffix.
    pub prior: Seq<char>,
}

/// A diagnostic for a literal suffix that collides with an earlier unit's:
/// it names both the skipped unit and the prior owner.
pub struct SuffixConflict {
    pub suffix: String,
    pub unit: String,
    pub prior: String,
}

impl View for SuffixConflict {
    type V = ConflictView;

    open spec fn view(&self) -> ConflictView {
        ConflictView { suffix: self.suffix@, unit: self.unit@, prior: self.prior@ }
    }
}

/// The conflicts diagnosed while processing `us` under registry `reg`.
pub open spec fn section_conflicts(us: Seq<UnitView>, reg: Seq<(Seq<char>, Seq<char>)>) -> Seq<
    ConflictView,
>
    decreases us.len(),
{
    if us.len() == 0 {
        Seq::empty()
    } else {
        let u = us[0];
        let sfx = suffix_of(u.symbol);
        if sfx.len() == 0 {
            section_conflicts(us.drop_first(), reg)
        } else {
            match registry_lookup(reg, sfx) {
                Option::Some(owner) => seq![
                    ConflictView { suffix: sfx, unit: u.name, prior: owner },
                ] + section_conflicts(us.drop_first(), reg),
                Option::None => section_conflicts(us.drop_first(), reg.push((sfx, u.name))),
            }
        }
    }
}

/// The banner comment that opens one dimension's literals section.
pub open spec fn banner(d: Dimension) -> Seq<char> {
    "\n"@ + "// ====================\n"@ + "// "@ + spec_dimension_name(d) + " literals\n"@
        + "// ====================\n"@
}

/// The literals sections of the given dimensions, walked in order with one
/// shared registry; a dimension whose section is empty contributes nothing,
/// not even a banner.
pub open spec fn dims_literals_text(
    us: Seq<UnitView>,
    dims: Seq<Dimension>,
    reg: Seq<(Seq<char>, Seq<char>)>,
) -> Seq<char>
    decreases dims.len(),
{
    if dims.len() == 0 {
        Seq::empty()
    } else {
        let g = group_of(us, dims[0]);
        let sec = section_text(g, reg);
        (if sec.len() > 0 {
            banner(dims[0]) + sec
        } else {
            Seq::empty()
        }) + dims_literals_text(us, dims.drop_first(), registry_after(g, reg))
    }
}

/// The conflicts diagnosed across the given dimensions, in walk order.
pub open spec fn dims_conflicts(
    us: Seq<UnitView>,
    dims: Seq<Dimension>,
    reg: Seq<(Seq<char>, Seq<char>)>,
) -> Seq<ConflictView>
    decreases dims.len(),
{
    if dims.len() == 0 {
        Seq::empty()
    } else {
        let g = group_of(us, dims[0]);
        section_conflicts(g, reg) + dims_conflicts(us, dims.drop_first(), registry_after(g, reg))
    }
}

/// The fixed framing that precedes the literals sections.
pub open spec fn literals_frame_start() -> Seq<char> {
    license_text() + "\n"@ + "#pragma once\n"@ + "\n"@ + "#include \"units/length.hpp\"\n"@
        + "#include \"units/time.hpp\"\n"@ + "#include \"units/angular.hpp\"\n"@
        + "#include \"units/mass.hpp\"\n"@ + "#include \"units/power.hpp\"\n"@ + "\n"@
        + "namespace qtty {\n"@ + "\n"@ + "// Inline namespace for user-defined literals\n"@
        + "inline namespace literals {\n"@
}

/// The fixed framing that closes the literals header.
pub open spec fn literals_frame_end() -> Seq<char> {
    "\n"@ + "} // namespace literals\n"@ + "\n"@ + "} // namespace qtty\n"@
}

/// The whole text of the consolidated literals header.
pub open spec fn literals_text(us: Seq<UnitView>) -> Seq<char> {
    literals_frame_start() + dims_literals_text(us, dimension_order(), Seq::empty())
        + literals_frame_end()
}

/// The conflict diagnostics of a whole run.
pub open spec fn literal_conflicts(us: Seq<UnitView>) -> Seq<ConflictView> {
    dims_conflicts(us, dimension_order(), Seq::empty())
}

/// The views of the exec registry's entries.
pub open spec fn registry_views(v: Seq<(String, String)>) -> Seq<(Seq<char>, Seq<char>)> {
    v.map_values(|p: (String, String)| (p.0@, p.1@))
}

/// Look a suffix up in the registry, returning the owning unit's name.
fn registry_find(reg: &Vec<(String, String)>, sfx: &String) -> (o: Option<String>)
    ensures
        match o {
            Option::Some(owner) => registry_lookup(registry_views(reg@), sfx@)
                == Option::Some(owner@),
            Option::None => registry_lookup(registry_views(reg@), sfx@) is None,
        },
{
    let n = reg.len();
    let ghost rv = registry_views(reg@);
    proof {
        assert(rv.skip(0) =~= rv);
    }
    let mut i: usize = 0;
    while i < n
        invariant
            i <= n,
            n == reg@.len(),
            rv == registry_views(reg@),
            registry_lookup(rv, sfx@) == registry_lookup(rv.skip(i as int), sfx@),
        decreases n - i,
    {
        proof {
            assert(rv.skip(i as int)[0] == rv[i as int]);
            assert(rv[i as int] == (reg@[i as int].0@, reg@[i as int].1@));
            assert(rv.skip(i as int).drop_first() =~= rv.skip(i + 1));
        }
        if reg[i].0.eq(sfx) {
            return Option::Some(reg[i].1.clone());
        }
        i = i + 1;
    }
    proof {
        assert(rv.skip(n as int) =~= Seq::<(Seq<char>, Seq<char>)>::empty());
    }
    Option::None
}

/// Append one unit's pair of literal operators to the section.
fn append_lit_block(section: &mut String, u: &UnitRecord, sfx: &String)
    ensures
        final(section)@ == old(section)@ + lit_block(u@, sfx@),
{
    section.append("\n");
    section.append("constexpr ");
    section.append(u.name.as_str());
    section.append(" operator\"\"_");
    section.append(sfx.as_str());
    section.append("(long double value) {\n");
    section.append("  return ");
    section.append(u.name.as_str());
    section.append("(static_cast<double>(value));\n");
    section.append("}\n");
    section.append("constexpr ");
    section.append(u.name.as_str());
    section.append(" operator\"\"_");
    section.append(sfx.as_str());
    section.append("(unsigned long long value) {\n");
    section.append("  return ");
    section.append(u.name.as_str());
    section.append("(static_cast<double>(value));\n");
    section.append("}\n");
    proof {
        assert(section@ =~= old(section)@ + lit_block(u@, sfx@));
    }
}

/// Build one dimension's literals section under the shared registry:
/// first-registered-wins, and each collision yields a conflict diagnostic.
#[verifier::rlimit(60)]
fn emit_section(g: &Vec<UnitRecord>, reg: &mut Vec<(String, String)>) -> (r: (
    String,
    Vec<SuffixConflict>,
))
    ensures
        r.0@ == section_text(views_of(g@), registry_views(old(reg)@)),
        r.1@.map_values(|c: SuffixConflict| c@) == section_conflicts(
            views_of(g@),
            registry_views(old(reg)@),
        ),
        registry_views(final(reg)@) == registry_after(views_of(g@), registry_views(old(reg)@)),
{
    let ghost g_v = views_of(g@);
    let ghost reg0 = registry_views(old(reg)@);
    let mut section = String::new();
    let mut local_conflicts: Vec<SuffixConflict> = Vec::new();
    let m = g.len();
    proof {
        assert(g_v.skip(0) =~= g_v);
        assert(local_conflicts@.map_values(|c: SuffixConflict| c@) =~= Seq::<ConflictView>::empty());
    }
    let mut j: usize = 0;
    while j < m
        invariant
            j <= m,
            m == g@.len(),
            g_v == views_of(g@),
            section_text(g_v, reg0) == section@ + section_text(
                g_v.skip(j as int),
                registry_views(reg@),
            ),
            registry_after(g_v, reg0) == registry_after(g_v.skip(j as int), registry_views(reg@)),
            section_conflicts(g_v, reg0) == local_conflicts@.map_values(|c: SuffixConflict| c@)
                + section_conflicts(g_v.skip(j as int), registry_views(reg@)),
        decreases m - j,
    {
        let ghost uu = g_v[j as int];
        let ghost reg_now = registry_views(reg@);
        proof {
            assert(uu == g@[j as int]@);
            assert(g_v.skip(j as int)[0] == uu);
            assert(g_v.skip(j as int).drop_first() =~= g_v.skip(j + 1));
        }
        match make_literal_suffix(g[j].symbol.as_str()) {
            Option::None => {
            },
            Option::Some(sfx) => {
                match registry_find(reg, &sfx) {
                    Option::Some(owner) => {
                        local_conflicts.push(
                            SuffixConflict { suffix: sfx, unit: g[j].name.clone(), prior: owner },
                        );
                        proof {
                            let lc = local_conflicts@.map_values(|c: SuffixConflict| c@);
                            assert(lc =~= lc.drop_last().push(local_conflicts@.last()@));
                        }
                    },
                    Option::None => {
                        append_lit_block(&mut section, &g[j], &sfx);
                        let name_copy = g[j].name.clone();
                        reg.push((sfx, name_copy));
                        proof {
                            assert(registry_views(reg@) =~= reg_now.push(
                                (suffix_of(uu.symbol), uu.name),
                            ));
                        }
                    },
                }
            },
        }
        proof {
            assert(section_text(g_v, reg0) =~= section@ + section_text(
                g_v.skip(j + 1),
                registry_views(reg@),
            ));
            assert(registry_after(g_v, reg0) =~= registry_after(
                g_v.skip(j + 1),
                registry_views(reg@),
            ));
            assert(section_conflicts(g_v, reg0) =~= local_conflicts@.map_values(
                |c: SuffixConflict| c@,
            ) + section_conflicts(g_v.skip(j + 1), registry_views(reg@)));
        }
        j = j + 1;
    }
    proof {
        assert(g_v.skip(m as int) =~= Seq::<UnitView>::empty());
    }
    (section, local_conflicts)
}

/// Render the consolidated literals header and the conflict diagnostics of
/// the run: dimensions are walked in the fixed order, and within each, units
/// in source order; the first unit to register a suffix keeps it.
#[verifier::rlimit(100)]
pub fn generate_literals(records: &Vec<UnitRecord>) -> (r: (String, Vec<SuffixConflict>))
    ensures
        r.0@ == literals_text(views_of(records@)),
        r.1@.map_values(|c: SuffixConflict| c@) == literal_conflicts(views_of(records@)),
{
    let ghost uv = views_of(records@);
    let ghost dorder = dimension_order();
    let mut s = String::new();
    s.append(license_str());
    s.append("\n");
    s.append("#pragma once\n");
    s.append("\n");
    s.append("#include \"units/length.hpp\"\n");
    s.append("#include \"units/time.hpp\"\n");
    s.append("#include \"units/angular.hpp\"\n");
    s.append("#include \"units/mass.hpp\"\n");
    s.append("#include \"units/power.hpp\"\n");
    s.append("\n");
    s.append("namespace qtty {\n");
    s.append("\n");
    s.append("// Inline namespace for user-defined literals\n");
    s.append("inline namespace literals {\n");
    let mut conflicts: Vec<SuffixConflict> = Vec::new();
    let mut reg: Vec<(String, String)> = Vec::new();
    let ghost mut done: Seq<char> = Seq::empty();
    proof {
        assert(s@ =~= literals_frame_start() + done);
        assert(registry_views(reg@) =~= Seq::<(Seq<char>, Seq<char>)>::empty());
        assert(conflicts@.map_values(|c: SuffixConflict| c@) =~= Seq::<ConflictView>::empty());
        assert(dorder.skip(0) =~= dorder);
    }
    let dims: Vec<Dimension> = vec![
        Dimension::Length,
        Dimension::Time,
        Dimension::Angle,
        Dimension::Mass,
        Dimension::Power,
    ];
    proof {
        assert(dims@ =~= dorder);
    }
    let mut i: usize = 0;
    while i < 5
        invariant
            i <= 5,
            dims@ == dorder,
            dorder.len() == 5,
            uv == views_of(records@),
            s@ == literals_frame_start() + done,
            dims_literals_text(uv, dorder, Seq::empty()) == done + dims_literals_text(
                uv,
                dorder.skip(i as int),
                registry_views(reg@),
            ),
            dims_conflicts(uv, dorder, Seq::empty()) == conflicts@.map_values(
                |c: SuffixConflict| c@,
            ) + dims_conflicts(uv, dorder.skip(i as int), registry_views(reg@)),
        decreases 5 - i,
    {
        let d = dims[i];
        let g = units_for_dimension(records, d);
        let ghost g_v = group_of(uv, d);
        let ghost reg0 = registry_views(reg@);
        let (section, mut local_conflicts) = emit_section(&g, &mut reg);
        proof {
            assert(dorder.skip(i as int)[0] == d);
            assert(dorder.skip(i as int).drop_first() =~= dorder.skip(i + 1));
        }
        if !section.as_str().is_empty() {
            s.append("\n");
            s.append("// ====================\n");
            s.append("// ");
            s.append(dimension_name(d));
            s.append(" literals\n");
            s.append("// ====================\n");
            s.append(section.as_str());
            proof {
                done = done + banner(d) + section_text(g_v, reg0);
                assert(s@ =~= literals_frame_start() + done);
            }
        }
        let ghost old_conflicts = conflicts@;
        conflicts.append(&mut local_conflicts);
        proof {
            assert(conflicts@.map_values(|c: SuffixConflict| c@) =~= old_conflicts.map_values(
                |c: SuffixConflict| c@,
            ) + section_conflicts(g_v, reg0));
            assert(dims_literals_text(uv, dorder, Seq::empty()) == done + dims_literals_text(
                uv,
                dorder.skip(i + 1),
                registry_views(reg@),
            ));
            assert(dims_conflicts(uv, dorder, Seq::empty()) == conflicts@.map_values(
                |c: SuffixConflict| c@,
            ) + dims_conflicts(uv, dorder.skip(i + 1), registry_views(reg@)));
        }
        i = i + 1;
    }
    proof {
        assert(dorder.skip(5) =~= Seq::<Dimension>::empty());
    }
    s.append("\n");
    s.append("} // namespace literals\n");
    s.append("\n");
    s.append("} // namespace qtty\n");
    proof {
        assert(s@ =~= literals_text(uv));
    }
    (s, conflicts)
}

// ---------------------------------------------------------------------
// The per-dimension header set
// ---------------------------------------------------------------------

/// One generated per-dimension header, ready to be written to that
/// dimension's fixed file name.
pub struct HeaderArtifact {
    pub dimension: Dimension,
    pub content: String,
}

impl View for HeaderArtifact {
    type V = (Dimension, Seq<char>);

    open spec fn view(&self) -> (Dimension, Seq<char>) {
        (self.dimension, self.content@)
    }
}

/// The headers produced for the given dimensions, in order: one per
/// dimension with at least one unit, none for an empty dimension.
pub open spec fn header_artifacts(us: Seq<UnitView>, dims: Seq<Dimension>) -> Seq<
    (Dimension, Seq<char>),
>
    decreases dims.len(),
{
    if dims.len() == 0 {
        Seq::empty()
    } else {
        let g = group_of(us, dims[0]);
        (if g.len() > 0 {
            seq![(dims[0], header_text(g))]
        } else {
            Seq::empty()
        }) + header_artifacts(us, dims.drop_first())
    }
}

/// The dimensions among the given ones that have no units, in order.
pub open spec fn empty_dimensions(us: Seq<UnitView>, dims: Seq<Dimension>) -> Seq<Dimension>
    decreases dims.len(),
{
    if dims.len() == 0 {
        Seq::empty()
    } else {
        let g = group_of(us, dims[0]);
        (if g.len() == 0 {
            seq![dims[0]]
        } else {
            Seq::empty()
        }) + empty_dimensions(us, dims.drop_first())
    }
}

/// Render one header per known dimension that has units, in the fixed
/// dimension order, and report the dimensions that have none: an empty
/// dimension yields a diagnostic, never an empty file.
pub fn generate_headers(records: &Vec<UnitRecord>) -> (r: (Vec<HeaderArtifact>, Vec<Dimension>))
    ensures
        r.0@.map_values(|a: HeaderArtifact| a@) == header_artifacts(
            views_of(records@),
            dimension_order(),
        ),
        r.1@ == empty_dimensions(views_of(records@), dimension_order()),
{
    let ghost uv = views_of(records@);
    let ghost dorder = dimension_order();
    let mut artifacts: Vec<HeaderArtifact> = Vec::new();
    let mut empties: Vec<Dimension> = Vec::new();
    let dims: Vec<Dimension> = vec![
        Dimension::Length,
        Dimension::Time,
        Dimension::Angle,
        Dimension::Mass,
        Dimension::Power,
    ];
    proof {
        assert(dims@ =~= dorder);
        assert(dorder.skip(0) =~= dorder);
        assert(artifacts@.map_values(|a: HeaderArtifact| a@) =~= Seq::<
            (Dimension, Seq<char>),
        >::empty());
    }
    let mut i: usize = 0;
    while i < 5
        invariant
            i <= 5,
            dims@ == dorder,
            dorder.len() == 5,
            uv == views_of(records@),
            header_artifacts(uv, dorder) == artifacts@.map_values(|a: HeaderArtifact| a@)
                + header_artifacts(uv, dorder.skip(i as int)),
            empty_dimensions(uv, dorder) == empties@ + empty_dimensions(
                uv,
                dorder.skip(i as int),
            ),
        decreases 5 - i,
    {
        let d = dims[i];
        let g = units_for_dimension(records, d);
        proof {
            assert(dorder.skip(i as int)[0] == d);
            assert(dorder.skip(i as int).drop_first() =~= dorder.skip(i + 1));
        }
        if g.len() > 0 {
            let content = generate_dimension_header(dimension_name(d), &g);
            artifacts.push(HeaderArtifact { dimension: d, content });
            proof {
                let av = artifacts@.map_values(|a: HeaderArtifact| a@);
                assert(av =~= av.drop_last().push(artifacts@.last()@));
                assert(views_of(g@).len() == g@.len());
            }
        } else {
            empties.push(d);
            proof {
                assert(views_of(g@).len() == g@.len());
            }
        }
        proof {
            assert(header_artifacts(uv, dorder) =~= artifacts@.map_values(
                |a: HeaderArtifact| a@,
            ) + header_artifacts(uv, dorder.skip(i + 1)));
            assert(empty_dimensions(uv, dorder) =~= empties@ + empty_dimensions(
                uv,
                dorder.skip(i + 1),
            ));
        }
        i = i + 1;
    }
    proof {
        assert(dorder.skip(5) =~= Seq::<Dimension>::empty());
    }
    (artifacts, empties)
}

// ---------------------------------------------------------------------
// Laws
// ---------------------------------------------------------------------

proof fn lemma_map_take_step(vs: Seq<UnitView>, n: int, f: spec_fn(UnitView) -> Seq<char>)
    requires
        0 < n <= vs.len(),
    ensures
        vs.take(n).map_values(f).flatten_alt() == vs.take(n - 1).map_values(f).flatten_alt() + f(
            vs[n - 1],
        ),
{
    let a = vs.take(n).map_values(f);
    assert(a.drop_last() =~= vs.take(n - 1).map_values(f));
    assert(a.last() == f(vs[n - 1]));
}

proof fn lemma_tags_prefix_flatten(vs: Seq<UnitView>, n: int)
    requires
        0 <= n <= vs.len(),
    ensures
        tags_prefix(vs, n) == vs.take(n).map_values(|u: UnitView| tag_line(u)).flatten_alt(),
        traits_prefix(vs, n) == vs.take(n).map_values(|u: UnitView| traits_block(u)).flatten_alt(),
        aliases_prefix(vs, n) == vs.take(n).map_values(|u: UnitView| alias_line(u)).flatten_alt(),
    decreases n,
{
    if n == 0 {
        assert(vs.take(0) =~= Seq::<UnitView>::empty());
        assert(vs.take(0).map_values(|u: UnitView| tag_line(u)) =~= Seq::<Seq<char>>::empty());
        assert(vs.take(0).map_values(|u: UnitView| traits_block(u)) =~= Seq::<Seq<char>>::empty());
        assert(vs.take(0).map_values(|u: UnitView| alias_line(u)) =~= Seq::<Seq<char>>::empty());
    } else {
        lemma_tags_prefix_flatten(vs, n - 1);
        lemma_map_take_step(vs, n, |u: UnitView| tag_line(u));
        lemma_map_take_step(vs, n, |u: UnitView| traits_block(u));
        lemma_map_take_step(vs, n, |u: UnitView| alias_line(u));
    }
}

/// Round-trip structure of a dimension's header: each of its three sections
/// is the concatenation, over the dimension's units in order, of exactly one
/// fragment per unit — one tag declaration, one trait specialization, one
/// type alias.
pub proof fn lemma_header_round_trip(us: Seq<UnitView>)
    ensures
        header_text(us) == header_frame_start() + us.map_values(
            |u: UnitView| tag_line(u),
        ).flatten_alt() + "\n"@ + us.map_values(|u: UnitView| traits_block(u)).flatten_alt()
            + "\n"@ + us.map_values(|u: UnitView| alias_line(u)).flatten_alt() + "\n"@
            + "} // namespace qtty\n"@,
        us.map_values(|u: UnitView| tag_line(u)).len() == us.len(),
        forall|i: int| 0 <= i < us.len() ==> us.map_values(|u: UnitView| tag_line(u))[i]
            == tag_line(us[i]),
        forall|i: int| 0 <= i < us.len() ==> us.map_values(|u: UnitView| traits_block(u))[i]
            == traits_block(us[i]),
        forall|i: int| 0 <= i < us.len() ==> us.map_values(|u: UnitView| alias_line(u))[i]
            == alias_line(us[i]),
{
    lemma_tags_prefix_flatten(us, us.len() as int);
    assert(us.take(us.len() as int) =~= us);
}

proof fn lemma_lookup_push(reg: Seq<(Seq<char>, Seq<char>)>, p: (Seq<char>, Seq<char>), s: Seq<char>)
    ensures
        registry_lookup(reg, s) is Some ==> registry_lookup(reg.push(p), s) == registry_lookup(
            reg,
            s,
        ),
        (registry_lookup(reg, s) is None && p.0 != s) ==> registry_lookup(reg.push(p), s) is None,
        (registry_lookup(reg, s) is None && p.0 == s) ==> registry_lookup(reg.push(p), s)
            == Option::Some(p.1),
    decreases reg.len(),
{
    if reg.len() == 0 {
        assert(reg.push(p)[0] == p);
        assert(reg.push(p).drop_first() =~= Seq::<(Seq<char>, Seq<char>)>::empty());
    } else {
        assert(reg.push(p)[0] == reg[0]);
        assert(reg.push(p).drop_first() =~= reg.drop_first().push(p));
        lemma_lookup_push(reg.drop_first(), p, s);
    }
}

proof fn lemma_registry_after_monotone(
    us: Seq<UnitView>,
    reg: Seq<(Seq<char>, Seq<char>)>,
    s: Seq<char>,
)
    requires
        registry_lookup(reg, s) is Some,
    ensures
        registry_lookup(registry_after(us, reg), s) == registry_lookup(reg, s),
    decreases us.len(),
{
    if us.len() > 0 {
        let u = us[0];
        let sfx = suffix_of(u.symbol);
        if sfx.len() == 0 || registry_lookup(reg, sfx) is Some {
            lemma_registry_after_monotone(us.drop_first(), reg, s);
        } else {
            lemma_lookup_push(reg, (sfx, u.name), s);
            lemma_registry_after_monotone(us.drop_first(), reg.push((sfx, u.name)), s);
        }
    }
}

proof fn lemma_conflict_reported(us: Seq<UnitView>, reg: Seq<(Seq<char>, Seq<char>)>, j: int)
    requires
        0 <= j < us.len(),
        suffix_of(us[j].symbol).len() > 0,
        registry_lookup(reg, suffix_of(us[j].symbol)) is Some,
    ensures
        section_conflicts(us, reg).contains(
            ConflictView {
                suffix: suffix_of(us[j].symbol),
                unit: us[j].name,
                prior: registry_lookup(reg, suffix_of(us[j].symbol))->Some_0,
            },
        ),
    decreases us.len(),
{
    let sfx = suffix_of(us[j].symbol);
    let cv = ConflictView {
        suffix: sfx,
        unit: us[j].name,
        prior: registry_lookup(reg, sfx)->Some_0,
    };
    let u = us[0];
    let s0 = suffix_of(u.symbol);
    if j == 0 {
        assert(section_conflicts(us, reg)[0] == cv);
    } else {
        if s0.len() == 0 {
            lemma_conflict_reported(us.drop_first(), reg, j - 1);
            assert(us.drop_first()[j - 1] == us[j]);
        } else {
            match registry_lookup(reg, s0) {
                Option::Some(owner) => {
                    lemma_conflict_reported(us.drop_first(), reg, j - 1);
                    assert(us.drop_first()[j - 1] == us[j]);
                    let rest = section_conflicts(us.drop_first(), reg);
                    let c0 = ConflictView { suffix: s0, unit: u.name, prior: owner };
                    let k = choose|k: int| 0 <= k < rest.len() && rest[k] == cv;
                    assert(section_conflicts(us, reg)[k + 1] == cv);
                },
                Option::None => {
                    assert(s0 != sfx);
                    lemma_lookup_push(reg, (s0, u.name), sfx);
                    lemma_conflict_reported(us.drop_first(), reg.push((s0, u.name)), j - 1);
                    assert(us.drop_first()[j - 1] == us[j]);
                },
            }
        }
    }
}

proof fn lemma_first_wins_rec(us: Seq<UnitView>, reg: Seq<(Seq<char>, Seq<char>)>, i: int, j: int)
    requires
        0 <= i < j < us.len(),
        suffix_of(us[i].symbol) == suffix_of(us[j].symbol),
        suffix_of(us[i].symbol).len() > 0,
        registry_lookup(reg, suffix_of(us[i].symbol)) is None,
        forall|k: int| 0 <= k < i ==> suffix_of(#[trigger] us[k].symbol) != suffix_of(us[i].symbol),
    ensures
        registry_lookup(registry_after(us, reg), suffix_of(us[i].symbol)) == Option::Some(
            us[i].name,
        ),
        section_conflicts(us, reg).contains(
            ConflictView {
                suffix: suffix_of(us[i].symbol),
                unit: us[j].name,
                prior: us[i].name,
            },
        ),
    decreases us.len(),
{
    let sfx = suffix_of(us[i].symbol);
    let u = us[0];
    let s0 = suffix_of(u.symbol);
    if i == 0 {
        let reg2 = reg.push((sfx, u.name));
        lemma_lookup_push(reg, (sfx, u.name), sfx);
        lemma_registry_after_monotone(us.drop_first(), reg2, sfx);
        lemma_conflict_reported(us.drop_first(), reg2, j - 1);
        assert(us.drop_first()[j - 1] == us[j]);
    } else {
        assert(s0 != sfx);
        assert(forall|k: int| 0 <= k < i - 1 ==> suffix_of(
            #[trigger] us.drop_first()[k].symbol,
        ) != sfx);
        assert(us.drop_first()[i - 1] == us[i]);
        assert(us.drop_first()[j - 1] == us[j]);
        if s0.len() == 0 {
            lemma_first_wins_rec(us.drop_first(), reg, i - 1, j - 1);
        } else {
            match registry_lookup(reg, s0) {
                Option::Some(owner) => {
                    lemma_first_wins_rec(us.drop_first(), reg, i - 1, j - 1);
                    let rest = section_conflicts(us.drop_first(), reg);
                    let cv = ConflictView { suffix: sfx, unit: us[j].name, prior: us[i].name };
                    let k = choose|k: int| 0 <= k < rest.len() && rest[k] == cv;
                    assert(section_conflicts(us, reg)[k + 1] == cv);
                },
                Option::None => {
                    lemma_lookup_push(reg, (s0, u.name), sfx);
                    lemma_first_wins_rec(us.drop_first(), reg.push((s0, u.name)), i - 1, j - 1);
                },
            }
        }
    }
}

/// First-registered-wins: when two units in the literal walk derive the same
/// usable suffix, and the earlier of the two is the first in the walk to
/// derive it, the earlier unit owns the suffix in the final registry, and the
/// later unit's skip is diagnosed with a conflict naming both units.
pub proof fn lemma_first_suffix_wins(us: Seq<UnitView>, i: int, j: int)
    requires
        0 <= i < j < us.len(),
        suffix_of(us[i].symbol) == suffix_of(us[j].symbol),
        suffix_of(us[i].symbol).len() > 0,
        forall|k: int| 0 <= k < i ==> suffix_of(#[trigger] us[k].symbol) != suffix_of(us[i].symbol),
    ensures
        registry_lookup(registry_after(us, Seq::empty()), suffix_of(us[i].symbol)) == Option::Some(
            us[i].name,
        ),
        section_conflicts(us, Seq::empty()).contains(
            ConflictView {
                suffix: suffix_of(us[i].symbol),
                unit: us[j].name,
                prior: us[i].name,
            },
        ),
{
    lemma_first_wins_rec(us, Seq::empty(), i, j);
}

} // verus!
