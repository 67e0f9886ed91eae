//! The advisory vocabulary shared with the browser editor: property names,
//! unit strings, soil classes and constitutive kinds. It is a suggestion
//! list, not a schema; the one load-bearing part is the set of constitutive
//! kinds, which validation checks parameters for.

use vstd::prelude::*;
use crate::text::{owned, same_text};

verus! {

#[derive(Debug, Clone)]
pub struct Term {
    pub key: String,
    pub label: String,
    pub units: Vec<String>,
}

#[derive(Debug, Clone)]
pub struct Kind {
    pub kind: String,
    pub label: String,
    pub parameters: Vec<Term>,
}

/// The constitutive kinds this build checks parameters for.
pub open spec fn known_kind(kind: Seq<char>) -> bool {
    ||| kind == "mohr-coulomb"@
    ||| kind == "undrained-tresca"@
    ||| kind == "linear-elastic"@
    ||| kind == "hardening-soil"@
}

/// Whether this build understands `kind` well enough to check its
/// parameters. Anything else is carried through untouched and warned about.
pub fn knows_constitutive_kind(kind: &str) -> (r: bool)
    ensures
        r == known_kind(kind@),
{
    same_text(kind, "mohr-coulomb") || same_text(kind, "undrained-tresca") || same_text(
        kind,
        "linear-elastic",
    ) || same_text(kind, "hardening-soil")
}

fn term(key: &str, label: &str, unit: &str) -> (t: Term)
    ensures
        t.key@ == key@,
        t.label@ == label@,
        t.units@.len() == 1,
        t.units@[0]@ == unit@,
{
    let mut units: Vec<String> = Vec::new();
    units.push(owned(unit));
    Term { key: owned(key), label: owned(label), units }
}

/// A term with this key, label and one unit.
pub open spec fn term_is(t: Term, key: Seq<char>, label: Seq<char>, unit: Seq<char>) -> bool {
    t.key@ == key && t.label@ == label && t.units@.len() == 1 && t.units@[0]@ == unit
}

/// A kind with this name and label.
pub open spec fn kind_is(k: Kind, kind: Seq<char>, label: Seq<char>, n: nat) -> bool {
    k.kind@ == kind && k.label@ == label && k.parameters@.len() == n
}

/// The constitutive kinds offered, with the parameters each expects.
pub fn constitutive_kinds() -> (r: Vec<Kind>)
    ensures
        r@.len() == 4,
        kind_is(r@[0], "mohr-coulomb"@, "Mohr-Coulomb"@, 3),
        term_is(r@[0].parameters@[0], "frictionAngleDeg"@, "Friction angle"@, "deg"@),
        term_is(r@[0].parameters@[1], "cohesion"@, "Cohesion"@, "kPa"@),
        term_is(r@[0].parameters@[2], "dilationAngleDeg"@, "Dilation angle"@, "deg"@),
        kind_is(r@[1], "undrained-tresca"@, "Undrained (Tresca)"@, 1),
        term_is(r@[1].parameters@[0], "undrainedShearStrength"@, "Undrained shear strength"@, "kPa"@),
        kind_is(r@[2], "linear-elastic"@, "Linear elastic"@, 2),
        term_is(r@[2].parameters@[0], "youngsModulus"@, "Young's modulus"@, "MPa"@),
        term_is(r@[2].parameters@[1], "poissonsRatio"@, "Poisson's ratio"@, "-"@),
        kind_is(r@[3], "hardening-soil"@, "Hardening soil"@, 5),
        term_is(r@[3].parameters@[0], "frictionAngleDeg"@, "Friction angle"@, "deg"@),
        term_is(r@[3].parameters@[1], "cohesion"@, "Cohesion"@, "kPa"@),
        term_is(r@[3].parameters@[2], "e50Ref"@, "Secant stiffness E50 (reference)"@, "MPa"@),
        term_is(r@[3].parameters@[3], "eOedRef"@, "Oedometer stiffness (reference)"@, "MPa"@),
        term_is(r@[3].parameters@[4], "eUrRef"@, "Unloading stiffness (reference)"@, "MPa"@),
        forall|i: int| 0 <= i < r@.len() ==> known_kind((#[trigger] r@[i]).kind@),
        forall|k: Seq<char>| known_kind(k) ==> exists|i: int| 0 <= i < r@.len() && (#[trigger] r@[i]).kind@ == k,
        forall|i: int, j: int|
            0 <= i < r@.len() && 0 <= j < r@[i].parameters@.len() ==> (#[trigger] r@[i].parameters@[j]).units@.len()
                > 0 && r@[i].parameters@[j].label@.len() > 0,
{
    let mut mc: Vec<Term> = Vec::new();
    mc.push(term("frictionAngleDeg", "Friction angle", "deg"));
    mc.push(term("cohesion", "Cohesion", "kPa"));
    mc.push(term("dilationAngleDeg", "Dilation angle", "deg"));
    let mut tr: Vec<Term> = Vec::new();
    tr.push(term("undrainedShearStrength", "Undrained shear strength", "kPa"));
    let mut le: Vec<Term> = Vec::new();
    le.push(term("youngsModulus", "Young's modulus", "MPa"));
    le.push(term("poissonsRatio", "Poisson's ratio", "-"));
    let mut hs: Vec<Term> = Vec::new();
    hs.push(term("frictionAngleDeg", "Friction angle", "deg"));
    hs.push(term("cohesion", "Cohesion", "kPa"));
    hs.push(term("e50Ref", "Secant stiffness E50 (reference)", "MPa"));
    hs.push(term("eOedRef", "Oedometer stiffness (reference)", "MPa"));
    hs.push(term("eUrRef", "Unloading stiffness (reference)", "MPa"));
    let mut r: Vec<Kind> = Vec::new();
    r.push(Kind { kind: owned("mohr-coulomb"), label: owned("Mohr-Coulomb"), parameters: mc });
    r.push(Kind { kind: owned("undrained-tresca"), label: owned("Undrained (Tresca)"), parameters: tr });
    r.push(Kind { kind: owned("linear-elastic"), label: owned("Linear elastic"), parameters: le });
    r.push(Kind { kind: owned("hardening-soil"), label: owned("Hardening soil"), parameters: hs });
    proof {
        reveal_strlit("Friction angle");
        reveal_strlit("Cohesion");
        reveal_strlit("Dilation angle");
        reveal_strlit("Undrained shear strength");
        reveal_strlit("Young's modulus");
        reveal_strlit("Poisson's ratio");
        reveal_strlit("Secant stiffness E50 (reference)");
        reveal_strlit("Oedometer stiffness (reference)");
        reveal_strlit("Unloading stiffness (reference)");
        assert(r@[0].kind@ == "mohr-coulomb"@);
        assert(r@[1].kind@ == "undrained-tresca"@);
        assert(r@[2].kind@ == "linear-elastic"@);
        assert(r@[3].kind@ == "hardening-soil"@);
    }
    r
}

/// The general material properties offered.
pub fn properties() -> (r: Vec<Term>)
    ensures
        r@.len() == 6,
        term_is(r@[0], "unitWeight"@, "Unit weight"@, "kN/m3"@),
        term_is(r@[1], "permeability"@, "Permeability"@, "m/s"@),
        term_is(r@[2], "moistureContent"@, "Moisture content"@, "%"@),
        term_is(r@[3], "plasticityIndex"@, "Plasticity index"@, "%"@),
        term_is(r@[4], "liquidLimit"@, "Liquid limit"@, "%"@),
        term_is(r@[5], "sptN"@, "SPT N value"@, "blows"@),
        forall|i: int| 0 <= i < r@.len() ==> (#[trigger] r@[i]).units@.len() > 0 && r@[i].label@.len() > 0,
{
    let mut r: Vec<Term> = Vec::new();
    r.push(term("unitWeight", "Unit weight", "kN/m3"));
    r.push(term("permeability", "Permeability", "m/s"));
    r.push(term("moistureContent", "Moisture content", "%"));
    r.push(term("plasticityIndex", "Plasticity index", "%"));
    r.push(term("liquidLimit", "Liquid limit", "%"));
    r.push(term("sptN", "SPT N value", "blows"));
    proof {
        reveal_strlit("Unit weight");
        reveal_strlit("Permeability");
        reveal_strlit("Moisture content");
        reveal_strlit("Plasticity index");
        reveal_strlit("Liquid limit");
        reveal_strlit("SPT N value");
    }
    r
}

/// The soil classes offered.
pub fn soil_classes() -> (r: Vec<String>)
    ensures
        r@.len() == 7,
        r@[0]@ == "CLAY"@,
        r@[1]@ == "SILT"@,
        r@[2]@ == "SAND"@,
        r@[3]@ == "GRAVEL"@,
        r@[4]@ == "PEAT"@,
        r@[5]@ == "MADE_GROUND"@,
        r@[6]@ == "ROCK"@,
{
    let mut r: Vec<String> = Vec::new();
    r.push(owned("CLAY"));
    r.push(owned("SILT"));
    r.push(owned("SAND"));
    r.push(owned("GRAVEL"));
    r.push(owned("PEAT"));
    r.push(owned("MADE_GROUND"));
    r.push(owned("ROCK"));
    r
}

} // verus!
