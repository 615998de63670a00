//! Core domain enums: project kinds, node kinds, pipe materials, flow regimes
//! and norm severities.

use vstd::prelude::*;

use crate::text::{
    ascii_lower, ascii_upper, is_ascii_chars, replace_separators, str_eq, trim_end, trim_start, trim_str, trimmed,
    underscored, upper_cased, upper_str,
};

verus! {

/// Hydraulic infrastructure project category.
#[derive(Debug, Clone, Copy, PartialEq, Eq, Hash, Structural)]
pub enum ProjectType {
    Sewer,
    WaterSupply,
    Conveyance,
    Distribution,
    PumpStation,
    Intake,
}

/// Classification of a network node.
#[derive(Debug, Clone, Copy, PartialEq, Eq, Hash, Structural)]
pub enum NodeType {
    Manhole,
    Junction,
    Outlet,
    Inlet,
    Pump,
    Valve,
    Hydrant,
    Tank,
    Reservoir,
    Service,
}

/// Pipe material.
#[derive(Debug, Clone, Copy, PartialEq, Eq, Hash, Structural)]
pub enum PipeMaterial {
    Pvc,
    Concrete,
    Hdpe,
    Steel,
    CastIron,
}

/// Flow regime classification.
#[derive(Debug, Clone, Copy, PartialEq, Eq, Hash, Structural)]
pub enum FlowType {
    Gravity,
    Pressure,
}

/// Norm rule severity level.
#[derive(Debug, Clone, Copy, PartialEq, Eq, Hash, Structural)]
pub enum Severity {
    Hard,
    Soft,
    Warning,
}

/// The canonical name of a material.
pub open spec fn material_name(m: PipeMaterial) -> Seq<char> {
    match m {
        PipeMaterial::Pvc => "PVC"@,
        PipeMaterial::Concrete => "CONCRETE"@,
        PipeMaterial::Hdpe => "HDPE"@,
        PipeMaterial::Steel => "STEEL"@,
        PipeMaterial::CastIron => "CAST_IRON"@,
    }
}

/// The material that a normalised name denotes: a canonical name or one of
/// the Spanish aliases PEAD, CONCRETO, ACERO, FIERRO_FUNDIDO, and CASTIRON.
pub open spec fn material_from_name(s: Seq<char>) -> Option<PipeMaterial> {
    if s == "PVC"@ {
        Some(PipeMaterial::Pvc)
    } else if s == "CONCRETE"@ || s == "CONCRETO"@ {
        Some(PipeMaterial::Concrete)
    } else if s == "HDPE"@ || s == "PEAD"@ {
        Some(PipeMaterial::Hdpe)
    } else if s == "STEEL"@ || s == "ACERO"@ {
        Some(PipeMaterial::Steel)
    } else if s == "CAST_IRON"@ || s == "FIERRO_FUNDIDO"@ || s == "CASTIRON"@ {
        Some(PipeMaterial::CastIron)
    } else {
        None
    }
}

/// How a free-form material name is normalised before lookup: trimmed,
/// upper-cased, spaces and hyphens turned into underscores.
pub open spec fn normalized_name(s: Seq<char>) -> Seq<char> {
    underscored(upper_cased(trimmed(s)))
}

impl PipeMaterial {
    /// Canonical string representation used in JSON output.
    pub fn as_str(self) -> (r: &'static str)
        ensures
            r@ == material_name(self),
    {
        match self {
            PipeMaterial::Pvc => "PVC",
            PipeMaterial::Concrete => "CONCRETE",
            PipeMaterial::Hdpe => "HDPE",
            PipeMaterial::Steel => "STEEL",
            PipeMaterial::CastIron => "CAST_IRON",
        }
    }

    /// Resolves a material from its name, accepting the Spanish aliases;
    /// surrounding white space, letter case, spaces and hyphens are ignored.
    pub fn from_str_with_aliases(s: &str) -> (r: Option<Self>)
        ensures
            r == material_from_name(normalized_name(s@)),
            forall|m: PipeMaterial| s@ == material_name(m) ==> r == Some(m),
            forall|m: PipeMaterial| s@ == ascii_lower(material_name(m)) ==> r == Some(m),
    {
        let t = trim_str(s);
        let u = upper_str(t.as_str());
        let norm = replace_separators(u.as_str());
        let r = Self::from_normalized(norm.as_str());
        proof {
            assert forall|m: PipeMaterial| s@ == material_name(m) || s@ == ascii_lower(material_name(m)) implies r
                == Some(m) by {
                lemma_name_forms(m);
                law_material_name_decodes(m);
            }
        }
        r
    }

    /// The material that an already normalised name denotes (a canonical
    /// name or one of the Spanish aliases).
    pub fn from_normalized(n: &str) -> (r: Option<Self>)
        ensures
            r == material_from_name(n@),
    {
        if str_eq(n, "PVC") {
            Some(PipeMaterial::Pvc)
        } else if str_eq(n, "CONCRETE") || str_eq(n, "CONCRETO") {
            Some(PipeMaterial::Concrete)
        } else if str_eq(n, "HDPE") || str_eq(n, "PEAD") {
            Some(PipeMaterial::Hdpe)
        } else if str_eq(n, "STEEL") || str_eq(n, "ACERO") {
            Some(PipeMaterial::Steel)
        } else if str_eq(n, "CAST_IRON") || str_eq(n, "FIERRO_FUNDIDO") || str_eq(n, "CASTIRON") {
            Some(PipeMaterial::CastIron)
        } else {
            None
        }
    }
}

/// The canonical name of every material denotes that material again.
pub proof fn law_material_name_decodes(m: PipeMaterial)
    ensures
        material_from_name(material_name(m)) == Some(m),
{
    reveal_strlit("PVC");
    reveal_strlit("CONCRETE");
    reveal_strlit("CONCRETO");
    reveal_strlit("HDPE");
    reveal_strlit("PEAD");
    reveal_strlit("STEEL");
    reveal_strlit("ACERO");
    reveal_strlit("CAST_IRON");
    reveal_strlit("FIERRO_FUNDIDO");
    reveal_strlit("CASTIRON");
    assert("PVC"@.len() == 3);
    assert("CONCRETE"@.len() == 8);
    assert("CONCRETO"@.len() == 8);
    assert("HDPE"@.len() == 4);
    assert("PEAD"@.len() == 4);
    assert("STEEL"@.len() == 5);
    assert("ACERO"@.len() == 5);
    assert("CAST_IRON"@.len() == 9);
}

/// A name made of capital letters and underscores, starting and ending
/// with a letter, is left as it is by normalisation, and so is its
/// lower-case form once upper-cased.
proof fn lemma_plain_name(n: Seq<char>)
    requires
        n.len() > 0,
        forall|i: int| 0 <= i < n.len() ==> ('A' <= #[trigger] n[i] && n[i] <= 'Z') || n[i] == '_',
        'A' <= n[0] && n[0] <= 'Z',
        'A' <= n.last() && n.last() <= 'Z',
    ensures
        trimmed(n) == n,
        is_ascii_chars(n),
        ascii_upper(n) == n,
        underscored(n) == n,
        trimmed(ascii_lower(n)) == ascii_lower(n),
        is_ascii_chars(ascii_lower(n)),
        ascii_upper(ascii_lower(n)) == n,
{
    let lo = ascii_lower(n);
    assert(trim_start(n) == n);
    assert(trim_end(n) == n);
    assert(ascii_upper(n) =~= n);
    assert(underscored(n) =~= n);
    assert(lo[0] == ((n[0] as u32) + 32) as char);
    assert(lo.last() == ((n.last() as u32) + 32) as char);
    assert(trim_start(lo) == lo);
    assert(trim_end(lo) == lo);
    assert forall|i: int| 0 <= i < lo.len() implies (lo[i] as u32) < 128 by {
        assert(lo[i] == crate::text::ascii_lower_char(n[i]));
    }
    assert(ascii_upper(lo) =~= n) by {
        assert forall|i: int| 0 <= i < n.len() implies ascii_upper(lo)[i] == n[i] by {
            assert(lo[i] == crate::text::ascii_lower_char(n[i]));
        }
    }
}

proof fn lemma_name_forms(m: PipeMaterial)
    ensures
        trimmed(material_name(m)) == material_name(m),
        is_ascii_chars(material_name(m)),
        ascii_upper(material_name(m)) == material_name(m),
        underscored(material_name(m)) == material_name(m),
        trimmed(ascii_lower(material_name(m))) == ascii_lower(material_name(m)),
        is_ascii_chars(ascii_lower(material_name(m))),
        ascii_upper(ascii_lower(material_name(m))) == material_name(m),
{
    reveal_strlit("PVC");
    reveal_strlit("CONCRETE");
    reveal_strlit("HDPE");
    reveal_strlit("STEEL");
    reveal_strlit("CAST_IRON");
    lemma_plain_name(material_name(m));
}

/// Distinct materials have distinct canonical names.
pub proof fn law_material_names_distinct(a: PipeMaterial, b: PipeMaterial)
    ensures
        material_name(a) == material_name(b) ==> a == b,
{
    law_material_name_decodes(a);
    law_material_name_decodes(b);
}

} // verus!
