use hydro::enums::{PipeMaterial, ProjectType};
use hydro::error::{SolverError, TerrainError};
use hydro::network::{build_adjacency, find_node_index, NodeId, PipeId};
use hydro::request::{
    canonical_material, default_enforce_bool, default_manhole_bool, default_material,
    default_material_str, default_norm, default_nsga_generations, default_nsga_max_time_seconds,
    default_nsga_population_size, default_num_alternatives, default_project_name,
    default_strict_norm, normalize_norm, ProjectTypeStr,
};

#[test]
fn workspace_member_compiles() {
    // The test passing confirms compilation succeeded.
}

#[test]
fn solver_error_variants_are_constructible() {
    let _e1 = SolverError::NoOutlet;
    let _e2 = SolverError::NoSource;
    let _e3 = SolverError::InsufficientTerminals;
    let _e4 = SolverError::NoRoute;
    let _e5 = SolverError::NoFeasibleSolution;
    let _e6 = SolverError::SteinerFailed("test".to_string());
    let _e7 = SolverError::BuildFailed("test".to_string());
}

#[test]
fn terrain_error_variants_carry_their_fields() {
    let e = TerrainError::InsufficientPoints { got: 2, need: 3 };
    assert_eq!(e, TerrainError::InsufficientPoints { got: 2, need: 3 });
    assert_ne!(e, TerrainError::EmptyTerrain);
}

#[test]
fn pipe_material_pvc_roundtrip() {
    let m = PipeMaterial::from_str_with_aliases("PVC").unwrap();
    assert_eq!(m, PipeMaterial::Pvc);
    assert_eq!(m.as_str(), "PVC");
}

#[test]
fn pipe_material_pead_alias_resolves_to_hdpe() {
    assert_eq!(PipeMaterial::from_str_with_aliases("PEAD"), Some(PipeMaterial::Hdpe));
}

#[test]
fn pipe_material_concreto_alias_resolves_to_concrete() {
    assert_eq!(PipeMaterial::from_str_with_aliases("CONCRETO"), Some(PipeMaterial::Concrete));
}

#[test]
fn pipe_material_acero_alias_resolves_to_steel() {
    assert_eq!(PipeMaterial::from_str_with_aliases("ACERO"), Some(PipeMaterial::Steel));
}

#[test]
fn pipe_material_fierro_fundido_alias_resolves_to_cast_iron() {
    assert_eq!(
        PipeMaterial::from_str_with_aliases("FIERRO_FUNDIDO"),
        Some(PipeMaterial::CastIron)
    );
}

#[test]
fn pipe_material_unknown_returns_err() {
    assert_eq!(PipeMaterial::from_str_with_aliases("CLAY"), None);
}

#[test]
fn pipe_material_names_are_normalised_before_lookup() {
    assert_eq!(PipeMaterial::from_str_with_aliases("  cast-iron "), Some(PipeMaterial::CastIron));
    assert_eq!(PipeMaterial::from_str_with_aliases("fierro fundido"), Some(PipeMaterial::CastIron));
    assert_eq!(PipeMaterial::from_str_with_aliases("CastIron"), Some(PipeMaterial::CastIron));
    assert_eq!(PipeMaterial::from_str_with_aliases("hdpe"), Some(PipeMaterial::Hdpe));
    assert_eq!(PipeMaterial::from_str_with_aliases(""), None);
}

#[test]
fn pipe_material_canonical_names_decode() {
    for m in [
        PipeMaterial::Pvc,
        PipeMaterial::Concrete,
        PipeMaterial::Hdpe,
        PipeMaterial::Steel,
        PipeMaterial::CastIron,
    ] {
        assert_eq!(PipeMaterial::from_str_with_aliases(m.as_str()), Some(m));
    }
    assert_eq!(PipeMaterial::CastIron.as_str(), "CAST_IRON");
}

#[test]
fn project_type_sewer_deserializes() {
    let pt = ProjectTypeStr::parse("sewer").unwrap();
    assert_eq!(pt.as_enum(), Some(ProjectType::Sewer));
}

#[test]
fn project_type_water_supply_deserializes() {
    let pt = ProjectTypeStr::parse("water_supply").unwrap();
    assert_eq!(pt.as_enum(), Some(ProjectType::WaterSupply));
}

#[test]
fn project_type_unknown_variant_returns_err() {
    assert!(ProjectTypeStr::parse("aqueduct").is_none());
}

#[test]
fn project_type_names_are_normalised() {
    let pt = ProjectTypeStr::parse("  Pump-Station ").unwrap();
    assert_eq!(pt.as_str(), "pump_station");
    assert_eq!(pt.as_enum(), Some(ProjectType::PumpStation));
    assert_eq!(
        ProjectTypeStr::parse("WATER SUPPLY").unwrap().as_enum(),
        Some(ProjectType::WaterSupply)
    );
    assert!(ProjectTypeStr::parse("").is_none());
}

#[test]
fn material_pead_alias_resolves_to_hdpe() {
    assert_eq!(canonical_material("PEAD"), Some("HDPE"));
}

#[test]
fn material_concreto_alias_resolves_to_concrete() {
    assert_eq!(canonical_material("CONCRETO"), Some("CONCRETE"));
    assert_eq!(canonical_material("clay"), None);
}

#[test]
fn norm_conagua_is_normalized_to_uppercase() {
    assert_eq!(normalize_norm("CONAGUA"), "CONAGUA");
    assert_eq!(normalize_norm(" conagua-mx "), "CONAGUA_MX");
}

#[test]
fn default_values_match_spec() {
    assert_eq!(default_project_name(), "Unnamed");
    assert_eq!(default_material_str(), "PVC");
    assert_eq!(default_material(), "PVC");
    assert_eq!(default_num_alternatives(), 3);
    assert_eq!(default_norm(), "CONAGUA_MX");
    assert!(default_strict_norm());
    assert_eq!(default_nsga_population_size(), 100);
    assert_eq!(default_nsga_generations(), 50);
    assert_eq!(default_nsga_max_time_seconds(), 300);
    assert!(!default_enforce_bool());
    assert!(default_manhole_bool());
}

#[test]
fn node_id_roundtrip_oracle_style_g12() {
    let id = NodeId::new("g12");
    assert_eq!(id.as_str(), "g12");
    assert_eq!(NodeId::new(id.as_str()), id);
}

#[test]
fn node_id_roundtrip_pipe_with_spaces_and_parens() {
    let id = NodeId::new("Pipe - (3)");
    assert_eq!(id.as_str(), "Pipe - (3)");
    assert_eq!(NodeId::new(id.as_str()), id);
}

#[test]
fn pipe_id_roundtrip() {
    let id = PipeId::new("p-001");
    assert_eq!(id.as_str(), "p-001");
    assert_eq!(PipeId::new(id.as_str()), id);
}

#[test]
fn adjacency_lists_pipes_by_end() {
    let ends = vec![
        (NodeId::new("n1"), NodeId::new("n2")),
        (NodeId::new("n2"), NodeId::new("n3")),
        (NodeId::new("n1"), NodeId::new("n3")),
    ];
    let adj = build_adjacency(&ends);
    assert_eq!(adj.len(), 3);
    let n1 = adj.iter().find(|(k, _)| k.as_str() == "n1").unwrap();
    let mut l1: Vec<(String, usize)> = n1.1.iter().map(|(n, p)| (n.as_str().to_string(), *p)).collect();
    l1.sort();
    assert_eq!(l1, vec![("n2".to_string(), 0), ("n3".to_string(), 2)]);
    let n3 = adj.iter().find(|(k, _)| k.as_str() == "n3").unwrap();
    let mut l3: Vec<(String, usize)> = n3.1.iter().map(|(n, p)| (n.as_str().to_string(), *p)).collect();
    l3.sort();
    assert_eq!(l3, vec![("n1".to_string(), 2), ("n2".to_string(), 1)]);
}

#[test]
fn find_node_index_returns_first_match() {
    let ids = vec![NodeId::new("a"), NodeId::new("b"), NodeId::new("a")];
    assert_eq!(find_node_index(&ids, &NodeId::new("a")), Some(0));
    assert_eq!(find_node_index(&ids, &NodeId::new("b")), Some(1));
    assert_eq!(find_node_index(&ids, &NodeId::new("c")), None);
}

#[test]
fn pipe_material_from_normalized_names() {
    assert_eq!(PipeMaterial::from_normalized("PVC"), Some(PipeMaterial::Pvc));
    assert_eq!(PipeMaterial::from_normalized("FIERRO_FUNDIDO"), Some(PipeMaterial::CastIron));
    assert_eq!(PipeMaterial::from_normalized("CASTIRON"), Some(PipeMaterial::CastIron));
    assert_eq!(PipeMaterial::from_normalized("ACERO"), Some(PipeMaterial::Steel));
    // Not normalised: no lookup through case or separators here.
    assert_eq!(PipeMaterial::from_normalized("pvc"), None);
    assert_eq!(PipeMaterial::from_normalized("CAST IRON"), None);
}

#[test]
fn pipe_material_names_are_trimmed_of_unicode_white_space() {
    assert_eq!(
        PipeMaterial::from_str_with_aliases("\u{3000}\t pead \u{2028}"),
        Some(PipeMaterial::Hdpe)
    );
    assert_eq!(normalize_norm("\n conagua-mx \u{a0}"), "CONAGUA_MX");
}

#[test]
fn adjacency_holds_two_entries_per_pipe() {
    let ends = vec![
        (NodeId::new("a"), NodeId::new("b")),
        (NodeId::new("b"), NodeId::new("c")),
        (NodeId::new("c"), NodeId::new("c")),
        (NodeId::new("a"), NodeId::new("b")),
    ];
    let adj = build_adjacency(&ends);
    let total: usize = adj.iter().map(|(_, l)| l.len()).sum();
    assert_eq!(total, 2 * ends.len());
    assert_eq!(adj.len(), 3);
}

#[test]
fn pipe_material_canonical_names_round_trip_in_either_case() {
    for m in [
        PipeMaterial::Pvc,
        PipeMaterial::Concrete,
        PipeMaterial::Hdpe,
        PipeMaterial::Steel,
        PipeMaterial::CastIron,
    ] {
        assert_eq!(PipeMaterial::from_str_with_aliases(m.as_str()), Some(m));
        assert_eq!(PipeMaterial::from_str_with_aliases(&m.as_str().to_lowercase()), Some(m));
    }
}
