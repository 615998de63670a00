use hydro::request::{first_failed_check, RequestCheck, RequestFacts};

fn minimal_facts() -> RequestFacts {
    RequestFacts {
        terrain_point_count: 3,
        terrain_all_finite: true,
        num_alternatives: 3,
        flow_per_service_in_range: true,
        grid_resolution_in_range: true,
        seed: None,
        nsga_population_size: 100,
        nsga_generations: 50,
        nsga_max_time_seconds: 300,
        nsga_num_workers: None,
        weights_in_range: vec![true; 5],
        vertical_separation_in_range: true,
        horizontal_separation_in_range: true,
        constraints_valid: true,
        zone_coord_counts: vec![],
        zone_buffer_in_range: vec![],
        route_coord_counts: vec![],
        route_width_in_range: vec![],
    }
}

#[test]
fn minimal_valid_request_passes_validation() {
    assert_eq!(first_failed_check(&minimal_facts()), None);
}

#[test]
fn missing_terrain_points_fails_validation() {
    let mut f = minimal_facts();
    f.terrain_point_count = 2;
    assert_eq!(first_failed_check(&f), Some(RequestCheck::TerrainTooSmall));
}

#[test]
fn constraint_min_slope_gt_max_slope_fails_validation() {
    let mut f = minimal_facts();
    f.constraints_valid = false;
    assert_eq!(first_failed_check(&f), Some(RequestCheck::Constraints));
}

#[test]
fn request_checks_report_the_first_failure_in_order() {
    let mut f = minimal_facts();
    f.constraints_valid = false;
    f.nsga_generations = 5;
    f.weights_in_range[3] = false;
    assert_eq!(first_failed_check(&f), Some(RequestCheck::Generations));
    f.nsga_generations = 10;
    assert_eq!(first_failed_check(&f), Some(RequestCheck::Weight(3)));
    f.weights_in_range[3] = true;
    assert_eq!(first_failed_check(&f), Some(RequestCheck::Constraints));
}

#[test]
fn request_check_integer_bounds() {
    let mut f = minimal_facts();
    f.num_alternatives = 0;
    assert_eq!(first_failed_check(&f), Some(RequestCheck::NumAlternatives));
    f.num_alternatives = 10;
    assert_eq!(first_failed_check(&f), None);
    f.num_alternatives = 11;
    assert_eq!(first_failed_check(&f), Some(RequestCheck::NumAlternatives));
    f.num_alternatives = 1;
    f.seed = Some(2_147_483_647);
    assert_eq!(first_failed_check(&f), None);
    f.seed = Some(2_147_483_648);
    assert_eq!(first_failed_check(&f), Some(RequestCheck::Seed));
    f.seed = None;
    f.nsga_population_size = 19;
    assert_eq!(first_failed_check(&f), Some(RequestCheck::PopulationSize));
    f.nsga_population_size = 500;
    f.nsga_max_time_seconds = 7201;
    assert_eq!(first_failed_check(&f), Some(RequestCheck::MaxTime));
    f.nsga_max_time_seconds = 30;
    f.nsga_num_workers = Some(0);
    assert_eq!(first_failed_check(&f), Some(RequestCheck::NumWorkers));
    f.nsga_num_workers = Some(256);
    assert_eq!(first_failed_check(&f), None);
}

#[test]
fn zone_and_route_checks_go_entry_by_entry() {
    let mut f = minimal_facts();
    f.zone_coord_counts = vec![4, 3, 2];
    f.zone_buffer_in_range = vec![true, false, true];
    assert_eq!(first_failed_check(&f), Some(RequestCheck::ZoneBuffer(1)));
    f.zone_buffer_in_range = vec![true, true, true];
    assert_eq!(first_failed_check(&f), Some(RequestCheck::ZoneCoords(2)));
    f.zone_coord_counts = vec![4, 3, 3];
    f.route_coord_counts = vec![1];
    f.route_width_in_range = vec![false];
    assert_eq!(first_failed_check(&f), Some(RequestCheck::RouteCoords(0)));
    f.route_coord_counts = vec![2];
    assert_eq!(first_failed_check(&f), Some(RequestCheck::RouteCorridor(0)));
}

#[test]
fn terrain_finiteness_is_checked_after_size() {
    let mut f = minimal_facts();
    f.terrain_all_finite = false;
    assert_eq!(first_failed_check(&f), Some(RequestCheck::TerrainNotFinite));
    f.terrain_point_count = 0;
    assert_eq!(first_failed_check(&f), Some(RequestCheck::TerrainTooSmall));
}
