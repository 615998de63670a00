//! The request contract: project type names, norm and material name
//! normalisation, request defaults, and the order and integer ranges of the
//! request checks.

use vstd::prelude::*;

use crate::enums::{material_from_name, material_name, normalized_name, PipeMaterial, ProjectType};
use crate::text::{lower_cased, lower_str, replace_separators, str_eq, trim_str, trimmed, underscored};

verus! {

// ── Project type ──────────────────────────────────────────────────────────────

/// The project type that a normalised name denotes.
pub open spec fn project_type_from_name(s: Seq<char>) -> Option<ProjectType> {
    if s == "sewer"@ {
        Some(ProjectType::Sewer)
    } else if s == "water_supply"@ {
        Some(ProjectType::WaterSupply)
    } else if s == "conveyance"@ {
        Some(ProjectType::Conveyance)
    } else if s == "distribution"@ {
        Some(ProjectType::Distribution)
    } else if s == "pump_station"@ {
        Some(ProjectType::PumpStation)
    } else if s == "intake"@ {
        Some(ProjectType::Intake)
    } else {
        None
    }
}

/// The snake_case name of a project type, as requests and results write it.
pub open spec fn project_type_name(p: ProjectType) -> Seq<char> {
    match p {
        ProjectType::Sewer => "sewer"@,
        ProjectType::WaterSupply => "water_supply"@,
        ProjectType::Conveyance => "conveyance"@,
        ProjectType::Distribution => "distribution"@,
        ProjectType::PumpStation => "pump_station"@,
        ProjectType::Intake => "intake"@,
    }
}

/// Each project type's name denotes that type, and a name that denotes a
/// type is that type's name: the names and the types match one to one.
pub proof fn law_project_type_names(p: ProjectType, s: Seq<char>)
    ensures
        project_type_from_name(project_type_name(p)) == Some(p),
        project_type_from_name(s) == Some(p) ==> s == project_type_name(p),
{
    reveal_strlit("sewer");
    reveal_strlit("water_supply");
    reveal_strlit("conveyance");
    reveal_strlit("distribution");
    reveal_strlit("pump_station");
    reveal_strlit("intake");
    assert("sewer"@.len() == 5);
    assert("intake"@.len() == 6);
    assert("conveyance"@.len() == 10);
    assert("water_supply"@.len() == 12);
    assert("distribution"@.len() == 12);
    assert("pump_station"@.len() == 12);
    assert("water_supply"@[0] == 'w');
    assert("distribution"@[0] == 'd');
    assert("pump_station"@[0] == 'p');
    assert("sewer"@[0] == 's');
    assert("intake"@[0] == 'i');
    assert("conveyance"@[0] == 'c');
}

/// A project-type name as read from a request: trimmed, lower-cased, with
/// spaces and hyphens turned into underscores.
pub open spec fn project_type_key(raw: Seq<char>) -> Seq<char> {
    underscored(lower_cased(trimmed(raw)))
}

/// Validated project type string (one of the six canonical snake_case names).
#[derive(Debug, Clone, PartialEq)]
pub struct ProjectTypeStr(pub String);

impl ProjectTypeStr {
    /// The stored name.
    pub fn as_str(&self) -> (s: &str)
        ensures
            s@ == self.0@,
    {
        self.0.as_str()
    }

    /// Normalises a raw project-type name and accepts it when it is one of
    /// sewer, water_supply, conveyance, distribution, pump_station, intake.
    pub fn parse(raw: &str) -> (r: Option<ProjectTypeStr>)
        ensures
            match r {
                Some(p) => p.0@ == project_type_key(raw@) && project_type_from_name(p.0@) is Some,
                None => project_type_from_name(project_type_key(raw@)) is None,
            },
    {
        let t = trim_str(raw);
        let l = lower_str(t.as_str());
        let norm = replace_separators(l.as_str());
        let pt = ProjectTypeStr(norm);
        if pt.as_enum().is_some() {
            Some(pt)
        } else {
            None
        }
    }

    /// The project type that the stored name denotes.
    pub fn as_enum(&self) -> (r: Option<ProjectType>)
        ensures
            r == project_type_from_name(self.0@),
    {
        let s = self.0.as_str();
        if str_eq(s, "sewer") {
            Some(ProjectType::Sewer)
        } else if str_eq(s, "water_supply") {
            Some(ProjectType::WaterSupply)
        } else if str_eq(s, "conveyance") {
            Some(ProjectType::Conveyance)
        } else if str_eq(s, "distribution") {
            Some(ProjectType::Distribution)
        } else if str_eq(s, "pump_station") {
            Some(ProjectType::PumpStation)
        } else if str_eq(s, "intake") {
            Some(ProjectType::Intake)
        } else {
            None
        }
    }
}

// ── Norm and material names ───────────────────────────────────────────────────

/// A norm code as stored in a request: trimmed, upper-cased, hyphens and
/// spaces turned into underscores (alias resolution happens elsewhere).
pub fn normalize_norm(s: &str) -> (r: String)
    ensures
        r@ == normalized_name(s@),
{
    let t = trim_str(s);
    let u = crate::text::upper_str(t.as_str());
    replace_separators(u.as_str())
}

/// The canonical name of the material that `s` names (aliases accepted), or
/// `None` for an unknown material.
pub fn canonical_material(s: &str) -> (r: Option<&'static str>)
    ensures
        match material_from_name(normalized_name(s@)) {
            Some(m) => r is Some && r->0@ == material_name(m),
            None => r is None,
        },
{
    match PipeMaterial::from_str_with_aliases(s) {
        Some(m) => Some(m.as_str()),
        None => None,
    }
}

// ── Defaults ──────────────────────────────────────────────────────────────────

fn owned(s: &str) -> (r: String)
    ensures
        r@ == s@,
{
    s.to_owned()
}

/// Default project name.
pub fn default_project_name() -> (r: String)
    ensures
        r@ == "Unnamed"@,
{
    owned("Unnamed")
}

/// Default request material.
pub fn default_material_str() -> (r: String)
    ensures
        r@ == "PVC"@,
{
    owned("PVC")
}

/// Default material of the design constraints.
pub fn default_material() -> (r: String)
    ensures
        r@ == "PVC"@,
{
    owned("PVC")
}

/// Default number of alternatives.
pub fn default_num_alternatives() -> (r: u32)
    ensures
        r == 3,
{
    3
}

/// Default norm code.
pub fn default_norm() -> (r: String)
    ensures
        r@ == "CONAGUA_MX"@,
{
    owned("CONAGUA_MX")
}

/// Strict norm compliance is on by default.
pub fn default_strict_norm() -> (r: bool)
    ensures
        r,
{
    true
}

/// Default NSGA-III population size.
pub fn default_nsga_population_size() -> (r: u32)
    ensures
        r == 100,
{
    100
}

/// Default number of NSGA-III generations.
pub fn default_nsga_generations() -> (r: u32)
    ensures
        r == 50,
{
    50
}

/// Default NSGA-III time budget in seconds.
pub fn default_nsga_max_time_seconds() -> (r: u32)
    ensures
        r == 300,
{
    300
}

/// The `enforce_*` and `enable_path_smoothing` switches are off by default.
pub fn default_enforce_bool() -> (r: bool)
    ensures
        !r,
{
    false
}

/// Manholes at direction, slope and diameter changes are required by default.
pub fn default_manhole_bool() -> (r: bool)
    ensures
        r,
{
    true
}

// ── Request checks ────────────────────────────────────────────────────────────

/// What the request checks read: the integer fields themselves, and for each
/// real-valued field whether it lies in its range.
pub struct RequestFacts {
    pub terrain_point_count: usize,
    pub terrain_all_finite: bool,
    pub num_alternatives: u32,
    pub flow_per_service_in_range: bool,
    pub grid_resolution_in_range: bool,
    pub seed: Option<u64>,
    pub nsga_population_size: u32,
    pub nsga_generations: u32,
    pub nsga_max_time_seconds: u32,
    pub nsga_num_workers: Option<u32>,
    /// weight_cost, weight_excavation, weight_pumping, weight_interference,
    /// weight_resilience: each in [0, 1].
    pub weights_in_range: Vec<bool>,
    pub vertical_separation_in_range: bool,
    pub horizontal_separation_in_range: bool,
    /// The constraint overrides, merged over the defaults, pass their own
    /// cross-field validation.
    pub constraints_valid: bool,
    /// Per forbidden zone: number of coordinates, and whether its buffer
    /// (when given) is in [0, 200].
    pub zone_coord_counts: Vec<usize>,
    pub zone_buffer_in_range: Vec<bool>,
    /// Per mandatory route: number of coordinates, and whether its corridor
    /// width (when given) is in [0, 500].
    pub route_coord_counts: Vec<usize>,
    pub route_width_in_range: Vec<bool>,
}

/// A failed request check, in the order in which they are made.
#[derive(Debug, Clone, Copy, PartialEq, Eq, Structural)]
pub enum RequestCheck {
    TerrainTooSmall,
    TerrainNotFinite,
    NumAlternatives,
    FlowPerService,
    GridResolution,
    Seed,
    PopulationSize,
    Generations,
    MaxTime,
    NumWorkers,
    Weight(usize),
    VerticalSeparation,
    HorizontalSeparation,
    Constraints,
    ZoneCoords(usize),
    ZoneBuffer(usize),
    RouteCoords(usize),
    RouteCorridor(usize),
}

/// The position of a check in the order in which checks are made.
pub open spec fn check_key(c: RequestCheck) -> (int, int) {
    match c {
        RequestCheck::TerrainTooSmall => (0, 0),
        RequestCheck::TerrainNotFinite => (1, 0),
        RequestCheck::NumAlternatives => (2, 0),
        RequestCheck::FlowPerService => (3, 0),
        RequestCheck::GridResolution => (4, 0),
        RequestCheck::Seed => (5, 0),
        RequestCheck::PopulationSize => (6, 0),
        RequestCheck::Generations => (7, 0),
        RequestCheck::MaxTime => (8, 0),
        RequestCheck::NumWorkers => (9, 0),
        RequestCheck::Weight(i) => (10, i as int),
        RequestCheck::VerticalSeparation => (11, 0),
        RequestCheck::HorizontalSeparation => (12, 0),
        RequestCheck::Constraints => (13, 0),
        RequestCheck::ZoneCoords(i) => (14, 2 * i),
        RequestCheck::ZoneBuffer(i) => (14, 2 * i + 1),
        RequestCheck::RouteCoords(i) => (15, 2 * i),
        RequestCheck::RouteCorridor(i) => (15, 2 * i + 1),
    }
}

/// Check `a` is made before check `b`.
pub open spec fn check_before(a: RequestCheck, b: RequestCheck) -> bool {
    check_key(a).0 < check_key(b).0 || (check_key(a).0 == check_key(b).0 && check_key(a).1
        < check_key(b).1)
}

/// The facts are shaped as the checks expect: five weights, one buffer flag
/// per zone, one width flag per route.
pub open spec fn facts_shaped(f: &RequestFacts) -> bool {
    &&& f.weights_in_range@.len() == 5
    &&& f.zone_buffer_in_range@.len() == f.zone_coord_counts@.len()
    &&& f.route_width_in_range@.len() == f.route_coord_counts@.len()
}

/// Check `c` fails on the request described by `f`.
pub open spec fn check_fails(f: &RequestFacts, c: RequestCheck) -> bool {
    match c {
        RequestCheck::TerrainTooSmall => f.terrain_point_count < 3,
        RequestCheck::TerrainNotFinite => !f.terrain_all_finite,
        RequestCheck::NumAlternatives => !(1 <= f.num_alternatives <= 10),
        RequestCheck::FlowPerService => !f.flow_per_service_in_range,
        RequestCheck::GridResolution => !f.grid_resolution_in_range,
        RequestCheck::Seed => f.seed matches Some(s) && s > 2_147_483_647,
        RequestCheck::PopulationSize => !(20 <= f.nsga_population_size <= 500),
        RequestCheck::Generations => !(10 <= f.nsga_generations <= 500),
        RequestCheck::MaxTime => !(30 <= f.nsga_max_time_seconds <= 7200),
        RequestCheck::NumWorkers => f.nsga_num_workers matches Some(w) && !(1 <= w <= 256),
        RequestCheck::Weight(i) => i < 5 && !f.weights_in_range@[i as int],
        RequestCheck::VerticalSeparation => !f.vertical_separation_in_range,
        RequestCheck::HorizontalSeparation => !f.horizontal_separation_in_range,
        RequestCheck::Constraints => !f.constraints_valid,
        RequestCheck::ZoneCoords(i) => i < f.zone_coord_counts@.len() && f.zone_coord_counts@[i as int]
            < 3,
        RequestCheck::ZoneBuffer(i) => i < f.zone_coord_counts@.len()
            && !f.zone_buffer_in_range@[i as int],
        RequestCheck::RouteCoords(i) => i < f.route_coord_counts@.len()
            && f.route_coord_counts@[i as int] < 2,
        RequestCheck::RouteCorridor(i) => i < f.route_coord_counts@.len()
            && !f.route_width_in_range@[i as int],
    }
}

/// `c` is the first check, in check order, that fails.
pub open spec fn is_first_failure(f: &RequestFacts, c: RequestCheck) -> bool {
    check_fails(f, c) && forall|d: RequestCheck| #[trigger] check_before(d, c) ==> !check_fails(f, d)
}

/// A request passes every check exactly when its facts lie in the
/// documented ranges: at least 3 terrain points, all finite; 1 to 10
/// alternatives; flow per service and grid resolution in range; a seed (if
/// any) at most 2^31 - 1; population 20 to 500; 10 to 500 generations;
/// 30 to 7200 seconds; 1 to 256 workers (if given); all five weights, both
/// separations and the constraint overrides valid; every forbidden zone with
/// at least 3 coordinates and its buffer in range; every mandatory route
/// with at least 2 coordinates and its corridor width in range.
pub proof fn law_request_passes_exactly_in_range(f: &RequestFacts)
    requires
        facts_shaped(f),
    ensures
        (forall|c: RequestCheck| !#[trigger] check_fails(f, c)) <==> {
            &&& f.terrain_point_count >= 3
            &&& f.terrain_all_finite
            &&& 1 <= f.num_alternatives && f.num_alternatives <= 10
            &&& f.flow_per_service_in_range
            &&& f.grid_resolution_in_range
            &&& (f.seed matches Some(sd) ==> sd <= 2147483647)
            &&& 20 <= f.nsga_population_size && f.nsga_population_size <= 500
            &&& 10 <= f.nsga_generations && f.nsga_generations <= 500
            &&& 30 <= f.nsga_max_time_seconds && f.nsga_max_time_seconds <= 7200
            &&& (f.nsga_num_workers matches Some(w) ==> 1 <= w && w <= 256)
            &&& (forall|i: int| 0 <= i < 5 ==> #[trigger] f.weights_in_range@[i])
            &&& f.vertical_separation_in_range
            &&& f.horizontal_separation_in_range
            &&& f.constraints_valid
            &&& (forall|i: int| 0 <= i < f.zone_coord_counts@.len() ==> #[trigger] f.zone_coord_counts@[i] >= 3)
            &&& (forall|i: int| 0 <= i < f.zone_coord_counts@.len() ==> #[trigger] f.zone_buffer_in_range@[i])
            &&& (forall|i: int| 0 <= i < f.route_coord_counts@.len() ==> #[trigger] f.route_coord_counts@[i] >= 2)
            &&& (forall|i: int| 0 <= i < f.route_coord_counts@.len() ==> #[trigger] f.route_width_in_range@[i])
        },
{
    if forall|c: RequestCheck| !#[trigger] check_fails(f, c) {
        assert(!check_fails(f, RequestCheck::TerrainTooSmall));
        assert(!check_fails(f, RequestCheck::TerrainNotFinite));
        assert(!check_fails(f, RequestCheck::NumAlternatives));
        assert(!check_fails(f, RequestCheck::FlowPerService));
        assert(!check_fails(f, RequestCheck::GridResolution));
        assert(!check_fails(f, RequestCheck::Seed));
        assert(!check_fails(f, RequestCheck::PopulationSize));
        assert(!check_fails(f, RequestCheck::Generations));
        assert(!check_fails(f, RequestCheck::MaxTime));
        assert(!check_fails(f, RequestCheck::NumWorkers));
        assert(!check_fails(f, RequestCheck::VerticalSeparation));
        assert(!check_fails(f, RequestCheck::HorizontalSeparation));
        assert(!check_fails(f, RequestCheck::Constraints));
        assert forall|i: int| 0 <= i < 5 implies #[trigger] f.weights_in_range@[i] by {
            assert(!check_fails(f, RequestCheck::Weight(i as usize)));
        }
        assert forall|i: int| 0 <= i < f.zone_coord_counts@.len() implies #[trigger] f.zone_coord_counts@[i] >= 3 by {
            assert(f.zone_coord_counts@.len() == f.zone_coord_counts.len());
            assert(i as usize as int == i);
            assert(!check_fails(f, RequestCheck::ZoneCoords(i as usize)));
        }
        assert forall|i: int| 0 <= i < f.zone_coord_counts@.len() implies #[trigger] f.zone_buffer_in_range@[i] by {
            assert(f.zone_coord_counts@.len() == f.zone_coord_counts.len());
            assert(i as usize as int == i);
            assert(!check_fails(f, RequestCheck::ZoneBuffer(i as usize)));
        }
        assert forall|i: int| 0 <= i < f.route_coord_counts@.len() implies #[trigger] f.route_coord_counts@[i] >= 2 by {
            assert(f.route_coord_counts@.len() == f.route_coord_counts.len());
            assert(i as usize as int == i);
            assert(!check_fails(f, RequestCheck::RouteCoords(i as usize)));
        }
        assert forall|i: int| 0 <= i < f.route_coord_counts@.len() implies #[trigger] f.route_width_in_range@[i] by {
            assert(f.route_coord_counts@.len() == f.route_coord_counts.len());
            assert(i as usize as int == i);
            assert(!check_fails(f, RequestCheck::RouteCorridor(i as usize)));
        }
    }
}

/// The checks are made in this order: terrain size, terrain finiteness,
/// alternatives, flow per service, grid resolution, seed, population,
/// generations, time limit, workers, the weights in turn, vertical then
/// horizontal separation, the constraint overrides, then zone by zone its
/// coordinates before its buffer, then route by route its coordinates
/// before its corridor width.
pub proof fn law_request_check_order(i: usize, j: usize)
    ensures
        check_before(RequestCheck::TerrainTooSmall, RequestCheck::TerrainNotFinite),
        check_before(RequestCheck::TerrainNotFinite, RequestCheck::NumAlternatives),
        check_before(RequestCheck::NumAlternatives, RequestCheck::FlowPerService),
        check_before(RequestCheck::FlowPerService, RequestCheck::GridResolution),
        check_before(RequestCheck::GridResolution, RequestCheck::Seed),
        check_before(RequestCheck::Seed, RequestCheck::PopulationSize),
        check_before(RequestCheck::PopulationSize, RequestCheck::Generations),
        check_before(RequestCheck::Generations, RequestCheck::MaxTime),
        check_before(RequestCheck::MaxTime, RequestCheck::NumWorkers),
        check_before(RequestCheck::NumWorkers, RequestCheck::Weight(i)),
        check_before(RequestCheck::Weight(i), RequestCheck::Weight(j)) <==> i < j,
        check_before(RequestCheck::Weight(i), RequestCheck::VerticalSeparation),
        check_before(RequestCheck::VerticalSeparation, RequestCheck::HorizontalSeparation),
        check_before(RequestCheck::HorizontalSeparation, RequestCheck::Constraints),
        check_before(RequestCheck::Constraints, RequestCheck::ZoneCoords(i)),
        check_before(RequestCheck::ZoneCoords(i), RequestCheck::ZoneBuffer(i)),
        check_before(RequestCheck::ZoneBuffer(i), RequestCheck::ZoneCoords(j)) <==> i < j,
        check_before(RequestCheck::ZoneBuffer(i), RequestCheck::RouteCoords(j)),
        check_before(RequestCheck::RouteCoords(i), RequestCheck::RouteCorridor(i)),
        check_before(RequestCheck::RouteCorridor(i), RequestCheck::RouteCoords(j)) <==> i < j,
{
}

/// The first position of `flags` that is `false`.
fn first_false(flags: &Vec<bool>) -> (r: Option<usize>)
    ensures
        match r {
            Some(i) => i < flags@.len() && !flags@[i as int] && forall|k: int| 0 <= k < i ==> flags@[k],
            None => forall|k: int| 0 <= k < flags@.len() ==> flags@[k],
        },
{
    let mut i: usize = 0;
    while i < flags.len()
        invariant
            i <= flags@.len(),
            forall|k: int| 0 <= k < i ==> flags@[k],
        decreases flags@.len() - i,
    {
        if !flags[i] {
            return Some(i);
        }
        i = i + 1;
    }
    None
}

/// The first entry that has fewer than `min` coordinates or a flag off,
/// counts checked before flags entry by entry: `(entry, true)` for a count,
/// `(entry, false)` for a flag.
fn first_bad_entry(counts: &Vec<usize>, flags: &Vec<bool>, least: usize) -> (r: Option<(usize, bool)>)
    requires
        counts@.len() == flags@.len(),
    ensures
        r matches Some(p) ==> p.0 < counts@.len() && (if p.1 {
            counts@[p.0 as int] < least
        } else {
            counts@[p.0 as int] >= least && !flags@[p.0 as int]
        }),
        r matches Some(p) ==> forall|k: int| 0 <= k < p.0 ==> counts@[k] >= least,
        r matches Some(p) ==> forall|k: int| 0 <= k < p.0 ==> flags@[k],
        r is None ==> forall|k: int| 0 <= k < counts@.len() ==> counts@[k] >= least,
        r is None ==> forall|k: int| 0 <= k < counts@.len() ==> flags@[k],
{
    let mut i: usize = 0;
    while i < counts.len()
        invariant
            counts@.len() == flags@.len(),
            i <= counts@.len(),
            forall|k: int| 0 <= k < i ==> counts@[k] >= least,
            forall|k: int| 0 <= k < i ==> flags@[k],
        decreases counts@.len() - i,
    {
        let c = counts[i];
        if c < least {
            return Some((i, true));
        }
        let fl = flags[i];
        if !fl {
            return Some((i, false));
        }
        assert(counts@[i as int] >= least);
        assert(flags@[i as int]);
        i = i + 1;
    }
    None
}

/// The first failing request check, or `None` when the request passes all
/// of them.
pub fn first_failed_check(f: &RequestFacts) -> (r: Option<RequestCheck>)
    requires
        facts_shaped(f),
    ensures
        match r {
            Some(c) => is_first_failure(f, c),
            None => forall|c: RequestCheck| !#[trigger] check_fails(f, c),
        },
{
    if f.terrain_point_count < 3 {
        return Some(RequestCheck::TerrainTooSmall);
    }
    if !f.terrain_all_finite {
        return Some(RequestCheck::TerrainNotFinite);
    }
    if !(1 <= f.num_alternatives && f.num_alternatives <= 10) {
        return Some(RequestCheck::NumAlternatives);
    }
    if !f.flow_per_service_in_range {
        return Some(RequestCheck::FlowPerService);
    }
    if !f.grid_resolution_in_range {
        return Some(RequestCheck::GridResolution);
    }
    if let Some(seed) = f.seed {
        if seed > 2_147_483_647 {
            return Some(RequestCheck::Seed);
        }
    }
    if !(20 <= f.nsga_population_size && f.nsga_population_size <= 500) {
        return Some(RequestCheck::PopulationSize);
    }
    if !(10 <= f.nsga_generations && f.nsga_generations <= 500) {
        return Some(RequestCheck::Generations);
    }
    if !(30 <= f.nsga_max_time_seconds && f.nsga_max_time_seconds <= 7200) {
        return Some(RequestCheck::MaxTime);
    }
    if let Some(w) = f.nsga_num_workers {
        if !(1 <= w && w <= 256) {
            return Some(RequestCheck::NumWorkers);
        }
    }
    if let Some(i) = first_false(&f.weights_in_range) {
        proof {
            assert forall|d: RequestCheck| #[trigger] check_before(d, RequestCheck::Weight(i)) implies !check_fails(f, d) by {
                if let RequestCheck::Weight(k) = d {
                    assert(f.weights_in_range@[k as int]);
                }
            }
        }
        return Some(RequestCheck::Weight(i));
    }
    if !f.vertical_separation_in_range {
        return Some(RequestCheck::VerticalSeparation);
    }
    if !f.horizontal_separation_in_range {
        return Some(RequestCheck::HorizontalSeparation);
    }
    if !f.constraints_valid {
        return Some(RequestCheck::Constraints);
    }
    if let Some((z, is_count)) = first_bad_entry(&f.zone_coord_counts, &f.zone_buffer_in_range, 3) {
        let c = if is_count {
            RequestCheck::ZoneCoords(z)
        } else {
            RequestCheck::ZoneBuffer(z)
        };
        proof {
            assert forall|d: RequestCheck| #[trigger] check_before(d, c) implies !check_fails(f, d) by {
                match d {
                    RequestCheck::Weight(k) => {
                        if k < 5 {
                            assert(f.weights_in_range@[k as int]);
                        }
                    },
                    RequestCheck::ZoneCoords(k) => {},
                    RequestCheck::ZoneBuffer(k) => {},
                    _ => {},
                }
            }
        }
        return Some(c);
    }
    if let Some((q, is_count)) = first_bad_entry(&f.route_coord_counts, &f.route_width_in_range, 2) {
        let c = if is_count {
            RequestCheck::RouteCoords(q)
        } else {
            RequestCheck::RouteCorridor(q)
        };
        proof {
            assert forall|d: RequestCheck| #[trigger] check_before(d, c) implies !check_fails(f, d) by {
                match d {
                    RequestCheck::Weight(k) => {
                        if k < 5 {
                            assert(f.weights_in_range@[k as int]);
                        }
                    },
                    RequestCheck::ZoneCoords(k) => {
                        if k < f.zone_coord_counts@.len() {
                            assert(f.zone_coord_counts@[k as int] >= 3);
                        }
                    },
                    RequestCheck::ZoneBuffer(k) => {
                        if k < f.zone_coord_counts@.len() {
                            assert(f.zone_buffer_in_range@[k as int]);
                        }
                    },
                    RequestCheck::RouteCoords(k) => {},
                    RequestCheck::RouteCorridor(k) => {},
                    _ => {},
                }
            }
        }
        return Some(c);
    }
    proof {
        assert forall|c: RequestCheck| !#[trigger] check_fails(f, c) by {
            match c {
                RequestCheck::Weight(k) => {
                    if k < 5 {
                        assert(f.weights_in_range@[k as int]);
                    }
                },
                RequestCheck::ZoneCoords(k) => {
                    if k < f.zone_coord_counts@.len() {
                        assert(f.zone_coord_counts@[k as int] >= 3);
                    }
                },
                RequestCheck::ZoneBuffer(k) => {
                    if k < f.zone_coord_counts@.len() {
                        assert(f.zone_buffer_in_range@[k as int]);
                    }
                },
                RequestCheck::RouteCoords(k) => {
                    if k < f.route_coord_counts@.len() {
                        assert(f.route_coord_counts@[k as int] >= 2);
                    }
                },
                RequestCheck::RouteCorridor(k) => {
                    if k < f.route_coord_counts@.len() {
                        assert(f.route_width_in_range@[k as int]);
                    }
                },
                _ => {},
            }
        }
    }
    None
}

} // verus!
