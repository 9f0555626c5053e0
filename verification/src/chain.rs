//! Smoothing in stages, each of them verified before it may be delivered.

use crate::arc::LegCheck;
use crate::config::AircraftType;
use crate::curves::{catmull_rom_spline, catmull_route, greedy_simplify, thinned};
use crate::fit::{can_fit, dubins_fit, fitted};
use crate::numeric::{lemma_whole_exact, number, whole};
use crate::options::SmoothOptions;
use crate::oracle::{is_function, Calc};
use crate::path::{slice_points, Path, PathPoint};
use crate::scalar::{lemma_magnitude_monotone, magnitude_value, Scalar, FRACTION_LIMIT};
use crate::smooth::{theta_route, theta_star_smooth, TurnLimits};
use crate::terrain::Sample;
use crate::text::same_text;
use crate::verify::{
    route_findings, verify_path, Findings, Issue, VerifyContext, VerifyReport,
};
use vstd::arithmetic::power2::{lemma_pow2_adds, lemma_pow2_pos, lemma_pow2_unfold, pow2};
use vstd::prelude::*;

verus! {

/// A way of smoothing a route. One that cannot smooth a route returns nothing,
/// and the route goes on to the next stage as it is.
pub trait Smoother {
    /// The name under which the stage is reported.
    spec fn label(&self) -> Seq<char>;

    /// Whether what the stage calls is a function.
    spec fn ready(&self) -> bool;

    /// What the stage makes of a route.
    spec fn smoothed(&self, pts: Seq<PathPoint>) -> Option<Seq<PathPoint>>;

    fn name(&self) -> (s: &'static str)
        ensures
            s@ == self.label(),
    ;

    fn smooth(&self, path: &Path) -> (r: Option<Path>)
        requires
            self.ready(),
        ensures
            points_of_owned(r) == self.smoothed(path@),
    ;
}

/// The view of a route that may be missing.
pub open spec fn points_of_owned(path: Option<Path>) -> Option<Seq<PathPoint>> {
    match path {
        None => None,
        Some(p) => Some(p@),
    }
}

/// Straightening.
pub struct ThetaStarSmoother<'a, C: Fn(Calc) -> Scalar, K: LegCheck> {
    pub check: &'a K,
    pub limits: TurnLimits,
    pub calc: &'a C,
}

impl<'a, C: Fn(Calc) -> Scalar, K: LegCheck> Smoother for ThetaStarSmoother<
    'a,
    C,
    K,
> {
    open spec fn label(&self) -> Seq<char> {
        "theta_star"@
    }

    open spec fn ready(&self) -> bool {
        self.check.settled() && is_function(*self.calc)
    }

    open spec fn smoothed(&self, pts: Seq<PathPoint>) -> Option<Seq<PathPoint>> {
        Some(theta_route(*self.calc, *self.check, pts, self.limits))
    }

    fn name(&self) -> (s: &'static str) {
        "theta_star"
    }

    fn smooth(&self, path: &Path) -> (r: Option<Path>) {
        Some(theta_star_smooth(path, self.check, &self.limits, self.calc))
    }
}

/// Fitting of arcs and a line.
pub struct DubinsSmoother<'a, C: Fn(Calc) -> Scalar> {
    pub r_m: Scalar,
    pub sample_n: usize,
    pub calc: &'a C,
}

impl<'a, C: Fn(Calc) -> Scalar> Smoother for DubinsSmoother<'a, C> {
    open spec fn label(&self) -> Seq<char> {
        "dubins"@
    }

    open spec fn ready(&self) -> bool {
        is_function(*self.calc) && self.sample_n < usize::MAX
    }

    open spec fn smoothed(&self, pts: Seq<PathPoint>) -> Option<Seq<PathPoint>> {
        if can_fit(*self.calc, pts, self.r_m) {
            Some(fitted(*self.calc, pts, self.r_m, self.sample_n as int))
        } else {
            None
        }
    }

    fn name(&self) -> (s: &'static str) {
        "dubins"
    }

    fn smooth(&self, path: &Path) -> (r: Option<Path>) {
        dubins_fit(path, self.r_m, self.sample_n, self.calc)
    }
}

/// A spline through the points.
#[derive(Clone, Copy, Debug)]
pub struct CatmullRomSmoother {
    pub samples_per_seg: usize,
}

impl Smoother for CatmullRomSmoother {
    open spec fn label(&self) -> Seq<char> {
        "catmull_rom"@
    }

    open spec fn ready(&self) -> bool {
        true
    }

    open spec fn smoothed(&self, pts: Seq<PathPoint>) -> Option<Seq<PathPoint>> {
        Some(catmull_route(pts, self.samples_per_seg as int))
    }

    fn name(&self) -> (s: &'static str) {
        "catmull_rom"
    }

    fn smooth(&self, path: &Path) -> (r: Option<Path>) {
        Some(catmull_rom_spline(path, self.samples_per_seg))
    }
}

/// Leaving out points that lie near a chord.
pub struct GreedySimplifySmoother<'a, C: Fn(Calc) -> Scalar> {
    pub tol_m: Scalar,
    pub calc: &'a C,
}

impl<'a, C: Fn(Calc) -> Scalar> Smoother for GreedySimplifySmoother<'a, C> {
    open spec fn label(&self) -> Seq<char> {
        "greedy_simplify"@
    }

    open spec fn ready(&self) -> bool {
        is_function(*self.calc)
    }

    open spec fn smoothed(&self, pts: Seq<PathPoint>) -> Option<Seq<PathPoint>> {
        Some(thinned(*self.calc, pts, self.tol_m))
    }

    fn name(&self) -> (s: &'static str) {
        "greedy_simplify"
    }

    fn smooth(&self, path: &Path) -> (r: Option<Path>) {
        Some(greedy_simplify(path, self.tol_m, self.calc))
    }
}

/// One stage of the usual chain.
pub enum Stage<'a, C: Fn(Calc) -> Scalar, K: LegCheck> {
    Straighten(ThetaStarSmoother<'a, C, K>),
    Curve(CatmullRomSmoother),
    Fit(DubinsSmoother<'a, C>),
    Thin(GreedySimplifySmoother<'a, C>),
}

impl<'a, C: Fn(Calc) -> Scalar, K: LegCheck> Smoother for Stage<'a, C, K> {
    open spec fn label(&self) -> Seq<char> {
        match self {
            Stage::Straighten(s) => s.label(),
            Stage::Curve(s) => s.label(),
            Stage::Fit(s) => s.label(),
            Stage::Thin(s) => s.label(),
        }
    }

    open spec fn ready(&self) -> bool {
        match self {
            Stage::Straighten(s) => s.ready(),
            Stage::Curve(s) => s.ready(),
            Stage::Fit(s) => s.ready(),
            Stage::Thin(s) => s.ready(),
        }
    }

    open spec fn smoothed(&self, pts: Seq<PathPoint>) -> Option<Seq<PathPoint>> {
        match self {
            Stage::Straighten(s) => s.smoothed(pts),
            Stage::Curve(s) => s.smoothed(pts),
            Stage::Fit(s) => s.smoothed(pts),
            Stage::Thin(s) => s.smoothed(pts),
        }
    }

    fn name(&self) -> (s: &'static str) {
        match self {
            Stage::Straighten(s) => s.name(),
            Stage::Curve(s) => s.name(),
            Stage::Fit(s) => s.name(),
            Stage::Thin(s) => s.name(),
        }
    }

    fn smooth(&self, path: &Path) -> (r: Option<Path>) {
        match self {
            Stage::Straighten(s) => s.smooth(path),
            Stage::Curve(s) => s.smooth(path),
            Stage::Fit(s) => s.smooth(path),
            Stage::Thin(s) => s.smooth(path),
        }
    }
}

/// The usual chain: straightening, a spline, fitted arcs and thinning. A
/// rotorcraft turns on the spot, so its corners are neither splined nor rounded.
pub open spec fn usual_chain<'a, C: Fn(Calc) -> Scalar, K: LegCheck>(
    opts: SmoothOptions,
    check: &'a K,
    entry_heading: Option<Scalar>,
    entry_max_deg: Scalar,
    calc: &'a C,
) -> Seq<Stage<'a, C, K>> {
    let limits = TurnLimits {
        max_turn_deg: Some(opts.max_turn_deg),
        entry_heading,
        min_r_m: opts.turn_radius_m,
        entry_max_deg,
    };
    let straighten = Stage::Straighten(ThetaStarSmoother { check, limits, calc });
    let curve = Stage::Curve(CatmullRomSmoother { samples_per_seg: 16 });
    let fit = Stage::Fit(
        DubinsSmoother { r_m: opts.turn_radius_m, sample_n: opts.dubins_sample_n, calc },
    );
    let thin = Stage::Thin(GreedySimplifySmoother { tol_m: opts.chord_tol_m, calc });
    match opts.aircraft_type {
        AircraftType::FixedWing => seq![straighten, curve, fit, thin],
        AircraftType::Rotorcraft => seq![straighten, thin],
    }
}

pub fn default_chain<'a, C: Fn(Calc) -> Scalar, K: LegCheck>(
    opts: &SmoothOptions,
    check: &'a K,
    entry_heading: Option<Scalar>,
    entry_max_deg: Scalar,
    calc: &'a C,
) -> (r: Vec<Stage<'a, C, K>>)
    ensures
        r@ == usual_chain(*opts, check, entry_heading, entry_max_deg, calc),
{
    let limits: TurnLimits = TurnLimits {
        max_turn_deg: Some(opts.max_turn_deg),
        entry_heading,
        min_r_m: opts.turn_radius_m,
        entry_max_deg,
    };
    let mut chain: Vec<Stage<'a, C, K>> = Vec::new();
    chain.push(Stage::Straighten(ThetaStarSmoother { check, limits, calc }));
    match opts.aircraft_type {
        AircraftType::FixedWing => {
            chain.push(Stage::Curve(CatmullRomSmoother { samples_per_seg: 16 }));
            chain.push(
                Stage::Fit(
                    DubinsSmoother {
                        r_m: opts.turn_radius_m,
                        sample_n: opts.dubins_sample_n,
                        calc,
                    },
                ),
            );
        },
        AircraftType::Rotorcraft => {},
    }
    chain.push(Stage::Thin(GreedySimplifySmoother { tol_m: opts.chord_tol_m, calc }));
    assert(chain@ =~= usual_chain(*opts, check, entry_heading, entry_max_deg, calc));
    chain
}

/// A route at one stage: the name of the stage and the points after it.
pub type Staged = (Seq<char>, Seq<PathPoint>);

/// The routes after the first `k` smoothers of a chain, the raw route first. A
/// smoother that has nothing to offer leaves no stage.
pub open spec fn stages<S: Smoother>(input: Seq<PathPoint>, chain: Seq<S>, k: int) -> Seq<Staged>
    decreases k,
{
    if k <= 0 {
        seq![("input"@, input)]
    } else {
        let before = stages(input, chain, k - 1);
        match chain[k - 1].smoothed(before.last().1) {
            None => before,
            Some(pts) => before.push((chain[k - 1].label(), pts)),
        }
    }
}

/// The route that the stages may not stray from: the first of the first `k`
/// stages that was straightened, else the raw route.
pub open spec fn reference_route(st: Seq<Staged>, k: int) -> Seq<PathPoint>
    decreases k,
{
    if k <= 0 {
        st[0].1
    } else if (forall|j: int| 0 <= j < k - 1 ==> (#[trigger] st[j]).0 != "theta_star"@) && st[k
        - 1].0 == "theta_star"@ {
        st[k - 1].1
    } else {
        reference_route(st, k - 1)
    }
}

/// The options that a stage is verified with. Fitted arcs cut corners by up to a
/// kilometre, splines and the arcs of straightening by half as much; everything
/// else is held to the same limits.
pub open spec fn stage_options(name: Seq<char>, opts: SmoothOptions) -> SmoothOptions {
    if name == "dubins"@ {
        SmoothOptions { chord_tol_m: whole(1000), ..opts }
    } else if name == "catmull_rom"@ || name == "theta_star"@ {
        SmoothOptions { chord_tol_m: whole(500), ..opts }
    } else {
        opts
    }
}

fn make_stage_options(name: &str, opts: &SmoothOptions) -> (r: SmoothOptions)
    ensures
        r == stage_options(name@, *opts),
{
    let mut o: SmoothOptions = *opts;
    if same_text(name, "dubins") {
        o.chord_tol_m = number(1000);
    } else if same_text(name, "catmull_rom") || same_text(name, "theta_star") {
        o.chord_tol_m = number(500);
    }
    o
}

/// A height rounded to metres, halves to the even metre; zero if negative.
pub open spec fn nearest_metre(h: Scalar) -> Scalar {
    if h.nan() || h.negative() {
        whole(0)
    } else if h.infinite() {
        h
    } else {
        whole(h.round_even_value())
    }
}

/// Doubles from 2^62 on are whole numbers.
proof fn lemma_large_is_whole(h: Scalar)
    requires
        h.finite(),
        !h.negative(),
        h.round_even_value() >= 0x4000_0000_0000_0000,
    ensures
        whole(h.round_even_value()) == h,
{
    let p: int = pow2(1074) as int;
    let f: int = FRACTION_LIMIT as int;
    let v = h.value();
    let m = h.magnitude_bits();
    lemma_pow2_pos(1074);
    assert(v >= 0x3fff_ffff_ffff_ffff * p) by (nonlinear_arith)
        requires
            v / p + 1 >= 0x4000_0000_0000_0000,
            p > 0,
    ;
    let e = m / f;
    if e <= 1075 {
        assert(m < 1076 * f);
        lemma_magnitude_monotone(m, 1076 * f);
        lemma_pow2_unfold(1075);
        assert(magnitude_value(1076 * f) == f * (2 * p));
        assert(false) by (nonlinear_arith)
            requires
                v < f * (2 * p),
                v >= 0x3fff_ffff_ffff_ffff * p,
                p > 0,
                f == 0x10_0000_0000_0000,
        ;
    }
    lemma_pow2_adds(1074, (e - 1075) as nat);
    let q: int = pow2((e - 1075) as nat) as int;
    assert(pow2((e - 1) as nat) == p * q);
    let n: int = (f + m % f) * q;
    assert(v == n * p) by (nonlinear_arith)
        requires
            v == (f + m % f) * (p * q),
            n == (f + m % f) * q,
    ;
    vstd::arithmetic::div_mod::lemma_div_multiples_vanish(n, p);
    vstd::arithmetic::div_mod::lemma_mod_multiples_basic(n, p);
    assert(p * n == n * p) by (nonlinear_arith);
    assert(h.round_even_value() == n);
    lemma_whole_exact(n, h);
}

fn round_to_metre(h: Scalar) -> (r: Scalar)
    ensures
        r == nearest_metre(h),
{
    if h.is_nan() || h.is_negative() {
        return number(0);
    }
    if !h.is_finite() {
        return h;
    }
    let n: u64 = h.round_even_u64();
    if n >= 0x4000_0000_0000_0000 {
        proof {
            lemma_large_is_whole(h);
        }
        h
    } else {
        number(n)
    }
}

/// The highest land, in whole metres, among the first `k` issues that a route is
/// too low over land; zero if there is none.
pub open spec fn highest_land(issues: Seq<Issue>, k: int) -> Scalar
    decreases k,
{
    if k <= 0 {
        whole(0)
    } else {
        let below = highest_land(issues, k - 1);
        match issues[k - 1] {
            Issue::TerrainClearance { terrain_m, .. } => below.larger(nearest_metre(terrain_m)),
            _ => below,
        }
    }
}

pub fn find_highest_land(issues: &Vec<Issue>) -> (r: Scalar)
    ensures
        r == highest_land(issues@, issues@.len() as int),
{
    let mut highest: Scalar = number(0);
    let mut k: usize = 0;
    while k < issues.len()
        invariant
            k <= issues@.len(),
            highest == highest_land(issues@, k as int),
        decreases issues.len() - k,
    {
        match &issues[k] {
            Issue::TerrainClearance { terrain_m, .. } => {
                highest = highest.max(&round_to_metre(*terrain_m));
            },
            _ => {},
        }
        k = k + 1;
    }
    highest
}

/// What verification finds in a stage.
pub open spec fn stage_findings<
    C: Fn(Calc) -> Scalar,
    T: Fn((Scalar, Scalar)) -> Sample,
    N: Fn((Scalar, Scalar)) -> bool,
>(
    calc: C,
    ctx: VerifyContext<T, N>,
    opts: SmoothOptions,
    st: Seq<Staged>,
    phys_min_radius_m: Option<Scalar>,
    i: int,
) -> Findings {
    route_findings(
        calc,
        ctx,
        stage_options(st[i].0, opts),
        st[i].1,
        Some(reference_route(st, st.len() as int)),
        phys_min_radius_m,
    )
}

/// Whether a stage passes verification.
pub open spec fn stage_passes<
    C: Fn(Calc) -> Scalar,
    T: Fn((Scalar, Scalar)) -> Sample,
    N: Fn((Scalar, Scalar)) -> bool,
>(
    calc: C,
    ctx: VerifyContext<T, N>,
    opts: SmoothOptions,
    st: Seq<Staged>,
    phys_min_radius_m: Option<Scalar>,
    i: int,
) -> bool {
    stage_findings(calc, ctx, opts, st, phys_min_radius_m, i).issues.len() == 0
}

/// The stage to deliver out of those from number `k` on: the last one that passes
/// verification.
pub open spec fn chosen_stage<
    C: Fn(Calc) -> Scalar,
    T: Fn((Scalar, Scalar)) -> Sample,
    N: Fn((Scalar, Scalar)) -> bool,
>(
    calc: C,
    ctx: VerifyContext<T, N>,
    opts: SmoothOptions,
    st: Seq<Staged>,
    phys_min_radius_m: Option<Scalar>,
    k: int,
) -> Option<int>
    decreases st.len() - k,
{
    if k >= st.len() {
        None
    } else {
        let later = chosen_stage(calc, ctx, opts, st, phys_min_radius_m, k + 1);
        if later is None && stage_passes(calc, ctx, opts, st, phys_min_radius_m, k) {
            Some(k)
        } else {
            later
        }
    }
}

/// The highest land that a stage from number `k` on is too low over.
pub open spec fn land_in_the_way<
    C: Fn(Calc) -> Scalar,
    T: Fn((Scalar, Scalar)) -> Sample,
    N: Fn((Scalar, Scalar)) -> bool,
>(
    calc: C,
    ctx: VerifyContext<T, N>,
    opts: SmoothOptions,
    st: Seq<Staged>,
    phys_min_radius_m: Option<Scalar>,
    k: int,
) -> Option<Scalar>
    decreases st.len() - k,
{
    if k >= st.len() {
        None
    } else {
        let later = land_in_the_way(calc, ctx, opts, st, phys_min_radius_m, k + 1);
        let issues = stage_findings(calc, ctx, opts, st, phys_min_radius_m, k).issues;
        let t = highest_land(issues, issues.len() as int);
        if issues.len() > 0 && t > whole(0) {
            match later {
                None => Some(t),
                Some(o) => Some(o.larger(t)),
            }
        } else {
            later
        }
    }
}

/// The delivered route and how it came about.
pub struct SmoothResult {
    /// The stage that was chosen; the raw route if none passed.
    pub path: Path,
    /// The stages applied to get there.
    pub applied: Vec<String>,
    /// Set if no stage passed verification.
    pub warning: Option<String>,
    /// What verification found in the delivered route.
    pub verify: VerifyReport,
    /// The highest land that some stage was too low over, in metres.
    pub terrain_gap_m: Option<Scalar>,
}

/// The stages kept while a chain runs.
struct Stages {
    names: Vec<&'static str>,
    paths: Vec<Path>,
}

impl Stages {
    spec fn holds(self, st: Seq<Staged>) -> bool {
        &&& self.names@.len() == st.len()
        &&& self.paths@.len() == st.len()
        &&& forall|i: int|
            0 <= i < st.len() ==> (#[trigger] self.names@[i])@ == st[i].0 && self.paths@[i]@
                == st[i].1
    }
}

fn copy_of(path: &Path) -> (r: Path)
    ensures
        r@ == path@,
{
    let n: usize = path.points.len();
    let points: Vec<PathPoint> = slice_points(&path.points, 0, n);
    assert(points@ =~= path@);
    Path::new(points)
}

proof fn lemma_stages_begin<S: Smoother>(input: Seq<PathPoint>, chain: Seq<S>, k: int)
    ensures
        stages(input, chain, k).len() > 0,
        stages(input, chain, k)[0] == ("input"@, input),
    decreases k,
{
    if k > 0 {
        lemma_stages_begin(input, chain, k - 1);
    }
}

fn run_stages<S: Smoother>(input: &Path, chain: &Vec<S>) -> (r: Stages)
    requires
        forall|i: int| 0 <= i < chain@.len() ==> (#[trigger] chain@[i]).ready(),
    ensures
        r.holds(stages(input@, chain@, chain@.len() as int)),
{
    let mut names: Vec<&'static str> = Vec::new();
    let mut paths: Vec<Path> = Vec::new();
    names.push("input");
    paths.push(copy_of(input));
    let mut st: Stages = Stages { names, paths };
    let mut k: usize = 0;
    while k < chain.len()
        invariant
            forall|i: int| 0 <= i < chain@.len() ==> (#[trigger] chain@[i]).ready(),
            k <= chain@.len(),
            st.holds(stages(input@, chain@, k as int)),
        decreases chain.len() - k,
    {
        let ghost before = stages(input@, chain@, k as int);
        proof {
            lemma_stages_begin(input@, chain@, k as int);
            assert(chain@[k as int].ready());
        }
        let ghost labels = st.names@;
        let ghost routes = st.paths@;
        assert(forall|i: int|
            0 <= i < before.len() ==> (#[trigger] labels[i])@ == before[i].0 && routes[i]@
                == before[i].1);
        let last: usize = st.paths.len() - 1;
        assert(st.names@[last as int]@ == before.last().0);
        let next: Option<Path> = chain[k].smooth(&st.paths[last]);
        match next {
            Some(p) => {
                st.names.push(chain[k].name());
                st.paths.push(p);
            },
            None => {},
        }
        k = k + 1;
        proof {
            let after = stages(input@, chain@, k as int);
            assert forall|i: int| 0 <= i < after.len() implies (#[trigger] st.names@[i])@
                == after[i].0 && st.paths@[i]@ == after[i].1 by {
                if i < before.len() {
                    assert(labels[i]@ == before[i].0);
                    assert(routes[i]@ == before[i].1);
                    assert(st.names@[i] == labels[i] && st.paths@[i] == routes[i]);
                }
            }
        }
    }
    st
}

fn find_reference(st: &Stages, Ghost(view): Ghost<Seq<Staged>>) -> (r: Path)
    requires
        st.holds(view),
        view.len() > 0,
    ensures
        r@ == reference_route(view, view.len() as int),
{
    let mut k: usize = 0;
    while k < st.names.len()
        invariant
            st.holds(view),
            view.len() > 0,
            k <= view.len(),
            forall|j: int| 0 <= j < k ==> (#[trigger] view[j]).0 != "theta_star"@,
        decreases st.names.len() - k,
    {
        if same_text(st.names[k], "theta_star") {
            assert(st.names@[k as int]@ == view[k as int].0);
            proof {
                lemma_reference_found(view, k as int, view.len() as int);
            }
            return copy_of(&st.paths[k]);
        }
        assert(st.names@[k as int]@ == view[k as int].0);
        k = k + 1;
    }
    proof {
        lemma_reference_missing(view, view.len() as int);
        assert(st.names@[0]@ == view[0].0);
    }
    copy_of(&st.paths[0])
}

proof fn lemma_reference_found(st: Seq<Staged>, i: int, k: int)
    requires
        0 <= i < k <= st.len(),
        forall|j: int| 0 <= j < i ==> (#[trigger] st[j]).0 != "theta_star"@,
        st[i].0 == "theta_star"@,
    ensures
        reference_route(st, k) == st[i].1,
    decreases k,
{
    if i < k - 1 {
        assert(st[i].0 == "theta_star"@);
        lemma_reference_found(st, i, k - 1);
    }
}

proof fn lemma_reference_missing(st: Seq<Staged>, k: int)
    requires
        0 <= k <= st.len(),
        forall|j: int| 0 <= j < st.len() ==> (#[trigger] st[j]).0 != "theta_star"@,
    ensures
        reference_route(st, k) == st[0].1,
    decreases k,
{
    if k > 0 {
        assert(st[k - 1].0 != "theta_star"@);
        lemma_reference_missing(st, k - 1);
    }
}

fn list_applied(st: &Stages, last: usize, Ghost(view): Ghost<Seq<Staged>>) -> (r: Vec<String>)
    requires
        st.holds(view),
        last < view.len(),
    ensures
        r@.len() == last,
        forall|i: int| 0 <= i < last ==> (#[trigger] r@[i])@ == view[i + 1].0,
{
    let mut applied: Vec<String> = Vec::new();
    let mut i: usize = 0;
    while i < last
        invariant
            st.holds(view),
            last < view.len(),
            i <= last,
            applied@.len() == i,
            forall|j: int| 0 <= j < i ==> (#[trigger] applied@[j])@ == view[j + 1].0,
        decreases last - i,
    {
        assert(st.names.len() == st.names@.len());
        assert(st.names@[i + 1]@ == view[i + 1].0);
        applied.push(st.names[i + 1].to_owned());
        i = i + 1;
    }
    applied
}

/// The warning of a chain none of whose stages passed verification.
pub open spec fn failure_text() -> Seq<char> {
    "smoothing_failed: no smoothed stage passed full verification"@
}

impl SmoothResult {
    /// Whether the result is what the given stages lead to.
    pub open spec fn delivers<
        C: Fn(Calc) -> Scalar,
        T: Fn((Scalar, Scalar)) -> Sample,
        N: Fn((Scalar, Scalar)) -> bool,
    >(
        self,
        calc: C,
        ctx: VerifyContext<T, N>,
        opts: SmoothOptions,
        st: Seq<Staged>,
        phys_min_radius_m: Option<Scalar>,
    ) -> bool {
        &&& self.terrain_gap_m == land_in_the_way(calc, ctx, opts, st, phys_min_radius_m, 0)
        &&& match chosen_stage(calc, ctx, opts, st, phys_min_radius_m, 0) {
            Some(i) => {
                &&& self.path@ == st[i].1
                &&& self.applied@.len() == i
                &&& forall|j: int| 0 <= j < i ==> (#[trigger] self.applied@[j])@ == st[j + 1].0
                &&& self.warning is None
                &&& self.verify.tells(
                    stage_findings(calc, ctx, opts, st, phys_min_radius_m, i),
                )
            },
            None => {
                &&& self.path@ == st[0].1
                &&& self.applied@.len() == 0
                &&& self.warning is Some
                &&& self.warning->0@ == failure_text()
                &&& self.verify.tells(
                    route_findings(calc, ctx, opts, st[0].1, None, phys_min_radius_m),
                )
            },
        }
    }
}

/// Runs a chain of smoothers and verifies every stage. Delivers the last stage that
/// passes; if none does, the raw route with a warning.
pub fn smooth_path_chain<
    'a,
    S: Smoother,
    C: Fn(Calc) -> Scalar,
    T: Fn((Scalar, Scalar)) -> Sample,
    N: Fn((Scalar, Scalar)) -> bool,
>(
    input: &Path,
    chain: &Vec<S>,
    opts: &SmoothOptions,
    ctx: &VerifyContext<'a, T, N>,
    phys_min_radius_m: Option<Scalar>,
    calc: &C,
) -> (r: SmoothResult)
    requires
        is_function(*calc),
        ctx.settled(),
        forall|i: int| 0 <= i < chain@.len() ==> (#[trigger] chain@[i]).ready(),
    ensures
        r.delivers(
            *calc,
            *ctx,
            *opts,
            stages(input@, chain@, chain@.len() as int),
            phys_min_radius_m,
        ),
        r.warning is None ==> r.verify.ok,
        r.warning is Some ==> r.path@ == input@,
{
    let st: Stages = run_stages(input, chain);
    let ghost view = stages(input@, chain@, chain@.len() as int);
    proof {
        lemma_stages_begin(input@, chain@, chain@.len() as int);
    }
    let reference: Path = find_reference(&st, Ghost(view));
    let n: usize = st.names.len();
    let mut gap: Option<Scalar> = None;
    let mut best: Option<usize> = None;
    let mut k: usize = n;
    while k > 0
        invariant
            is_function(*calc),
            ctx.settled(),
            st.holds(view),
            n == view.len(),
            k <= n,
            reference@ == reference_route(view, view.len() as int),
            gap == land_in_the_way(*calc, *ctx, *opts, view, phys_min_radius_m, k as int),
            best is Some ==> k <= best->0 < n,
            chosen_stage(*calc, *ctx, *opts, view, phys_min_radius_m, k as int) == (match best {
                None => None,
                Some(b) => Some(b as int),
            }),
        decreases k,
    {
        k = k - 1;
        assert(st.names@[k as int]@ == view[k as int].0);
        let o: SmoothOptions = make_stage_options(st.names[k], opts);
        let rep: VerifyReport = verify_path(
            &st.paths[k],
            Some(&reference),
            &o,
            ctx,
            phys_min_radius_m,
            calc,
        );
        if rep.ok && best.is_none() {
            best = Some(k);
        }
        if !rep.ok {
            let t: Scalar = find_highest_land(&rep.issues);
            if number(0).lt(&t) {
                gap = Some(
                    match gap {
                        None => t,
                        Some(o) => o.max(&t),
                    },
                );
            }
        }
    }
    match best {
        Some(b) => {
            assert(st.names@[b as int]@ == view[b as int].0);
            let o: SmoothOptions = make_stage_options(st.names[b], opts);
            let verify: VerifyReport = verify_path(
                &st.paths[b],
                Some(&reference),
                &o,
                ctx,
                phys_min_radius_m,
                calc,
            );
            proof {
                law_chosen_stage_passes(*calc, *ctx, *opts, view, phys_min_radius_m, 0);
            }
            SmoothResult {
                path: copy_of(&st.paths[b]),
                applied: list_applied(&st, b, Ghost(view)),
                warning: None,
                verify,
                terrain_gap_m: gap,
            }
        },
        None => {
            let verify: VerifyReport = verify_path(
                input,
                None,
                opts,
                ctx,
                phys_min_radius_m,
                calc,
            );
            SmoothResult {
                path: copy_of(input),
                applied: Vec::new(),
                warning: Some(
                    "smoothing_failed: no smoothed stage passed full verification".to_owned(),
                ),
                verify,
                terrain_gap_m: gap,
            }
        },
    }
}

/// The delivered stage passes verification, and no later one does; a stage is
/// delivered wherever one passes.
pub proof fn law_chosen_stage_passes<
    C: Fn(Calc) -> Scalar,
    T: Fn((Scalar, Scalar)) -> Sample,
    N: Fn((Scalar, Scalar)) -> bool,
>(
    calc: C,
    ctx: VerifyContext<T, N>,
    opts: SmoothOptions,
    st: Seq<Staged>,
    phys_min_radius_m: Option<Scalar>,
    k: int,
)
    requires
        0 <= k <= st.len(),
    ensures
        ({
            let chosen = chosen_stage(calc, ctx, opts, st, phys_min_radius_m, k);
            let first = if chosen is Some {
                chosen->0 + 1
            } else {
                k
            };
            &&& chosen is Some ==> {
                &&& k <= chosen->0 < st.len()
                &&& stage_passes(calc, ctx, opts, st, phys_min_radius_m, chosen->0)
            }
            &&& forall|i: int|
                first <= i < st.len() ==> !(#[trigger] stage_passes(
                    calc,
                    ctx,
                    opts,
                    st,
                    phys_min_radius_m,
                    i,
                ))
        }),
    decreases st.len() - k,
{
    if k < st.len() {
        law_chosen_stage_passes(calc, ctx, opts, st, phys_min_radius_m, k + 1);
    }
}

} // verus!
