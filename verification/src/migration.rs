//! Migration of configurations from version to version.
//!
//! A configuration carries its version.  Only migrations to later versions run,
//! in the order of their versions, and the first that fails ends the run.

use vstd::prelude::*;
use crate::error::headed;
use crate::number::Number;
use crate::order::{
    arranged, indices, order_by, order_by_sorts, permutation_is_onto, permutes, sorted_positions,
};
use crate::outside::{instant_now, micros_since};
use crate::text::{decimal, decimal_text};
use crate::value::{field, member, set_then_get, with_member, Document, Json};

verus! {

// ---------------------------------------------------------------------------
// Versions
// ---------------------------------------------------------------------------

/// The version of a configuration: that of its member `prism_version`, or 0.
pub open spec fn version_of(config: Json) -> u32 {
    match field(config, "prism_version"@) {
        Some(Json::Num(n)) => match n.unsigned_spec() {
            Some(v) => if v <= u32::MAX {
                v as u32
            } else {
                u32::MAX
            },
            None => 0,
        },
        _ => 0,
    }
}

/// An object with its version set.
pub open spec fn with_version(config: Json, version: u32) -> Json {
    match config {
        Json::Obj(o) => Json::Obj(
            with_member(o, "prism_version"@, Json::Num(Number::Int(version as i64))),
        ),
        _ => config,
    }
}

/// The version of a configuration.
pub fn get_current_version(config: &Document) -> (r: u32)
    ensures
        r == version_of(config@),
{
    let version: u64 = match config.get("prism_version") {
        Some(v) => match v.as_u64() {
            Some(n) => n,
            None => 0,
        },
        None => 0,
    };
    if version <= u32::MAX as u64 {
        version as u32
    } else {
        u32::MAX
    }
}

/// The message for a configuration that cannot carry a version.
pub open spec fn no_version_text(version: u32) -> Seq<char> {
    "set_version: config 不是 JSON Object，无法设置 prism_version="@ + decimal(version as nat)
}

/// Sets the version of a configuration, if it is an object.
pub fn set_version(config: &mut Document, version: u32) -> (r: Result<(), String>)
    ensures
        final(config)@ == with_version(old(config)@, version),
        match r {
            Ok(_) => old(config)@ is Obj,
            Err(m) => !(old(config)@ is Obj) && m@ == no_version_text(version),
        },
{
    match config.as_object_mut() {
        Some(obj) => {
            obj.insert(
                "prism_version".to_owned(),
                Document::Number(Number::Int(version as i64)),
            );
            Ok(())
        },
        None => Err(
            headed(
                "set_version: config 不是 JSON Object，无法设置 prism_version=",
                decimal_text(version as u64).as_str(),
            ),
        ),
    }
}

// ---------------------------------------------------------------------------
// Migrations
// ---------------------------------------------------------------------------

/// What a migration made of a configuration: whether it changed it, or why it
/// failed.
pub open spec fn outcome_view(r: Result<bool, String>) -> Result<bool, Seq<char>> {
    match r {
        Ok(b) => Ok(b),
        Err(m) => Err(m@),
    }
}

/// A migration to a version.
///
/// What a migration does is up to it.  The three relations say what it may do;
/// one that says nothing of itself may do anything.
pub trait Migration: Send + Sync {
    /// Whether the migration may give itself that name.
    open spec fn may_name(&self, name: Seq<char>) -> bool {
        true
    }

    /// Whether the migration may lead to that version.
    open spec fn may_target(&self, version: u32) -> bool {
        true
    }

    /// Whether the migration may turn `before` into `after` with that outcome.
    open spec fn may_apply(
        &self,
        before: Json,
        after: Json,
        outcome: Result<bool, Seq<char>>,
    ) -> bool {
        true
    }

    /// The name of the migration.
    fn name(&self) -> (r: &'static str)
        ensures
            self.may_name(r@),
    ;

    /// The version to which the migration leads.
    fn target_version(&self) -> (r: u32)
        ensures
            self.may_target(r),
    ;

    /// Runs the migration, and says whether it changed the configuration.
    ///
    /// A configuration that already is as the migration would make it is left as
    /// it is.
    fn apply(&self, config: &mut Document) -> (r: Result<bool, String>)
        ensures
            self.may_apply(old(config)@, final(config)@, outcome_view(r)),
    ;
}

/// What came of a migration.
#[derive(Debug, Clone)]
pub struct MigrationReport {
    /// The name of the migration.
    pub name: &'static str,
    /// Whether it changed the configuration.
    pub migrated: bool,
    /// How long it took, in microseconds.
    pub duration_us: u64,
    /// What came of it, in words.
    pub message: String,
}

/// The model of [`MigrationReport`], which leaves the time aside.
#[verifier::ext_equal]
pub ghost struct ReportView {
    pub name: Seq<char>,
    pub migrated: bool,
    pub message: Seq<char>,
}

impl MigrationReport {
    pub open spec fn view(&self) -> ReportView {
        ReportView { name: self.name@, migrated: self.migrated, message: self.message@ }
    }
}

/// The models of reports.
pub open spec fn report_views(v: Seq<MigrationReport>) -> Seq<ReportView> {
    Seq::new(v.len(), |i: int| v[i]@)
}

/// The report on a migration.
pub open spec fn report_on(name: Seq<char>, version: u32, outcome: Result<bool, Seq<char>>) -> ReportView {
    match outcome {
        Ok(true) => ReportView {
            name,
            migrated: true,
            message: "已迁移至版本 "@ + decimal(version as nat),
        },
        Ok(false) => ReportView { name, migrated: false, message: "配置已处于目标状态，跳过"@ },
        Err(m) => ReportView { name, migrated: false, message: "迁移失败（已回滚）: "@ + m },
    }
}

/// The report on a migration that took `duration_us` microseconds.
pub fn report_of(
    name: &'static str,
    version: u32,
    outcome: &Result<bool, String>,
    duration_us: u64,
) -> (r: MigrationReport)
    ensures
        r@ == report_on(name@, version, outcome_view(*outcome)),
        r.duration_us == duration_us,
{
    match outcome {
        Ok(migrated) => MigrationReport {
            name,
            migrated: *migrated,
            duration_us,
            message: if *migrated {
                headed("已迁移至版本 ", decimal_text(version as u64).as_str())
            } else {
                "配置已处于目标状态，跳过".to_owned()
            },
        },
        Err(m) => MigrationReport {
            name,
            migrated: false,
            duration_us,
            message: headed("迁移失败（已回滚）: ", m.as_str()),
        },
    }
}

// ---------------------------------------------------------------------------
// The order of migrations
// ---------------------------------------------------------------------------

/// The positions among the first `n` versions of those after `current`.
pub open spec fn later(versions: Seq<u32>, current: u32, n: int) -> Seq<int>
    decreases n,
{
    if n <= 0 {
        Seq::empty()
    } else if versions[n - 1] > current {
        later(versions, current, n - 1).push(n - 1)
    } else {
        later(versions, current, n - 1)
    }
}

/// The versions at some positions.
pub open spec fn versions_at(versions: Seq<u32>, places: Seq<int>) -> Seq<int> {
    Seq::new(places.len(), |i: int| versions[places[i]] as int)
}

/// The positions of the versions after `current`, in ascending order of the
/// versions; of equal versions the first comes first.
pub open spec fn pending(versions: Seq<u32>, current: u32) -> Seq<int> {
    let places = later(versions, current, versions.len() as int);
    arranged(places, order_by(versions_at(versions, places)))
}

proof fn later_bounds(versions: Seq<u32>, current: u32, n: int)
    requires
        0 <= n <= versions.len(),
    ensures
        forall|i: int|
            0 <= i < later(versions, current, n).len() ==> 0 <= (#[trigger] later(
                versions,
                current,
                n,
            )[i]) < n && versions[later(versions, current, n)[i]] > current,
        forall|j: int|
            0 <= j < n && (#[trigger] versions[j]) > current ==> later(
                versions,
                current,
                n,
            ).contains(j),
    decreases n,
{
    if n > 0 {
        let before = later(versions, current, n - 1);
        later_bounds(versions, current, n - 1);
        if versions[n - 1] > current {
            assert forall|j: int| 0 <= j < n && (#[trigger] versions[j]) > current implies later(
                versions,
                current,
                n,
            ).contains(j) by {
                if j == n - 1 {
                    assert(before.push(n - 1)[before.len() as int] == j);
                } else {
                    let i = choose|i: int| 0 <= i < before.len() && before[i] == j;
                    assert(before.push(n - 1)[i] == j);
                }
            }
        }
    }
}

/// The positions of the versions after `current`, in ascending order of the
/// versions.
pub fn pending_order(versions: &Vec<u32>, current: u32) -> (r: Vec<usize>)
    ensures
        indices(r@) == pending(versions@, current),
{
    let ghost v = versions@;
    let mut places: Vec<usize> = Vec::new();
    let mut keys: Vec<usize> = Vec::new();
    let mut i: usize = 0;
    assert(indices(places@) =~= Seq::empty());
    while i < versions.len()
        invariant
            i <= versions@.len(),
            v == versions@,
            indices(places@) == later(v, current, i as int),
            keys@.len() == places@.len(),
            forall|j: int| 0 <= j < keys@.len() ==> #[trigger] keys@[j] == v[places@[j] as int],
            forall|j: int| 0 <= j < places@.len() ==> #[trigger] places@[j] < v.len(),
        decreases versions@.len() - i,
    {
        if versions[i] > current {
            let ghost before = indices(places@);
            places.push(i);
            keys.push(versions[i] as usize);
            assert(indices(places@) =~= before.push(i as int));
        }
        i = i + 1;
    }
    let ghost p = indices(places@);
    assert(indices(keys@) =~= versions_at(v, p));
    let turn = sorted_positions(&keys);
    let ghost q = indices(turn@);
    let mut out: Vec<usize> = Vec::new();
    let mut k: usize = 0;
    while k < turn.len()
        invariant
            k <= turn@.len(),
            q == indices(turn@),
            permutes(q, places@.len() as int),
            p == indices(places@),
            out@.len() == k,
            forall|j: int| 0 <= j < k ==> #[trigger] out@[j] == p[q[j]],
        decreases turn@.len() - k,
    {
        assert(q[k as int] == turn@[k as int]);
        out.push(places[turn[k]]);
        k = k + 1;
    }
    assert(indices(out@) =~= pending(v, current));
    out
}

// ---------------------------------------------------------------------------
// Running migrations
// ---------------------------------------------------------------------------

/// Whether migrations may lead to these versions.
pub open spec fn may_lead_to(migrations: Seq<Box<dyn Migration>>, versions: Seq<u32>) -> bool {
    &&& versions.len() == migrations.len()
    &&& forall|i: int|
        0 <= i < migrations.len() ==> migrations[i].may_target(#[trigger] versions[i])
}

/// Whether a migration may lead from one configuration to the next.  One that
/// fails leaves the configuration as it was.
pub open spec fn may_step(
    migrations: Seq<Box<dyn Migration>>,
    at: int,
    before: Json,
    after: Json,
    outcome: Result<bool, Seq<char>>,
) -> bool {
    match outcome {
        Ok(b) => migrations[at].may_apply(before, after, outcome),
        Err(e) => after == before && exists|partial: Json|
            #[trigger] migrations[at].may_apply(before, partial, outcome),
    }
}

/// Whether running migrations at some places may pass through configurations
/// with some outcomes: each starts where the one before it ended, and only the
/// last can have failed.
pub open spec fn may_pass(
    migrations: Seq<Box<dyn Migration>>,
    places: Seq<int>,
    configs: Seq<Json>,
    outcomes: Seq<Result<bool, Seq<char>>>,
) -> bool {
    &&& outcomes.len() <= places.len()
    &&& configs.len() == outcomes.len() + 1
    &&& forall|i: int|
        0 <= i < outcomes.len() ==> may_step(
            migrations,
            places[i],
            configs[i],
            configs[i + 1],
            #[trigger] outcomes[i],
        )
    &&& forall|i: int| 0 <= i < outcomes.len() - 1 ==> (#[trigger] outcomes[i]) is Ok
}

/// Whether a run is over: everything was run, or the last migration failed.
pub open spec fn is_over(places: Seq<int>, outcomes: Seq<Result<bool, Seq<char>>>) -> bool {
    outcomes.len() == places.len() || (outcomes.len() > 0 && outcomes.last() is Err)
}

/// The version that the first `n` migrations lead to.
pub open spec fn reached(
    versions: Seq<u32>,
    places: Seq<int>,
    outcomes: Seq<Result<bool, Seq<char>>>,
    current: u32,
    n: int,
) -> u32
    decreases n,
{
    if n <= 0 {
        current
    } else {
        let before = reached(versions, places, outcomes, current, n - 1);
        if outcomes[n - 1] is Ok && versions[places[n - 1]] > before {
            versions[places[n - 1]]
        } else {
            before
        }
    }
}

/// The configuration after a run.
pub open spec fn concluded(config: Json, current: u32, latest: u32) -> Json {
    if latest > current {
        with_version(config, latest)
    } else {
        config
    }
}

/// The reports on a run of migrations with these names.
pub open spec fn reports_on(
    names: Seq<Seq<char>>,
    versions: Seq<u32>,
    places: Seq<int>,
    outcomes: Seq<Result<bool, Seq<char>>>,
) -> Seq<ReportView> {
    Seq::new(
        outcomes.len(),
        |i: int| report_on(names[i], versions[places[i]], outcomes[i]),
    )
}

/// Whether the migrations that were run may have these names.
pub open spec fn may_be_named(
    migrations: Seq<Box<dyn Migration>>,
    places: Seq<int>,
    names: Seq<Seq<char>>,
) -> bool {
    &&& names.len() <= places.len()
    &&& forall|i: int|
        0 <= i < names.len() ==> migrations[places[i]].may_name(#[trigger] names[i])
}

/// What a run of migrations did: the configurations through which it passed, and
/// the names and the outcomes of the migrations.
#[verifier::ext_equal]
pub ghost struct Run {
    pub configs: Seq<Json>,
    pub names: Seq<Seq<char>>,
    pub outcomes: Seq<Result<bool, Seq<char>>>,
}

/// Whether migrations that lead to `versions` may run like that on a
/// configuration, and end in a configuration with these reports.
pub open spec fn runs_through(
    migrations: Seq<Box<dyn Migration>>,
    versions: Seq<u32>,
    config: Json,
    run: Run,
    end: Json,
    reports: Seq<ReportView>,
) -> bool {
    let current = version_of(config);
    let places = pending(versions, current);
    let n = run.outcomes.len() as int;
    &&& may_lead_to(migrations, versions)
    &&& may_pass(migrations, places, run.configs, run.outcomes)
    &&& is_over(places, run.outcomes)
    &&& run.names.len() == n
    &&& may_be_named(migrations, places, run.names)
    &&& run.configs[0] == config
    &&& end == concluded(
        run.configs.last(),
        current,
        reached(versions, places, run.outcomes, current, n),
    )
    &&& reports == reports_on(run.names, versions, places, run.outcomes)
}

/// Whether a run of migrations on a configuration may end in a configuration
/// with these reports.
pub open spec fn may_run(
    migrations: Seq<Box<dyn Migration>>,
    config: Json,
    end: Json,
    reports: Seq<ReportView>,
) -> bool {
    exists|versions: Seq<u32>, run: Run|
        runs_through(migrations, versions, config, run, end, reports)
}

fn read_targets(migrations: &[Box<dyn Migration>]) -> (r: Vec<u32>)
    ensures
        may_lead_to(migrations@, r@),
{
    let mut out: Vec<u32> = Vec::new();
    let n: usize = migrations.len();
    let mut i: usize = 0;
    while i < n
        invariant
            i <= n,
            n == migrations@.len(),
            out@.len() == i,
            forall|j: int| 0 <= j < i ==> migrations@[j].may_target(#[trigger] out@[j]),
        decreases n - i,
    {
        out.push(migrations[i].target_version());
        i = i + 1;
    }
    out
}

proof fn pending_bounds(versions: Seq<u32>, current: u32)
    ensures
        forall|i: int|
            0 <= i < pending(versions, current).len() ==> 0 <= (#[trigger] pending(
                versions,
                current,
            )[i]) < versions.len() && versions[pending(versions, current)[i]] > current,
{
    let places = later(versions, current, versions.len() as int);
    let keys = versions_at(versions, places);
    later_bounds(versions, current, versions.len() as int);
    order_by_sorts(keys);
    let p = pending(versions, current);
    assert forall|i: int| 0 <= i < p.len() implies 0 <= (#[trigger] p[i]) < versions.len()
        && versions[p[i]] > current by {
        assert(p[i] == places[order_by(keys)[i]]);
    }
}

/// Runs the migrations to later versions, in ascending order of the versions,
/// and sets the version that was reached.
///
/// A migration that fails is undone, and ends the run.
pub fn run_migrations(config: &mut Document, migrations: &[Box<dyn Migration>]) -> (r: Vec<
    MigrationReport,
>)
    ensures
        may_run(migrations@, old(config)@, final(config)@, report_views(r@)),
{
    let ghost start = config@;
    let ghost all = migrations@;
    let versions = read_targets(migrations);
    let ghost v = versions@;
    let current: u32 = get_current_version(config);
    let order = pending_order(&versions, current);
    let ghost places = indices(order@);
    proof {
        pending_bounds(v, current);
    }
    let mut reports: Vec<MigrationReport> = Vec::new();
    let mut latest: u32 = current;
    let ghost mut configs: Seq<Json> = seq![start];
    let ghost mut names: Seq<Seq<char>> = Seq::empty();
    let ghost mut outcomes: Seq<Result<bool, Seq<char>>> = Seq::empty();
    let mut failed: bool = false;
    let mut k: usize = 0;
    assert(report_views(reports@) =~= reports_on(names, v, places, outcomes));
    while k < order.len() && !failed
        invariant
            k <= order@.len(),
            all == migrations@,
            may_lead_to(all, v),
            v == versions@,
            places == indices(order@),
            places == pending(v, current),
            forall|i: int| 0 <= i < places.len() ==> 0 <= #[trigger] places[i] < all.len(),
            may_pass(all, places, configs, outcomes),
            may_be_named(all, places, names),
            names.len() == k,
            outcomes.len() == k,
            failed == (outcomes.len() > 0 && outcomes.last() is Err),
            configs[0] == start,
            configs.last() == config@,
            latest == reached(v, places, outcomes, current, k as int),
            report_views(reports@) == reports_on(names, v, places, outcomes),
        decreases order@.len() - k,
    {
        assert(places[k as int] == order@[k as int]);
        let place: usize = order[k];
        let migration = &migrations[place];
        let started = instant_now();
        let backup = config.clone();
        let ghost before = config@;
        let result = migration.apply(config);
        let ghost partial = config@;
        let ghost outcome = outcome_view(result);
        let micros: u64 = micros_since(&started);
        let target: u32 = versions[place];
        let name = migration.name();
        let ghost told = report_views(reports@);
        reports.push(report_of(name, target, &result, micros));
        match &result {
            Ok(_) => {
                if target > latest {
                    latest = target;
                }
            },
            Err(_) => {
                *config = backup;
                failed = true;
            },
        }
        proof {
            let old_configs = configs;
            let old_outcomes = outcomes;
            let old_names = names;
            outcomes = old_outcomes.push(outcome);
            configs = old_configs.push(config@);
            names = old_names.push(name@);
            assert(all[place as int].may_apply(before, partial, outcome));
            assert(may_step(all, places[k as int], before, config@, outcome));
            let latest_report = report_on(name@, v[place as int], outcome);
            assert(reports@.last()@ == latest_report);
            assert(report_views(reports@) =~= told.push(latest_report));
            assert(reports_on(names, v, places, outcomes) =~= reports_on(
                old_names,
                v,
                places,
                old_outcomes,
            ).push(latest_report));
            assert forall|i: int| 0 <= i < outcomes.len() implies may_step(
                all,
                places[i],
                configs[i],
                configs[i + 1],
                #[trigger] outcomes[i],
            ) by {
                if i < k {
                    assert(outcomes[i] == old_outcomes[i]);
                    assert(configs[i] == old_configs[i] && configs[i + 1] == old_configs[i + 1]);
                } else {
                    assert(configs[k as int] == before);
                }
            }
            assert forall|i: int| 0 <= i < names.len() implies all[places[i]].may_name(
                #[trigger] names[i],
            ) by {
                if i < k {
                    assert(names[i] == old_names[i]);
                }
            }
            reached_ignores_later(v, places, old_outcomes, outcomes, current, k as int);
        }
        k = k + 1;
    }
    let ghost last = config@;
    if latest > current {
        let _ = set_version(config, latest);
    }
    proof {
        assert(config@ == concluded(last, current, latest));
        let run = Run { configs, names, outcomes };
        assert(runs_through(all, v, start, run, config@, report_views(reports@)));
    }
    reports
}

proof fn reached_ignores_later(
    versions: Seq<u32>,
    places: Seq<int>,
    a: Seq<Result<bool, Seq<char>>>,
    b: Seq<Result<bool, Seq<char>>>,
    current: u32,
    n: int,
)
    requires
        n <= a.len() && n <= b.len(),
        forall|i: int| 0 <= i < n ==> #[trigger] a[i] == b[i],
    ensures
        reached(versions, places, a, current, n) == reached(versions, places, b, current, n),
    decreases n,
{
    if n > 0 {
        reached_ignores_later(versions, places, a, b, current, n - 1);
    }
}

// ---------------------------------------------------------------------------
// Laws
// ---------------------------------------------------------------------------

/// A version that is set is the version that is read, where there is an object
/// to carry it.
pub proof fn set_version_is_read(config: Json, version: u32)
    ensures
        config is Obj ==> version_of(with_version(config, version)) == version,
        !(config is Obj) ==> with_version(config, version) == config,
{
    if let Json::Obj(o) = config {
        let n = Json::Num(Number::Int(version as i64));
        set_then_get(o, "prism_version"@, n, "prism_version"@);
    }
}

/// Only migrations to later versions run, and in ascending order of the
/// versions.
pub proof fn pending_ascends(versions: Seq<u32>, current: u32, i: int, j: int)
    requires
        0 <= i < j < pending(versions, current).len(),
    ensures
        current < versions[pending(versions, current)[i]],
        versions[pending(versions, current)[i]] <= versions[pending(versions, current)[j]],
{
    let places = later(versions, current, versions.len() as int);
    let keys = versions_at(versions, places);
    pending_bounds(versions, current);
    order_by_sorts(keys);
    let p = pending(versions, current);
    let q = order_by(keys);
    assert(p[i] == places[q[i]] && p[j] == places[q[j]]);
    assert(keys[q[i]] <= keys[q[j]]);
}

/// Every migration to a later version is pending.
pub proof fn later_versions_are_pending(versions: Seq<u32>, current: u32, i: int)
    requires
        0 <= i < versions.len(),
        versions[i] > current,
    ensures
        pending(versions, current).contains(i),
{
    let n = versions.len() as int;
    let places = later(versions, current, n);
    let keys = versions_at(versions, places);
    later_bounds(versions, current, n);
    order_by_sorts(keys);
    let q = order_by(keys);
    let at = choose|x: int| 0 <= x < places.len() && places[x] == i;
    permutation_is_onto(q, keys.len() as int, at);
    let y = choose|y: int| 0 <= y < q.len() && q[y] == at;
    assert(pending(versions, current)[y] == i);
}

/// A configuration whose version no migration exceeds is left as it is, and
/// nothing is reported.
pub proof fn up_to_date_is_left_alone(
    migrations: Seq<Box<dyn Migration>>,
    versions: Seq<u32>,
    config: Json,
    run: Run,
    end: Json,
    reports: Seq<ReportView>,
)
    requires
        runs_through(migrations, versions, config, run, end, reports),
        forall|i: int| 0 <= i < versions.len() ==> #[trigger] versions[i] <= version_of(config),
    ensures
        end == config,
        reports.len() == 0,
{
    let current = version_of(config);
    let p = pending(versions, current);
    pending_bounds(versions, current);
    if p.len() > 0 {
        assert(versions[p[0]] > current);
    }
    assert(reached(versions, p, run.outcomes, current, 0) == current);
}

/// The first migration that fails is the last that is reported, and leaves the
/// configuration as the migrations before it made it.
pub proof fn failure_ends_the_run(
    migrations: Seq<Box<dyn Migration>>,
    versions: Seq<u32>,
    config: Json,
    run: Run,
    end: Json,
    reports: Seq<ReportView>,
    i: int,
)
    requires
        runs_through(migrations, versions, config, run, end, reports),
        0 <= i < run.outcomes.len(),
        run.outcomes[i] is Err,
    ensures
        reports.len() == i + 1,
        run.configs[i + 1] == run.configs[i],
        ({
            let current = version_of(config);
            let places = pending(versions, current);
            end == concluded(
                run.configs[i],
                current,
                reached(versions, places, run.outcomes, current, i),
            )
        }),
{
    let places = pending(versions, version_of(config));
    assert(may_step(
        migrations,
        places[i],
        run.configs[i],
        run.configs[i + 1],
        run.outcomes[i],
    ));
}

proof fn reached_bounds(
    versions: Seq<u32>,
    places: Seq<int>,
    outcomes: Seq<Result<bool, Seq<char>>>,
    current: u32,
    n: int,
)
    requires
        0 <= n <= outcomes.len(),
        forall|i: int| 0 <= i < n ==> (#[trigger] outcomes[i]) is Ok,
    ensures
        reached(versions, places, outcomes, current, n) >= current,
        forall|i: int|
            0 <= i < n ==> versions[#[trigger] places[i]] <= reached(
                versions,
                places,
                outcomes,
                current,
                n,
            ),
    decreases n,
{
    if n > 0 {
        reached_bounds(versions, places, outcomes, current, n - 1);
    }
}

/// After a run without failure that ends in an object, no migration is pending:
/// running the migrations again, to the same versions, changes nothing.
pub proof fn running_again_changes_nothing(
    migrations: Seq<Box<dyn Migration>>,
    versions: Seq<u32>,
    config: Json,
    run: Run,
    end: Json,
    reports: Seq<ReportView>,
    second: Run,
    again: Json,
    more: Seq<ReportView>,
)
    requires
        runs_through(migrations, versions, config, run, end, reports),
        forall|i: int| 0 <= i < run.outcomes.len() ==> (#[trigger] run.outcomes[i]) is Ok,
        end is Obj,
        runs_through(migrations, versions, end, second, again, more),
    ensures
        again == end,
        more.len() == 0,
{
    let current = version_of(config);
    let places = pending(versions, current);
    let n = run.outcomes.len() as int;
    let latest = reached(versions, places, run.outcomes, current, n);
    reached_bounds(versions, places, run.outcomes, current, n);
    set_version_is_read(run.configs.last(), latest);
    if latest == current {
        pending_bounds(versions, current);
        if places.len() > 0 {
            assert(versions[places[0]] > current);
        }
    }
    assert(version_of(end) == latest);
    assert forall|i: int| 0 <= i < versions.len() implies #[trigger] versions[i] <= version_of(
        end,
    ) by {
        if versions[i] > current {
            later_versions_are_pending(versions, current, i);
            let at = choose|x: int| 0 <= x < places.len() && places[x] == i;
            assert(versions[places[at]] <= latest);
        }
    }
    up_to_date_is_left_alone(migrations, versions, end, second, again, more);
}

/// The version is the number that the configuration states, at most the greatest
/// one; without such a number it is zero.
pub proof fn which_version_is_stated(o: Seq<(Seq<char>, Json)>, n: u64, i: i64, v: Json)
    ensures
        member(o, "prism_version"@) == Some(Json::Num(Number::UInt(n))) && n <= u32::MAX
            ==> version_of(Json::Obj(o)) == n,
        member(o, "prism_version"@) == Some(Json::Num(Number::Int(i))) && 0 <= i <= u32::MAX
            ==> version_of(Json::Obj(o)) == i,
        member(o, "prism_version"@) == Some(Json::Num(Number::Int(i))) && i < 0 ==> version_of(
            Json::Obj(o),
        ) == 0,
        member(o, "prism_version"@) == Some(Json::Num(Number::Int(i))) && i > u32::MAX
            ==> version_of(Json::Obj(o)) == u32::MAX,
        member(o, "prism_version"@) is None ==> version_of(Json::Obj(o)) == 0,
        !(v is Obj) ==> version_of(v) == 0,
{
}

} // verus!
