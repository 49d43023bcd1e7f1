//! Switching away from nodes that keep failing.

use vstd::prelude::*;
use crate::assoc::{
    lookup, named, names_distinct, names_left, put, put_then_lookup, put_value, remaining,
    remaining_names, take_out, value_of, without, without_then_lookup,
};
use crate::duration::NANOS;
use crate::order::texts;
use crate::outside::{instant_now, nanos_since};

verus! {

// ---------------------------------------------------------------------------
// The policy
// ---------------------------------------------------------------------------

/// When to switch away from a node, and where to.
#[derive(Debug, Clone)]
pub struct NodeFailPolicy {
    /// How many failures in a row lead to a switch.
    pub threshold: u32,
    /// Where to switch: `next` for the next node of the group, or a group.
    pub fallback_group: String,
    /// How long no other switch follows a switch, in nanoseconds.
    pub cooldown: u128,
    /// Whether there are switches at all.
    pub enabled: bool,
}

/// The model of [`NodeFailPolicy`].
#[verifier::ext_equal]
pub ghost struct PolicyView {
    pub threshold: int,
    pub fallback_group: Seq<char>,
    pub cooldown: int,
    pub enabled: bool,
}

impl NodeFailPolicy {
    pub open spec fn view(&self) -> PolicyView {
        PolicyView {
            threshold: self.threshold as int,
            fallback_group: self.fallback_group@,
            cooldown: self.cooldown as int,
            enabled: self.enabled,
        }
    }

    /// A switch to the next node after three failures, and none for thirty
    /// seconds after that.
    pub fn new() -> (r: NodeFailPolicy)
        ensures
            r@ == default_policy(),
    {
        NodeFailPolicy {
            threshold: 3,
            fallback_group: "next".to_owned(),
            cooldown: 30 * NANOS,
            enabled: true,
        }
    }

    /// Sets the number of failures that lead to a switch.
    pub fn with_threshold(self, threshold: u32) -> (r: NodeFailPolicy)
        ensures
            r@ == (PolicyView { threshold: threshold as int, ..self@ }),
    {
        let mut p = self;
        p.threshold = threshold;
        p
    }

    /// Sets the time without another switch, in seconds.
    pub fn with_cooldown(self, secs: u64) -> (r: NodeFailPolicy)
        ensures
            r@ == (PolicyView { cooldown: secs * NANOS, ..self@ }),
    {
        let mut p = self;
        p.cooldown = secs as u128 * NANOS;
        p
    }

    /// Sets where to switch.
    pub fn with_fallback(self, group: &str) -> (r: NodeFailPolicy)
        ensures
            r@ == (PolicyView { fallback_group: group@, ..self@ }),
    {
        let mut p = self;
        p.fallback_group = group.to_owned();
        p
    }
}

/// The policy where nothing else is said.
pub open spec fn default_policy() -> PolicyView {
    PolicyView {
        threshold: 3,
        fallback_group: "next"@,
        cooldown: 30 * NANOS,
        enabled: true,
    }
}

impl Default for NodeFailPolicy {
    fn default() -> (r: NodeFailPolicy)
        ensures
            r@ == default_policy(),
    {
        NodeFailPolicy::new()
    }
}

/// A switch away from a node.
#[derive(Debug, Clone)]
pub struct FailoverAction {
    /// The node that failed.
    pub failed_node: String,
    /// How often it failed in a row.
    pub failure_count: u32,
    /// Where to switch.
    pub target: String,
}

/// The model of [`FailoverAction`].
#[verifier::ext_equal]
pub ghost struct ActionView {
    pub failed_node: Seq<char>,
    pub failure_count: int,
    pub target: Seq<char>,
}

impl FailoverAction {
    pub open spec fn view(&self) -> ActionView {
        ActionView {
            failed_node: self.failed_node@,
            failure_count: self.failure_count as int,
            target: self.target@,
        }
    }
}

/// The model of a switch, if there is one.
pub open spec fn action_view(a: Option<FailoverAction>) -> Option<ActionView> {
    match a {
        Some(a) => Some(a@),
        None => None,
    }
}

// ---------------------------------------------------------------------------
// What is known of the nodes
// ---------------------------------------------------------------------------

/// The number of nodes beyond which some are forgotten.
pub const MANY_NODES: usize = 100_000;

/// What a tracker knows: the failures of each node, the time of its last
/// switch, the nodes from the one that was not heard of for the longest time on,
/// and the time of the last switch of the group.
#[verifier::ext_equal]
pub ghost struct TrackerView {
    pub counts: Seq<(Seq<char>, u32)>,
    pub switches: Seq<(Seq<char>, u128)>,
    pub order: Seq<Seq<char>>,
    pub group_switch: Option<u128>,
}

/// What a tracker knows at first.
pub open spec fn nothing_known() -> TrackerView {
    TrackerView {
        counts: Seq::empty(),
        switches: Seq::empty(),
        order: Seq::empty(),
        group_switch: None,
    }
}

/// How often a node failed in a row.
pub open spec fn failures(t: TrackerView, node: Seq<char>) -> u32 {
    match lookup(t.counts, node) {
        Some(n) => n,
        None => 0,
    }
}

/// Whether no node is listed twice, and every node in the order has a count.
pub open spec fn consistent(t: TrackerView) -> bool {
    &&& names_distinct(t.counts)
    &&& names_distinct(t.switches)
    &&& t.order.no_duplicates()
    &&& forall|n: Seq<char>| #[trigger] t.order.contains(n) ==> lookup(t.counts, n) is Some
}

/// Whether no node switched later than the group did.
pub open spec fn in_time(t: TrackerView) -> bool {
    forall|n: Seq<char>|
        (#[trigger] lookup(t.switches, n)) matches Some(x) ==> t.group_switch matches Some(g) && x
            <= g
}

/// Whether the time of a report cannot lie before the last switch of the group
/// when another switch follows: there is a cooldown, or the clock went on.
pub open spec fn time_goes_on(policy: PolicyView, t: TrackerView, now: u128) -> bool {
    policy.cooldown > 0 || (t.group_switch matches Some(g) ==> g <= now)
}

/// The first `most` nodes without failures.
pub open spec fn recovered(counts: Seq<(Seq<char>, u32)>, most: int) -> Seq<Seq<char>>
    decreases counts.len(),
{
    if counts.len() == 0 || most <= 0 {
        Seq::empty()
    } else if counts[0].1 == 0 {
        seq![counts[0].0] + recovered(counts.drop_first(), most - 1)
    } else {
        recovered(counts.drop_first(), most)
    }
}

/// The nodes to forget: a tenth of all, of those without failures, or if there
/// are none, of those not heard of for the longest time.
pub open spec fn to_forget(t: TrackerView) -> Seq<Seq<char>> {
    let most = t.counts.len() / 10;
    let idle = recovered(t.counts, most as int);
    if idle.len() > 0 {
        idle
    } else if most <= t.order.len() {
        t.order.take(most as int)
    } else {
        t.order
    }
}

/// What is left when nodes are forgotten.
pub open spec fn forgotten(t: TrackerView, gone: Seq<Seq<char>>) -> TrackerView {
    TrackerView {
        counts: without(t.counts, gone),
        switches: without(t.switches, gone),
        order: remaining(t.order, gone),
        group_switch: t.group_switch,
    }
}

/// Whether less than the cooldown has passed since a switch.
pub open spec fn cooling(policy: PolicyView, since: Option<u128>, now: u128) -> bool {
    match since {
        Some(t) => (if now > t {
            now - t
        } else {
            0
        }) < policy.cooldown,
        None => false,
    }
}

/// What is known once a node succeeded.
pub open spec fn after_success(t: TrackerView, node: Seq<char>) -> TrackerView {
    TrackerView {
        counts: put(t.counts, node, 0u32),
        order: remaining(t.order, seq![node]).push(node),
        ..t
    }
}

/// What is known once there is room for a node that failed.
pub open spec fn made_room(t: TrackerView, node: Seq<char>) -> TrackerView {
    let noted = TrackerView {
        order: if lookup(t.counts, node) is None {
            t.order.push(node)
        } else {
            t.order
        },
        ..t
    };
    if t.counts.len() > MANY_NODES {
        forgotten(noted, to_forget(noted))
    } else {
        noted
    }
}

/// What is known once a node failed, and the switch that follows.
pub open spec fn after_failure(
    policy: PolicyView,
    t: TrackerView,
    node: Seq<char>,
    now: u128,
) -> (TrackerView, Option<ActionView>) {
    let room = made_room(t, node);
    let count = (failures(room, node) + 1) as u32;
    let counted = TrackerView { counts: put(room.counts, node, count), ..room };
    if count < policy.threshold || cooling(policy, room.group_switch, now) || cooling(
        policy,
        lookup(room.switches, node),
        now,
    ) {
        (counted, None)
    } else {
        (
            TrackerView {
                counts: put(counted.counts, node, 0u32),
                switches: put(room.switches, node, now),
                group_switch: Some(now),
                ..room
            },
            Some(
                ActionView {
                    failed_node: node,
                    failure_count: count as int,
                    target: policy.fallback_group,
                },
            ),
        )
    }
}

/// What is known once a node was heard of, and the switch that follows.
pub open spec fn heard(
    policy: PolicyView,
    t: TrackerView,
    node: Seq<char>,
    success: bool,
    now: u128,
) -> (TrackerView, Option<ActionView>) {
    if !policy.enabled {
        (t, None)
    } else if success {
        (after_success(t, node), None)
    } else {
        after_failure(policy, t, node, now)
    }
}

// ---------------------------------------------------------------------------
// The tracker
// ---------------------------------------------------------------------------

/// The failures of the nodes of a group.
#[derive(Debug)]
pub struct FailoverTracker {
    policy: NodeFailPolicy,
    failure_counts: Vec<(String, u32)>,
    last_switch: Vec<(String, u128)>,
    access_order: Vec<String>,
    group_last_switch: Option<u128>,
    origin: std::time::Instant,
}

fn list_recovered(counts: &Vec<(String, u32)>, most: usize) -> (r: Vec<String>)
    ensures
        texts(r@) == recovered(named(counts@), most as int),
{
    let ghost all = named(counts@);
    let n: usize = counts.len();
    let mut left: usize = most;
    let mut out: Vec<String> = Vec::new();
    let mut i: usize = 0;
    assert(all.skip(0) =~= all);
    assert(texts(out@) + recovered(all, most as int) =~= recovered(all, most as int));
    while i < n && left > 0
        invariant
            i <= n,
            n == counts@.len(),
            all == named(counts@),
            texts(out@) + recovered(all.skip(i as int), left as int) == recovered(
                all,
                most as int,
            ),
        decreases n - i,
    {
        let ghost rest = all.skip(i as int);
        let ghost before = texts(out@);
        assert(rest[0] == all[i as int]);
        assert(rest.drop_first() =~= all.skip(i + 1));
        if counts[i].1 == 0 {
            out.push(counts[i].0.clone());
            assert(texts(out@) =~= before.push(all[i as int].0));
            assert(texts(out@) + recovered(all.skip(i + 1), left - 1) =~= before + recovered(
                rest,
                left as int,
            ));
            left = left - 1;
        }
        i = i + 1;
    }
    proof {
        if i == n {
            assert(all.skip(n as int) =~= Seq::empty());
        }
        assert(texts(out@) =~= recovered(all, most as int));
    }
    out
}

fn first_names(names: &Vec<String>, most: usize) -> (r: Vec<String>)
    ensures
        texts(r@) == (if most <= names@.len() {
            texts(names@).take(most as int)
        } else {
            texts(names@)
        }),
{
    let n: usize = if most < names.len() {
        most
    } else {
        names.len()
    };
    let mut out: Vec<String> = Vec::new();
    let mut i: usize = 0;
    while i < n
        invariant
            i <= n <= names@.len(),
            out@.len() == i,
            forall|j: int| 0 <= j < i ==> (#[trigger] out@[j])@ == names@[j]@,
        decreases n - i,
    {
        out.push(names[i].clone());
        i = i + 1;
    }
    assert(texts(out@) =~= texts(names@).take(n as int));
    assert(texts(names@).take(names@.len() as int) =~= texts(names@));
    out
}

impl FailoverTracker {
    /// What the tracker knows.
    pub closed spec fn view(&self) -> TrackerView {
        TrackerView {
            counts: named(self.failure_counts@),
            switches: named(self.last_switch@),
            order: texts(self.access_order@),
            group_switch: self.group_last_switch,
        }
    }

    /// The policy of the tracker.
    pub closed spec fn rules(&self) -> PolicyView {
        self.policy@
    }

    /// A tracker that knows nothing yet.
    pub fn new(policy: NodeFailPolicy) -> (r: FailoverTracker)
        ensures
            r@ == nothing_known(),
            r.rules() == policy@,
            consistent(r@),
            in_time(r@),
    {
        let r = FailoverTracker {
            policy,
            failure_counts: Vec::new(),
            last_switch: Vec::new(),
            access_order: Vec::new(),
            group_last_switch: None,
            origin: instant_now(),
        };
        assert(r@ =~= nothing_known());
        r
    }

    /// Notes that a connection to a node succeeded or failed at a time in
    /// nanoseconds, and returns the switch that follows.
    pub fn report_at(&mut self, node_name: &str, success: bool, now: u128) -> (r: Option<
        FailoverAction,
    >)
        requires
            failures(old(self)@, node_name@) < u32::MAX,
        ensures
            (final(self)@, action_view(r)) == heard(
                old(self).rules(),
                old(self)@,
                node_name@,
                success,
                now,
            ),
            final(self).rules() == old(self).rules(),
            consistent(old(self)@) ==> consistent(final(self)@),
            in_time(old(self)@) && time_goes_on(old(self).rules(), old(self)@, now) ==> in_time(
                final(self)@,
            ),
    {
        proof {
            if in_time(self@) && time_goes_on(self.rules(), self@, now) {
                no_node_switches_later_than_the_group(
                    self.rules(),
                    self@,
                    node_name@,
                    success,
                    now,
                );
            }
        }
        if !self.policy.enabled {
            return None;
        }
        let ghost start = self@;
        let ghost node = node_name@;
        if success {
            put_value(&mut self.failure_counts, node_name, 0u32);
            let mut own: Vec<String> = Vec::new();
            own.push(node_name.to_owned());
            assert(texts(own@) =~= seq![node]);
            let mut order = names_left(&self.access_order, &own);
            let ghost rest = texts(order@);
            order.push(node_name.to_owned());
            assert(texts(order@) =~= rest.push(node));
            self.access_order = order;
            assert(self@ =~= after_success(start, node));
            proof {
                success_is_consistent(start, node);
            }
            return None;
        }
        let many: bool = self.failure_counts.len() > MANY_NODES;
        if value_of(&self.failure_counts, node_name).is_none() {
            self.access_order.push(node_name.to_owned());
            assert(texts(self.access_order@) =~= start.order.push(node));
        }
        let ghost noted = self@;
        if many {
            let most: usize = self.failure_counts.len() / 10;
            let mut gone = list_recovered(&self.failure_counts, most);
            if gone.len() == 0 {
                gone = first_names(&self.access_order, most);
            }
            assert(texts(gone@) == to_forget(noted));
            self.failure_counts = take_out(&self.failure_counts, &gone);
            self.last_switch = take_out(&self.last_switch, &gone);
            self.access_order = names_left(&self.access_order, &gone);
        }
        let ghost room = self@;
        assert(room == made_room(start, node));
        proof {
            room_is_consistent(start, node);
        }
        let before: u32 = match value_of(&self.failure_counts, node_name) {
            Some(n) => n,
            None => 0,
        };
        let count: u32 = before + 1;
        put_value(&mut self.failure_counts, node_name, count);
        let ghost counted = self@;
        proof {
            count_is_consistent(start, node, count);
        }
        if count < self.policy.threshold || self.is_cooling(self.group_last_switch, now)
            || self.is_cooling(value_of(&self.last_switch, node_name), now) {
            return None;
        }
        put_value(&mut self.last_switch, node_name, now);
        self.group_last_switch = Some(now);
        put_value(&mut self.failure_counts, node_name, 0u32);
        proof {
            put_then_lookup(room.switches, node, now, node);
            put_then_lookup(counted.counts, node, 0u32, node);
            assert forall|n: Seq<char>| #[trigger] counted.order.contains(n) && consistent(
                start,
            ) implies lookup(self@.counts, n) is Some by {
                put_then_lookup(counted.counts, node, 0u32, n);
            }
        }
        Some(
            FailoverAction {
                failed_node: node_name.to_owned(),
                failure_count: count,
                target: self.policy.fallback_group.clone(),
            },
        )
    }

    fn is_cooling(&self, since: Option<u128>, now: u128) -> (r: bool)
        ensures
            r == cooling(self.rules(), since, now),
    {
        match since {
            Some(t) => {
                let passed: u128 = if now > t {
                    now - t
                } else {
                    0
                };
                passed < self.policy.cooldown
            },
            None => false,
        }
    }

    /// Notes that a connection to a node succeeded or failed just now, and
    /// returns the switch that follows.
    pub fn report(&mut self, node_name: &str, success: bool) -> (r: Option<FailoverAction>)
        requires
            failures(old(self)@, node_name@) < u32::MAX,
        ensures
            exists|now: u128| #[trigger]
                heard(old(self).rules(), old(self)@, node_name@, success, now) == (
                    final(self)@,
                    action_view(r),
                ),
            final(self).rules() == old(self).rules(),
            consistent(old(self)@) ==> consistent(final(self)@),
            in_time(old(self)@) && old(self).rules().cooldown > 0 ==> in_time(final(self)@),
    {
        let now: u128 = nanos_since(&self.origin);
        self.report_at(node_name, success, now)
    }

    /// How often a node failed in a row.
    pub fn failure_count(&self, node_name: &str) -> (r: u32)
        ensures
            r == failures(self@, node_name@),
    {
        match value_of(&self.failure_counts, node_name) {
            Some(n) => n,
            None => 0,
        }
    }

    /// Forgets everything about all nodes.
    pub fn reset_all(&mut self)
        ensures
            final(self)@ == nothing_known(),
            final(self).rules() == old(self).rules(),
            consistent(final(self)@),
            in_time(final(self)@),
    {
        self.failure_counts = Vec::new();
        self.last_switch = Vec::new();
        self.access_order = Vec::new();
        self.group_last_switch = None;
        assert(self@ =~= nothing_known());
    }

    /// The policy.
    pub fn policy(&self) -> (r: &NodeFailPolicy)
        ensures
            r@ == self.rules(),
    {
        &self.policy
    }
}

impl Default for FailoverTracker {
    fn default() -> (r: FailoverTracker)
        ensures
            r@ == nothing_known(),
            r.rules() == default_policy(),
            consistent(r@),
            in_time(r@),
    {
        FailoverTracker::new(NodeFailPolicy::new())
    }
}

// ---------------------------------------------------------------------------
// Consistency
// ---------------------------------------------------------------------------

proof fn push_is_distinct(names: Seq<Seq<char>>, name: Seq<char>)
    requires
        names.no_duplicates(),
        !names.contains(name),
    ensures
        names.push(name).no_duplicates(),
        forall|n: Seq<char>| #[trigger]
            names.push(name).contains(n) <==> n == name || names.contains(n),
{
    let more = names.push(name);
    assert forall|a: int, b: int| 0 <= a < more.len() && 0 <= b < more.len() && a != b implies more[a]
        != more[b] by {
        if a < names.len() {
            assert(names.contains(names[a]));
        }
        if b < names.len() {
            assert(names.contains(names[b]));
        }
    }
    assert forall|n: Seq<char>| #[trigger] more.contains(n) <==> n == name || names.contains(n) by {
        if names.contains(n) {
            let i = choose|i: int| 0 <= i < names.len() && names[i] == n;
            assert(more[i] == n);
        }
        if more.contains(n) && n != name {
            let i = choose|i: int| 0 <= i < more.len() && more[i] == n;
            assert(names[i] == n);
        }
        assert(more[names.len() as int] == name);
    }
}

proof fn success_is_consistent(t: TrackerView, node: Seq<char>)
    ensures
        consistent(t) ==> consistent(after_success(t, node)),
{
    if consistent(t) {
        let own = seq![node];
        let rest = remaining(t.order, own);
        assert(own[0] == node);
        assert(own.contains(node));
        remaining_names(t.order, own);
        assert(!rest.contains(node));
        push_is_distinct(rest, node);
        put_then_lookup(t.counts, node, 0u32, node);
        let after = after_success(t, node);
        assert forall|n: Seq<char>| #[trigger] after.order.contains(n) implies lookup(
            after.counts,
            n,
        ) is Some by {
            put_then_lookup(t.counts, node, 0u32, n);
            if n != node {
                assert(rest.contains(n));
                assert(t.order.contains(n));
            }
        }
    }
}

/// Whether the tracker is consistent once the node has a count.
spec fn consistent_but_for(t: TrackerView, node: Seq<char>) -> bool {
    &&& names_distinct(t.counts)
    &&& names_distinct(t.switches)
    &&& t.order.no_duplicates()
    &&& forall|n: Seq<char>| #[trigger]
        t.order.contains(n) ==> n == node || lookup(t.counts, n) is Some
}

proof fn room_is_consistent(t: TrackerView, node: Seq<char>)
    ensures
        consistent(t) ==> consistent_but_for(made_room(t, node), node),
        failures(made_room(t, node), node) <= failures(t, node),
{
    let noted = TrackerView {
        order: if lookup(t.counts, node) is None {
            t.order.push(node)
        } else {
            t.order
        },
        ..t
    };
    if consistent(t) {
        if lookup(t.counts, node) is None {
            assert(!t.order.contains(node));
            push_is_distinct(t.order, node);
        }
        assert(consistent_but_for(noted, node));
    }
    if t.counts.len() > MANY_NODES {
        let gone = to_forget(noted);
        without_then_lookup(t.counts, gone, node);
        without_then_lookup(t.switches, gone, node);
        remaining_names(noted.order, gone);
        let room = forgotten(noted, gone);
        if consistent(t) {
            assert forall|n: Seq<char>| #[trigger] room.order.contains(n) implies n == node
                || lookup(room.counts, n) is Some by {
                without_then_lookup(t.counts, gone, n);
                assert(noted.order.contains(n));
            }
        }
    }
}

proof fn count_is_consistent(t: TrackerView, node: Seq<char>, count: u32)
    ensures
        ({
            let room = made_room(t, node);
            consistent(t) ==> consistent(
                TrackerView { counts: put(room.counts, node, count), ..room },
            )
        }),
{
    if consistent(t) {
        let room = made_room(t, node);
        room_is_consistent(t, node);
        put_then_lookup(room.counts, node, count, node);
        assert forall|n: Seq<char>| #[trigger] room.order.contains(n) implies lookup(
            put(room.counts, node, count),
            n,
        ) is Some by {
            put_then_lookup(room.counts, node, count, n);
        }
    }
}

// ---------------------------------------------------------------------------
// Laws
// ---------------------------------------------------------------------------

/// No node ever switched later than the group did, as long as the clock goes on
/// or there is a cooldown.
pub proof fn no_node_switches_later_than_the_group(
    policy: PolicyView,
    t: TrackerView,
    node: Seq<char>,
    success: bool,
    now: u128,
)
    requires
        in_time(t),
        time_goes_on(policy, t, now),
    ensures
        in_time(heard(policy, t, node, success, now).0),
{
    let after = heard(policy, t, node, success, now).0;
    let room = made_room(t, node);
    let noted = TrackerView {
        order: if lookup(t.counts, node) is None {
            t.order.push(node)
        } else {
            t.order
        },
        ..t
    };
    assert forall|n: Seq<char>| (#[trigger] lookup(after.switches, n)) is Some implies (
    after.group_switch matches Some(g) && lookup(after.switches, n)->0 <= g) by {
        if policy.enabled && !success {
            without_then_lookup(t.switches, to_forget(noted), n);
            assert(lookup(room.switches, n) is Some ==> lookup(room.switches, n) == lookup(
                t.switches,
                n,
            ));
            put_then_lookup(room.switches, node, now, n);
        }
    }
}

/// A node that succeeded has no failures, and no other node's failures change.
pub proof fn success_resets_the_count(
    policy: PolicyView,
    t: TrackerView,
    node: Seq<char>,
    other: Seq<char>,
    now: u128,
)
    requires
        policy.enabled,
    ensures
        failures(heard(policy, t, node, true, now).0, node) == 0,
        heard(policy, t, node, true, now).1 is None,
        other != node ==> failures(heard(policy, t, node, true, now).0, other) == failures(
            t,
            other,
        ),
{
    put_then_lookup(t.counts, node, 0u32, other);
}

/// Without a switch a failure is one more in the row; with one the row starts
/// anew.  As long as no node is forgotten, no other node's failures change.
pub proof fn failure_counts_once(
    policy: PolicyView,
    t: TrackerView,
    node: Seq<char>,
    other: Seq<char>,
    now: u128,
)
    requires
        policy.enabled,
        t.counts.len() <= MANY_NODES,
        failures(t, node) < u32::MAX,
    ensures
        ({
            let (after, action) = heard(policy, t, node, false, now);
            &&& action is None ==> failures(after, node) == failures(t, node) + 1
            &&& action is Some ==> failures(after, node) == 0
            &&& other != node ==> failures(after, other) == failures(t, other)
        }),
{
    let room = made_room(t, node);
    let count = (failures(room, node) + 1) as u32;
    put_then_lookup(room.counts, node, count, other);
    put_then_lookup(put(room.counts, node, count), node, 0u32, other);
}

/// A switch follows exactly when the failures in a row reach the threshold and
/// neither the group nor the node switched within the cooldown, as long as no
/// node is forgotten.
pub proof fn when_a_switch_follows(
    policy: PolicyView,
    t: TrackerView,
    node: Seq<char>,
    success: bool,
    now: u128,
)
    requires
        t.counts.len() <= MANY_NODES,
        failures(t, node) < u32::MAX,
    ensures
        heard(policy, t, node, success, now).1 is Some <==> (policy.enabled && !success && failures(
            t,
            node,
        ) + 1 >= policy.threshold && !cooling(policy, t.group_switch, now) && !cooling(
            policy,
            lookup(t.switches, node),
            now,
        )),
{
}

/// After a switch no node of the group leads to another within the cooldown.
pub proof fn cooldown_holds_the_group(
    policy: PolicyView,
    t: TrackerView,
    node: Seq<char>,
    now: u128,
    other: Seq<char>,
    success: bool,
    soon: u128,
)
    requires
        heard(policy, t, node, false, now).1 is Some,
        now <= soon,
        soon - now < policy.cooldown,
    ensures
        heard(policy, heard(policy, t, node, false, now).0, other, success, soon).1 is None,
{
}

/// Where switches are off, nothing is noted and no switch follows.
pub proof fn nothing_follows_when_off(
    policy: PolicyView,
    t: TrackerView,
    node: Seq<char>,
    success: bool,
    now: u128,
)
    requires
        !policy.enabled,
    ensures
        heard(policy, t, node, success, now) == (t, None::<ActionView>),
{
}

/// Whether a node is listed without failures.
pub open spec fn is_recovered(counts: Seq<(Seq<char>, u32)>, node: Seq<char>) -> bool {
    exists|j: int| 0 <= j < counts.len() && (#[trigger] counts[j]).0 == node && counts[j].1 == 0
}

proof fn recovered_bounds(counts: Seq<(Seq<char>, u32)>, most: int)
    ensures
        recovered(counts, most).len() <= (if most > 0 {
            most
        } else {
            0
        }),
        forall|i: int|
            0 <= i < recovered(counts, most).len() ==> is_recovered(
                counts,
                #[trigger] recovered(counts, most)[i],
            ),
    decreases counts.len(),
{
    if counts.len() > 0 && most > 0 {
        let rest = counts.drop_first();
        let all = recovered(counts, most);
        let (less, found) = if counts[0].1 == 0 {
            (recovered(rest, most - 1), 1int)
        } else {
            (recovered(rest, most), 0int)
        };
        recovered_bounds(rest, most - found);
        assert forall|i: int| 0 <= i < all.len() implies is_recovered(counts, #[trigger] all[i]) by {
            if i < found {
                assert(counts[0].0 == all[i]);
            } else {
                assert(less[i - found] == all[i]);
                let j = choose|j: int|
                    0 <= j < rest.len() && (#[trigger] rest[j]).0 == less[i - found] && rest[j].1
                        == 0;
                assert(counts[j + 1] == rest[j]);
            }
        }
    }
}

/// No more than a tenth of the nodes are forgotten, and while there are nodes
/// without failures, only such nodes.
pub proof fn what_is_forgotten(t: TrackerView)
    ensures
        to_forget(t).len() <= t.counts.len() / 10,
        recovered(t.counts, (t.counts.len() / 10) as int).len() > 0 ==> forall|i: int|
            0 <= i < to_forget(t).len() ==> is_recovered(t.counts, #[trigger] to_forget(t)[i]),
{
    recovered_bounds(t.counts, (t.counts.len() / 10) as int);
}

/// A switch is away from the node that failed, to the group that stands in, and
/// tells how often the node failed in a row, as long as no node is forgotten.
pub proof fn what_a_switch_says(policy: PolicyView, t: TrackerView, node: Seq<char>, now: u128)
    requires
        t.counts.len() <= MANY_NODES,
        failures(t, node) < u32::MAX,
        heard(policy, t, node, false, now).1 is Some,
    ensures
        ({
            let action = heard(policy, t, node, false, now).1->Some_0;
            &&& action.failed_node == node
            &&& action.target == policy.fallback_group
            &&& action.failure_count == failures(t, node) + 1
        }),
        heard(policy, t, node, false, now).0.group_switch == Some(now),
        lookup(heard(policy, t, node, false, now).0.switches, node) == Some(now),
{
    put_then_lookup(t.switches, node, now, node);
}

/// The cooldown lasts from a switch until its time has passed; without a switch
/// there is none.
pub proof fn how_long_the_cooldown_lasts(policy: PolicyView, since: u128, now: u128)
    ensures
        !cooling(policy, None, now),
        since <= now ==> (cooling(policy, Some(since), now) <==> now < since + policy.cooldown),
        now < since && policy.cooldown > 0 ==> cooling(policy, Some(since), now),
{
}

} // verus!
