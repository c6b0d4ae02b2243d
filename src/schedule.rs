//! The schedule: which configured shader is active at a time of day.
//!
//! Shaders with a start time are ordered by start time (ties keep the order
//! in which they were written). Each one runs from its start to its declared
//! end, or else to the start of the next one, the last wrapping to the first.
use vstd::prelude::*;

use vstd::arithmetic::div_mod::{lemma_mod_self_0, lemma_small_mod};

use crate::config::{first_default, ConfigDocument, Shader};
use crate::time::{before, lemma_before_total, TimeOfDay, TimeRange};

verus! {

pub open spec fn has_start(s: Shader) -> bool {
    s.start_time is Some
}

pub open spec fn start_of(s: Shader) -> TimeOfDay {
    s.start_time->0
}

/// Shader `i` comes before shader `j` in schedule order: by start time, and
/// by position where the start times are equal.
pub open spec fn schedule_before(shaders: Seq<Shader>, i: int, j: int) -> bool {
    before(start_of(shaders[i]), start_of(shaders[j])) || (start_of(shaders[i]) == start_of(
        shaders[j],
    ) && i < j)
}

/// `order` lists exactly the positions of the shaders that have a start time,
/// in schedule order.
pub open spec fn is_schedule_order(shaders: Seq<Shader>, order: Seq<usize>) -> bool {
    &&& forall|k: int|
        0 <= k < order.len() ==> order[k] < shaders.len() && has_start(
            #[trigger] shaders[order[k] as int],
        )
    &&& forall|i: int| 0 <= i < shaders.len() && has_start(shaders[i]) ==> order.contains(i as usize)
    &&& forall|a: int, b: int|
        0 <= a < b < order.len() ==> schedule_before(
            shaders,
            #[trigger] order[a] as int,
            #[trigger] order[b] as int,
        )
}

/// The range of the `k`-th shader in schedule order: from its start to its
/// declared end, or else to the start of the next one (cyclically).
pub open spec fn range_at(shaders: Seq<Shader>, order: Seq<usize>, k: int) -> TimeRange {
    let s = shaders[order[k] as int];
    let next = shaders[order[(k + 1) % (order.len() as int)] as int];
    TimeRange {
        start: start_of(s),
        end: match s.end_time {
            Some(e) => e,
            None => start_of(next),
        },
    }
}

/// The shader position of the first range, in schedule order, that holds `t`.
pub open spec fn first_containing(events: Seq<(TimeRange, usize)>, t: TimeOfDay) -> Option<usize>
    decreases events.len(),
{
    if events.len() == 0 {
        None
    } else if events[0].0.spec_contains(t) {
        Some(events[0].1)
    } else {
        first_containing(events.drop_first(), t)
    }
}

/// The ranges of the scheduled shaders, in schedule order, each with the
/// position of its shader in the list it was built from.
pub struct ScheduleTable {
    events: Vec<(TimeRange, usize)>,
}

/// The ranges' starts never decrease along the list.
pub open spec fn starts_sorted(events: Seq<(TimeRange, usize)>) -> bool {
    forall|a: int, b: int|
        0 <= a < b < events.len() ==> !before(
            (#[trigger] events[b]).0.start,
            (#[trigger] events[a]).0.start,
        )
}

/// Position in `events` of the last range that starts at or before `t`, or
/// -1 if there is none.
pub open spec fn last_start_at_or_before(events: Seq<(TimeRange, usize)>, t: TimeOfDay) -> int
    decreases events.len(),
{
    if events.len() == 0 {
        -1
    } else if !before(t, events.last().0.start) {
        events.len() - 1
    } else {
        last_start_at_or_before(events.drop_last(), t)
    }
}

/// The shader of the last range starting at or before `t`, or else of the
/// last range (which wraps past midnight).
pub open spec fn predecessor_or_last(events: Seq<(TimeRange, usize)>, t: TimeOfDay) -> Option<usize> {
    if events.len() == 0 {
        None
    } else {
        let k = last_start_at_or_before(events, t);
        if k < 0 {
            Some(events.last().1)
        } else {
            Some(events[k].1)
        }
    }
}

impl ScheduleTable {
    #[verifier::type_invariant]
    spec fn inv(self) -> bool {
        starts_sorted(self.events@)
    }

    pub closed spec fn spec_events(self) -> Seq<(TimeRange, usize)> {
        self.events@
    }

    pub open spec fn order(self) -> Seq<usize> {
        self.spec_events().map_values(|e: (TimeRange, usize)| e.1)
    }

    /// The table is the one that `shaders` determine.
    pub open spec fn built_from(self, shaders: Seq<Shader>) -> bool {
        &&& is_schedule_order(shaders, self.order())
        &&& forall|k: int|
            0 <= k < self.spec_events().len() ==> (#[trigger] self.spec_events()[k]).0 == range_at(
                shaders,
                self.order(),
                k,
            )
    }

    pub open spec fn spec_get(self, t: TimeOfDay) -> Option<usize> {
        first_containing(self.spec_events(), t)
    }

    /// Builds the table of the shaders that have a start time.
    pub fn from_shaders(shaders: &[Shader]) -> (r: ScheduleTable)
        ensures
            r.built_from(shaders@),
    {
        let order = schedule_order(shaders);
        let m = order.len();
        let mut events: Vec<(TimeRange, usize)> = Vec::new();
        let mut k: usize = 0;
        while k < m
            invariant
                m == order@.len(),
                is_schedule_order(shaders@, order@),
                k <= m,
                events@.len() == k,
                forall|j: int|
                    0 <= j < k ==> (#[trigger] events@[j]).1 == order@[j] && events@[j].0
                        == range_at(shaders@, order@, j),
            decreases m - k,
        {
            let idx = order[k];
            assert(has_start(shaders@[order@[k as int] as int]));
            let start = shaders[idx].start_time.unwrap();
            let next_k: usize = if k + 1 < m {
                k + 1
            } else {
                0
            };
            proof {
                if k + 1 < m {
                    lemma_small_mod((k + 1) as nat, m as nat);
                } else {
                    lemma_mod_self_0(m as int);
                }
            }
            assert(next_k as int == (k + 1) % (m as int));
            assert(has_start(shaders@[order@[next_k as int] as int]));
            let end = match shaders[idx].end_time {
                Some(e) => e,
                None => shaders[order[next_k]].start_time.unwrap(),
            };
            events.push((TimeRange::new(start, end), idx));
            k += 1;
        }
        assert(starts_sorted(events@)) by {
            assert forall|a: int, b: int| 0 <= a < b < events@.len() implies !before(
                (#[trigger] events@[b]).0.start,
                (#[trigger] events@[a]).0.start,
            ) by {
                assert(schedule_before(shaders@, order@[a] as int, order@[b] as int));
            }
        }
        let r = ScheduleTable { events };
        assert(r.order() =~= order@);
        r
    }

    /// The shader of the last range that starts at or before `time`, found
    /// by bisection, or else of the last range.
    pub fn get_by_bisection(&self, time: &TimeOfDay) -> (r: Option<usize>)
        ensures
            r == predecessor_or_last(self.spec_events(), *time),
    {
        proof {
            use_type_invariant(self);
        }
        let m = self.events.len();
        if m == 0 {
            return None;
        }
        let mut lo: usize = 0;
        let mut hi: usize = m;
        while lo < hi
            invariant
                m == self.events@.len(),
                starts_sorted(self.events@),
                0 <= lo <= hi <= m,
                forall|k: int| 0 <= k < lo ==> !before(*time, (#[trigger] self.events@[k]).0.start),
                forall|k: int| hi <= k < m ==> before(*time, (#[trigger] self.events@[k]).0.start),
            decreases hi - lo,
        {
            let mid = lo + (hi - lo) / 2;
            if !time.is_before(&self.events[mid].0.start) {
                assert forall|k: int| 0 <= k < mid + 1 implies !before(
                    *time,
                    (#[trigger] self.events@[k]).0.start,
                ) by {
                    if k < mid {
                        assert(!before(self.events@[mid as int].0.start, self.events@[k].0.start));
                        lemma_before_total(self.events@[mid as int].0.start, self.events@[k].0.start);
                    }
                }
                lo = mid + 1;
            } else {
                assert forall|k: int| mid <= k < m implies before(
                    *time,
                    (#[trigger] self.events@[k]).0.start,
                ) by {
                    if k > mid {
                        assert(!before(self.events@[k].0.start, self.events@[mid as int].0.start));
                    }
                }
                hi = mid;
            }
        }
        proof {
            lemma_last_start_split(self.events@, *time, lo as int);
        }
        if lo == 0 {
            Some(self.events[m - 1].1)
        } else {
            Some(self.events[lo - 1].1)
        }
    }

    /// The shader position of the first range, in schedule order, that holds
    /// `time`.
    pub fn get(&self, time: &TimeOfDay) -> (r: Option<usize>)
        ensures
            r == self.spec_get(*time),
    {
        let n = self.events.len();
        let mut k: usize = 0;
        assert(self.events@.subrange(0, n as int) =~= self.events@);
        while k < n
            invariant
                n == self.events@.len(),
                k <= n,
                first_containing(self.events@, *time) == first_containing(
                    self.events@.subrange(k as int, n as int),
                    *time,
                ),
            decreases n - k,
        {
            let ghost rest = self.events@.subrange(k as int, n as int);
            assert(rest.drop_first() =~= self.events@.subrange(k + 1, n as int));
            if self.events[k].0.contains(time) {
                return Some(self.events[k].1);
            }
            k += 1;
        }
        None
    }
}

fn start_time_at(shaders: &[Shader], i: usize) -> (r: TimeOfDay)
    requires
        i < shaders@.len(),
        has_start(shaders@[i as int]),
    ensures
        r == start_of(shaders@[i as int]),
{
    shaders[i].start_time.unwrap()
}

/// The positions of the shaders that have a start time, in schedule order.
fn schedule_order(shaders: &[Shader]) -> (order: Vec<usize>)
    ensures
        is_schedule_order(shaders@, order@),
{
    let mut order: Vec<usize> = Vec::new();
    let mut i: usize = 0;
    while i < shaders.len()
        invariant
            i <= shaders@.len(),
            forall|k: int|
                0 <= k < order@.len() ==> #[trigger] order@[k] < i && has_start(
                    shaders@[order@[k] as int],
                ),
            forall|j: int| 0 <= j < i && has_start(shaders@[j]) ==> order@.contains(j as usize),
            forall|a: int, b: int|
                0 <= a < b < order@.len() ==> schedule_before(
                    shaders@,
                    #[trigger] order@[a] as int,
                    #[trigger] order@[b] as int,
                ),
        decreases shaders@.len() - i,
    {
        if let Some(st) = shaders[i].start_time {
            let mut p: usize = 0;
            while p < order.len() && !st.is_before(&start_time_at(shaders, order[p]))
                invariant
                    i < shaders@.len(),
                    p <= order@.len(),
                    shaders@[i as int].start_time == Some(st),
                    forall|k: int|
                        0 <= k < order@.len() ==> #[trigger] order@[k] < i && has_start(
                            shaders@[order@[k] as int],
                        ),
                    forall|q: int|
                        0 <= q < p ==> !before(st, start_of(shaders@[#[trigger] order@[q] as int])),
                decreases order@.len() - p,
            {
                p += 1;
            }
            let ghost old_order = order@;
            assert(p < old_order.len() ==> before(st, start_of(shaders@[old_order[p as int] as int])));
            order.insert(p, i);
            assert(order@ == old_order.insert(p as int, i));
            assert forall|a: int, b: int| 0 <= a < b < order@.len() implies schedule_before(
                shaders@,
                #[trigger] order@[a] as int,
                #[trigger] order@[b] as int,
            ) by {
                if b < p {
                    assert(order@[a] == old_order[a] && order@[b] == old_order[b]);
                } else if b == p {
                    let x = old_order[a];
                    assert(order@[a] == x && order@[b] == i);
                    assert(x < i);
                    assert(!before(st, start_of(shaders@[x as int])));
                    lemma_before_total(st, start_of(shaders@[x as int]));
                } else if a < p {
                    assert(order@[a] == old_order[a] && order@[b] == old_order[b - 1]);
                } else if a == p {
                    let y = old_order[b - 1];
                    assert(order@[a] == i && order@[b] == y);
                    let z = old_order[p as int];
                    assert(before(st, start_of(shaders@[z as int])));
                    if b - 1 > p {
                        assert(schedule_before(shaders@, z as int, y as int));
                    }
                } else {
                    assert(order@[a] == old_order[a - 1] && order@[b] == old_order[b - 1]);
                }
            }
            assert forall|j: int| 0 <= j < i + 1 && has_start(shaders@[j]) implies order@.contains(j as usize) by {
                if j == i {
                    assert(order@[p as int] == i);
                } else {
                    assert(old_order.contains(j as usize));
                    let k = choose|k: int| 0 <= k < old_order.len() && old_order[k] == j as usize;
                    if k < p {
                        assert(order@[k] == j as usize);
                    } else {
                        assert(order@[k + 1] == j as usize);
                    }
                }
            }
            assert forall|k: int| 0 <= k < order@.len() implies order@[k] < i + 1 && has_start(
                #[trigger] shaders@[order@[k] as int],
            ) by {
                if k < p {
                    assert(order@[k] == old_order[k]);
                } else if k > p {
                    assert(order@[k] == old_order[k - 1]);
                }
            }
        }
        i += 1;
    }
    order
}

/// The schedule of a configuration: the table and the list it indexes.
pub struct Schedule<'a> {
    table: ScheduleTable,
    config: &'a ConfigDocument,
}

/// Position of the shader scheduled at `t`, or else of the first shader
/// marked default.
pub open spec fn scheduled(shaders: Seq<Shader>, table: ScheduleTable, t: TimeOfDay) -> Option<int> {
    match table.spec_get(t) {
        Some(i) => Some(i as int),
        None => first_default(shaders),
    }
}

impl<'a> Schedule<'a> {
    #[verifier::type_invariant]
    spec fn inv(self) -> bool {
        self.table.built_from(self.config.shader@)
    }

    pub closed spec fn spec_table(self) -> ScheduleTable {
        self.table
    }

    pub closed spec fn spec_config(self) -> ConfigDocument {
        *self.config
    }

    pub fn with_config(config: &'a ConfigDocument) -> (r: Schedule<'a>)
        ensures
            r.spec_config() == *config,
            r.spec_table().built_from(config.shader@),
    {
        Schedule { table: ScheduleTable::from_shaders(config.all_shaders()), config }
    }

    /// The shader scheduled at `time`, or else the default shader, or else
    /// nothing.
    pub fn scheduled_shader(&self, time: &TimeOfDay) -> (r: Option<&'a Shader>)
        ensures
            r == (match scheduled(self.spec_config().shader@, self.spec_table(), *time) {
                Some(i) => Some(&self.spec_config().shader@[i]),
                None => None,
            }),
    {
        proof {
            use_type_invariant(self);
            lemma_table_positions_in_bounds(self.config.shader@, self.table);
        }
        match self.table.get(time) {
            Some(i) => Some(&self.config.shader[i]),
            None => self.config.default_shader(),
        }
    }
}

/// Every shader position that a built table returns is in bounds.
pub proof fn lemma_table_positions_in_bounds(shaders: Seq<Shader>, table: ScheduleTable)
    requires
        table.built_from(shaders),
    ensures
        forall|t: TimeOfDay| #[trigger] table.spec_get(t) is Some ==> table.spec_get(t)->0 < shaders.len(),
{
    assert forall|t: TimeOfDay| #[trigger] table.spec_get(t) is Some implies table.spec_get(t)->0 < shaders.len() by {
        lemma_first_containing_is_listed(table.spec_events(), t);
        let k = choose|k: int| 0 <= k < table.spec_events().len() && table.spec_events()[k].1 == table.spec_get(t)->0;
        assert(table.order()[k] == table.spec_events()[k].1);
    }
}

proof fn lemma_first_containing_is_listed(events: Seq<(TimeRange, usize)>, t: TimeOfDay)
    ensures
        first_containing(events, t) matches Some(i) ==> exists|k: int|
            0 <= k < events.len() && events[k].1 == i && events[k].0.spec_contains(t),
    decreases events.len(),
{
    if events.len() > 0 && !events[0].0.spec_contains(t) {
        lemma_first_containing_is_listed(events.drop_first(), t);
        if first_containing(events, t) is Some {
            let k = choose|k: int|
                0 <= k < events.drop_first().len() && events.drop_first()[k].1 == first_containing(events, t)->0
                    && events.drop_first()[k].0.spec_contains(t);
            assert(events[k + 1] == events.drop_first()[k]);
        }
    } else if events.len() > 0 {
        assert(events[0].1 == first_containing(events, t)->0);
    }
}

proof fn lemma_contained_is_found(events: Seq<(TimeRange, usize)>, t: TimeOfDay, k: int)
    requires
        0 <= k < events.len(),
        events[k].0.spec_contains(t),
    ensures
        first_containing(events, t) is Some,
    decreases k,
{
    if k > 0 && !events[0].0.spec_contains(t) {
        assert(events.drop_first()[k - 1] == events[k]);
        lemma_contained_is_found(events.drop_first(), t, k - 1);
    }
}

/// A table built from no shader with a start time finds nothing at any time.
pub proof fn lemma_empty_schedule(shaders: Seq<Shader>, table: ScheduleTable, t: TimeOfDay)
    requires
        table.built_from(shaders),
        forall|i: int| 0 <= i < shaders.len() ==> !has_start(#[trigger] shaders[i]),
    ensures
        table.spec_get(t) is None,
{
    if table.spec_events().len() > 0 {
        assert(table.order()[0] == table.spec_events()[0].1);
        assert(has_start(shaders[table.order()[0] as int]));
    }
}

/// Where the table finds nothing, the schedule gives the first shader marked
/// default, or nothing if there is none.
pub proof fn lemma_default_fallback(shaders: Seq<Shader>, table: ScheduleTable, t: TimeOfDay)
    requires
        table.built_from(shaders),
        table.spec_get(t) is None,
    ensures
        scheduled(shaders, table, t) == first_default(shaders),
{
}

proof fn lemma_find_gap(shaders: Seq<Shader>, order: Seq<usize>, t: TimeOfDay, k: int) -> (j: int)
    requires
        is_schedule_order(shaders, order),
        0 <= k < order.len() - 1,
        !before(t, start_of(shaders[order[k] as int])),
        before(t, start_of(shaders[order[order.len() - 1] as int])),
    ensures
        k <= j < order.len() - 1,
        !before(t, start_of(shaders[order[j] as int])),
        before(t, start_of(shaders[order[j + 1] as int])),
    decreases order.len() - k,
{
    if before(t, start_of(shaders[order[k + 1] as int])) {
        k
    } else {
        lemma_find_gap(shaders, order, t, k + 1)
    }
}

/// When some shader has a start time and none declares an end time, the
/// ranges cover the whole day: every time finds a shader.
pub proof fn lemma_full_coverage(shaders: Seq<Shader>, table: ScheduleTable, t: TimeOfDay)
    requires
        table.built_from(shaders),
        exists|i: int| 0 <= i < shaders.len() && has_start(#[trigger] shaders[i]),
        forall|i: int| 0 <= i < shaders.len() ==> (#[trigger] shaders[i]).end_time is None,
    ensures
        table.spec_get(t) is Some,
{
    let events = table.spec_events();
    let order = table.order();
    let i0 = choose|i: int| 0 <= i < shaders.len() && has_start(#[trigger] shaders[i]);
    assert(order.contains(i0 as usize));
    let m = order.len() as int;
    assert(m >= 1);
    let first = start_of(shaders[order[0] as int]);
    let last = start_of(shaders[order[m - 1] as int]);
    assert(!before(last, first)) by {
        if m > 1 {
            assert(schedule_before(shaders, order[0] as int, order[m - 1] as int));
        }
    }
    lemma_mod_self_0(m);
    assert(events[m - 1].0 == range_at(shaders, order, m - 1));
    if !before(t, last) || before(t, first) {
        assert(events[m - 1].0.spec_contains(t));
        lemma_contained_is_found(events, t, m - 1);
    } else {
        let j = lemma_find_gap(shaders, order, t, 0);
        lemma_small_mod((j + 1) as nat, m as nat);
        assert(events[j].0 == range_at(shaders, order, j));
        assert(events[j].0.spec_contains(t));
        lemma_contained_is_found(events, t, j);
    }
}

proof fn lemma_last_start_split(events: Seq<(TimeRange, usize)>, t: TimeOfDay, p: int)
    requires
        0 <= p <= events.len(),
        forall|k: int| 0 <= k < p ==> !before(t, (#[trigger] events[k]).0.start),
        forall|k: int| p <= k < events.len() ==> before(t, (#[trigger] events[k]).0.start),
    ensures
        last_start_at_or_before(events, t) == p - 1,
    decreases events.len(),
{
    if events.len() > 0 && p < events.len() {
        let d = events.drop_last();
        assert forall|k: int| 0 <= k < p implies !before(t, (#[trigger] d[k]).0.start) by {
            assert(d[k] == events[k]);
        }
        assert forall|k: int| p <= k < d.len() implies before(t, (#[trigger] d[k]).0.start) by {
            assert(d[k] == events[k]);
        }
        lemma_last_start_split(d, t, p);
    }
}

proof fn lemma_first_containing_at(events: Seq<(TimeRange, usize)>, t: TimeOfDay, k: int)
    requires
        0 <= k < events.len(),
        events[k].0.spec_contains(t),
        forall|j: int| 0 <= j < k ==> !(#[trigger] events[j]).0.spec_contains(t),
    ensures
        first_containing(events, t) == Some(events[k].1),
    decreases k,
{
    if k > 0 {
        let d = events.drop_first();
        assert forall|j: int| 0 <= j < k - 1 implies !(#[trigger] d[j]).0.spec_contains(t) by {
            assert(d[j] == events[j + 1]);
        }
        assert(!events[0].0.spec_contains(t));
        lemma_first_containing_at(d, t, k - 1);
    }
}

/// In a table of distinct start times, the starts strictly increase.
proof fn lemma_strict_starts(shaders: Seq<Shader>, table: ScheduleTable)
    requires
        table.built_from(shaders),
        forall|i: int, j: int|
            0 <= i < j < shaders.len() && has_start(#[trigger] shaders[i]) && has_start(
                #[trigger] shaders[j],
            ) ==> start_of(shaders[i]) != start_of(shaders[j]),
    ensures
        forall|a: int, b: int|
            0 <= a < b < table.spec_events().len() ==> before(
                (#[trigger] table.spec_events()[a]).0.start,
                (#[trigger] table.spec_events()[b]).0.start,
            ),
{
    let events = table.spec_events();
    let order = table.order();
    let m = events.len() as int;
    assert forall|a: int, b: int| 0 <= a < b < m implies before(
        (#[trigger] events[a]).0.start,
        (#[trigger] events[b]).0.start,
    ) by {
        assert(events[a].0 == range_at(shaders, order, a));
        assert(events[b].0 == range_at(shaders, order, b));
        assert(schedule_before(shaders, order[a] as int, order[b] as int));
        if order[a] < order[b] {
            assert(start_of(shaders[order[a] as int]) != start_of(shaders[order[b] as int]));
        } else {
            assert(start_of(shaders[order[b] as int]) != start_of(shaders[order[a] as int]));
        }
    }
}

/// With no declared end, each range ends where the next begins, the last
/// where the first begins.
proof fn lemma_chained_ends(shaders: Seq<Shader>, table: ScheduleTable)
    requires
        table.built_from(shaders),
        forall|i: int| 0 <= i < shaders.len() ==> (#[trigger] shaders[i]).end_time is None,
    ensures
        forall|j: int|
            0 <= j < table.spec_events().len() ==> (#[trigger] table.spec_events()[j]).0.end
                == table.spec_events()[if j + 1 < table.spec_events().len() {
                j + 1
            } else {
                0
            }].0.start,
{
    let events = table.spec_events();
    let order = table.order();
    let m = events.len() as int;
    assert forall|j: int| 0 <= j < m implies (#[trigger] events[j]).0.end == events[if j + 1 < m {
        j + 1
    } else {
        0
    }].0.start by {
        let n = if j + 1 < m {
            j + 1
        } else {
            0
        };
        assert(events[j].0 == range_at(shaders, order, j));
        assert(events[n].0 == range_at(shaders, order, n));
        if j + 1 < m {
            lemma_small_mod((j + 1) as nat, m as nat);
        } else {
            lemma_mod_self_0(m);
        }
    }
}

/// When the shaders with a start time have distinct start times and none
/// declares an end time, the linear lookup and the bisection agree at every
/// time.
pub proof fn lemma_lookups_agree(shaders: Seq<Shader>, table: ScheduleTable, t: TimeOfDay)
    requires
        table.built_from(shaders),
        forall|i: int| 0 <= i < shaders.len() ==> (#[trigger] shaders[i]).end_time is None,
        forall|i: int, j: int|
            0 <= i < j < shaders.len() && has_start(#[trigger] shaders[i]) && has_start(
                #[trigger] shaders[j],
            ) ==> start_of(shaders[i]) != start_of(shaders[j]),
    ensures
        table.spec_get(t) == predecessor_or_last(table.spec_events(), t),
{
    let events = table.spec_events();
    let m = events.len() as int;
    if m == 0 {
        return;
    }
    lemma_strict_starts(shaders, table);
    lemma_chained_ends(shaders, table);
    // All starts before `q` are at or before `t`, all from `q` on after it.
    let q = choose_split(events, t);
    lemma_last_start_split(events, t, q);
    let k = if q == 0 {
        m - 1
    } else {
        q - 1
    };
    assert(events[k].0.spec_contains(t)) by {
        if m > 1 && k == m - 1 {
            assert(before(events[0].0.start, events[m - 1].0.start));
        } else if k < m - 1 {
            assert(before(events[k].0.start, events[k + 1].0.start));
        }
    }
    assert forall|j: int| 0 <= j < k implies !(#[trigger] events[j]).0.spec_contains(t) by {
        assert(before(events[j].0.start, events[j + 1].0.start));
        if q > 0 && j + 1 < k {
            assert(before(events[j + 1].0.start, events[k].0.start));
        }
    }
    lemma_first_containing_at(events, t, k);
}

/// The number of ranges that start at or before `t`, in a table whose
/// starts are sorted.
proof fn choose_split(events: Seq<(TimeRange, usize)>, t: TimeOfDay) -> (q: int)
    requires
        starts_sorted(events),
    ensures
        0 <= q <= events.len(),
        forall|k: int| 0 <= k < q ==> !before(t, (#[trigger] events[k]).0.start),
        forall|k: int| q <= k < events.len() ==> before(t, (#[trigger] events[k]).0.start),
    decreases events.len(),
{
    if events.len() == 0 {
        0
    } else {
        let d = events.drop_last();
        assert forall|a: int, b: int| 0 <= a < b < d.len() implies !before(
            (#[trigger] d[b]).0.start,
            (#[trigger] d[a]).0.start,
        ) by {
            assert(d[a] == events[a] && d[b] == events[b]);
        }
        let q0 = choose_split(d, t);
        if q0 == d.len() && !before(t, events.last().0.start) {
            assert forall|k: int| 0 <= k < events.len() implies !before(t, (#[trigger] events[k]).0.start) by {
                if k < d.len() {
                    assert(d[k] == events[k]);
                }
            }
            events.len() as int
        } else {
            assert forall|k: int| 0 <= k < q0 implies !before(t, (#[trigger] events[k]).0.start) by {
                assert(d[k] == events[k]);
            }
            assert forall|k: int| q0 <= k < events.len() implies before(t, (#[trigger] events[k]).0.start) by {
                if k < d.len() {
                    assert(d[k] == events[k]);
                } else if q0 < d.len() {
                    assert(d[q0] == events[q0]);
                    assert(!before(events[k].0.start, events[q0].0.start));
                }
            }
            q0
        }
    }
}

} // verus!
