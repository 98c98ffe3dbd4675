//! Counters of the work that a query takes.

use vstd::prelude::*;

verus! {

/// What a query has done so far.
#[derive(Clone, Copy, Debug, PartialEq, Eq, Structural)]
pub struct QueryStats {
    pub nodes: u32,
    pub leaves: u32,
    pub blocks: u32,
    pub partitions: u32,
    pub primary_hit: bool,
    pub early_hit: bool,
}

/// A counter after one more event; it wraps around.
pub open spec fn bump(n: u32) -> u32 {
    if n == u32::MAX {
        0
    } else {
        (n + 1) as u32
    }
}

impl QueryStats {
    /// Nothing done yet.
    pub open spec fn zero() -> QueryStats {
        QueryStats {
            nodes: 0,
            leaves: 0,
            blocks: 0,
            partitions: 0,
            primary_hit: false,
            early_hit: false,
        }
    }

    pub open spec fn more_nodes(self) -> QueryStats {
        QueryStats { nodes: bump(self.nodes), ..self }
    }

    pub open spec fn more_leaves(self) -> QueryStats {
        QueryStats { leaves: bump(self.leaves), ..self }
    }

    pub open spec fn more_blocks(self) -> QueryStats {
        QueryStats { blocks: bump(self.blocks), ..self }
    }

    pub open spec fn more_parts(self) -> QueryStats {
        QueryStats { partitions: bump(self.partitions), ..self }
    }

    pub open spec fn with_primary_hit(self) -> QueryStats {
        QueryStats { primary_hit: true, ..self }
    }

    pub open spec fn with_early_hit(self) -> QueryStats {
        QueryStats { early_hit: true, ..self }
    }
}

impl Default for QueryStats {
    fn default() -> (r: QueryStats)
        ensures
            r == QueryStats::zero(),
    {
        QueryStats {
            nodes: 0,
            leaves: 0,
            blocks: 0,
            partitions: 0,
            primary_hit: false,
            early_hit: false,
        }
    }
}

/// Counts a tree node.
pub fn inc_nodes(stats: &mut QueryStats)
    ensures
        *final(stats) == old(stats).more_nodes(),
{
    stats.nodes = stats.nodes.wrapping_add(1);
}

/// Counts a leaf.
pub fn inc_leaves(stats: &mut QueryStats)
    ensures
        *final(stats) == old(stats).more_leaves(),
{
    stats.leaves = stats.leaves.wrapping_add(1);
}

/// Counts a block.
pub fn inc_blocks(stats: &mut QueryStats)
    ensures
        *final(stats) == old(stats).more_blocks(),
{
    stats.blocks = stats.blocks.wrapping_add(1);
}

/// Counts a partition.
pub fn inc_parts(stats: &mut QueryStats)
    ensures
        *final(stats) == old(stats).more_parts(),
{
    stats.partitions = stats.partitions.wrapping_add(1);
}

/// Notes that the first partition was enough.
pub fn set_primary_hit(stats: &mut QueryStats)
    ensures
        *final(stats) == old(stats).with_primary_hit(),
{
    stats.primary_hit = true;
}

/// Notes that the search ended early.
pub fn set_early_hit(stats: &mut QueryStats)
    ensures
        *final(stats) == old(stats).with_early_hit(),
{
    stats.early_hit = true;
}

/// Starts a new query.
pub fn reset(stats: &mut QueryStats)
    ensures
        *final(stats) == QueryStats::zero(),
{
    *stats = QueryStats::default();
}

/// The counters as they stand.
pub fn snapshot(stats: &QueryStats) -> (r: QueryStats)
    ensures
        r == *stats,
{
    *stats
}

/// Something that is counted or noted.
#[derive(Clone, Copy, Debug, PartialEq, Eq, Structural)]
pub enum Event {
    Node,
    Leaf,
    Block,
    Partition,
    PrimaryHit,
    EarlyHit,
}

/// The counters after an event.
pub open spec fn after_event(stats: QueryStats, e: Event) -> QueryStats {
    match e {
        Event::Node => stats.more_nodes(),
        Event::Leaf => stats.more_leaves(),
        Event::Block => stats.more_blocks(),
        Event::Partition => stats.more_parts(),
        Event::PrimaryHit => stats.with_primary_hit(),
        Event::EarlyHit => stats.with_early_hit(),
    }
}

/// The counters after events since the start of a query.
pub open spec fn after_events(events: Seq<Event>) -> QueryStats
    decreases events.len(),
{
    if events.len() == 0 {
        QueryStats::zero()
    } else {
        after_event(after_events(events.drop_last()), events.last())
    }
}

/// How often an event is among some.
pub open spec fn times_seen(events: Seq<Event>, e: Event) -> nat
    decreases events.len(),
{
    if events.len() == 0 {
        0
    } else {
        times_seen(events.drop_last(), e) + (if events.last() == e {
            1nat
        } else {
            0nat
        })
    }
}

/// Since the start of a query the counters hold how often each event came, in whatever order, and
/// the notes whether it came.
pub proof fn counters_count_events(events: Seq<Event>)
    requires
        forall|e: Event| #[trigger] times_seen(events, e) <= u32::MAX,
    ensures
        ({
            let s = after_events(events);
            &&& s.nodes == times_seen(events, Event::Node)
            &&& s.leaves == times_seen(events, Event::Leaf)
            &&& s.blocks == times_seen(events, Event::Block)
            &&& s.partitions == times_seen(events, Event::Partition)
            &&& s.primary_hit == (times_seen(events, Event::PrimaryHit) > 0)
            &&& s.early_hit == (times_seen(events, Event::EarlyHit) > 0)
        }),
    decreases events.len(),
{
    if events.len() > 0 {
        let before = events.drop_last();
        assert forall|e: Event| #[trigger] times_seen(before, e) <= u32::MAX by {
            assert(times_seen(events, e) <= u32::MAX);
        }
        counters_count_events(before);
        assert(times_seen(events, Event::Node) <= u32::MAX);
        assert(times_seen(events, Event::Leaf) <= u32::MAX);
        assert(times_seen(events, Event::Block) <= u32::MAX);
        assert(times_seen(events, Event::Partition) <= u32::MAX);
        assert(times_seen(events, Event::PrimaryHit) <= u32::MAX);
        assert(times_seen(events, Event::EarlyHit) <= u32::MAX);
    }
}

} // verus!
