use vstd::prelude::*;
use crate::collection::{items_view, Item, ItemV};
use crate::config::{Config, Thumbnail};
use crate::errors::Error;
use crate::fsmodel::Snapshot;

verus! {

// ---------------------------------------------------------------------------
// The work list: the flattened items whose outputs are missing or stale.
// ---------------------------------------------------------------------------

/// The values of the items of `items` that need pipeline work, in order.
pub open spec fn stale_seq(items: Seq<Item>, snap: Snapshot) -> Seq<ItemV>
    decreases items,
{
    if items.len() == 0 {
        Seq::empty()
    } else {
        let rest = stale_seq(items.drop_first(), snap);
        if items[0].spec_needs_update(snap) {
            seq![items[0]@] + rest
        } else {
            rest
        }
    }
}

proof fn lemma_stale_push(items: Seq<Item>, x: Item, snap: Snapshot)
    ensures
        stale_seq(items.push(x), snap) == (if x.spec_needs_update(snap) {
            stale_seq(items, snap).push(x@)
        } else {
            stale_seq(items, snap)
        }),
    decreases items,
{
    if items.len() == 0 {
        assert(items.push(x).drop_first() =~= items);
        if x.spec_needs_update(snap) {
            assert(seq![x@] + stale_seq(items, snap) =~= stale_seq(items, snap).push(x@));
        }
    } else {
        assert(items.push(x)[0] == items[0]);
        assert(items.push(x).drop_first() =~= items.drop_first().push(x));
        lemma_stale_push(items.drop_first(), x, snap);
        if items[0].spec_needs_update(snap) && x.spec_needs_update(snap) {
            assert(seq![items[0]@] + stale_seq(items.drop_first(), snap).push(x@) =~= (seq![
                items[0]@,
            ] + stale_seq(items.drop_first(), snap)).push(x@));
        }
    }
}

/// Filter the flattened item list down to the items that need work: the
/// full-size output or the thumbnail is missing or older than the source.
/// The two outputs are judged independently.
pub fn stale_items(items: &Vec<Item>, snapshot: &Snapshot) -> (r: Vec<Item>)
    ensures
        items_view(r@) == stale_seq(items@, *snapshot),
{
    let mut r: Vec<Item> = Vec::new();
    let mut i: usize = 0;
    proof {
        assert(items@.take(0) =~= Seq::<Item>::empty());
        assert(items_view(r@) =~= stale_seq(items@.take(0), *snapshot));
    }
    while i < items.len()
        invariant
            i <= items@.len(),
            items_view(r@) == stale_seq(items@.take(i as int), *snapshot),
        decreases items@.len() - i,
    {
        proof {
            assert(items@.take(i as int + 1) =~= items@.take(i as int).push(items@[i as int]));
            lemma_stale_push(items@.take(i as int), items@[i as int], *snapshot);
        }
        if items[i].needs_update(snapshot) {
            let ghost r0 = r@;
            let it = items[i].clone();
            let ghost itg = it;
            r.push(it);
            proof {
                assert(items_view(r@) =~= items_view(r0).push(itg@));
            }
        }
        i = i + 1;
    }
    proof {
        assert(items@.take(items@.len() as int) =~= items@);
    }
    r
}

// ---------------------------------------------------------------------------
// The per-item plan: which directory to create and which outputs to
// regenerate.  The shell executes plans in its worker pool; every image
// operation it performs is one the plan names.
// ---------------------------------------------------------------------------

/// How the full-size output is produced: an aspect-filling resize to the
/// configured size, or an unchanged byte copy.
#[derive(Clone, Copy, Debug, PartialEq, Eq, Structural)]
pub enum FullJob {
    Resize(u32, u32),
    Copy,
}

/// The pipeline work one item needs.
#[derive(Clone, Copy, Debug, PartialEq, Eq, Structural)]
pub struct ItemPlan {
    /// The thumbnail's directory is missing and must be created first.
    pub create_thumb_dir: bool,
    /// Regenerate the thumbnail, aspect-filling to this size.
    pub thumbnail: Option<Thumbnail>,
    /// Regenerate the full-size output.
    pub full: Option<FullJob>,
}

/// The plan an item gets: create the thumbnail directory when it is missing;
/// regenerate the thumbnail when it is missing or older than the source;
/// regenerate the full-size output when it is missing or older than the
/// source, resizing when a target size is configured and copying otherwise.
pub open spec fn spec_plan(item: Item, cfg: Config, snap: Snapshot) -> ItemPlan {
    ItemPlan {
        create_thumb_dir: item.thumbnail@.len() > 0 && !snap.spec_has_dir(
            item.thumbnail@.drop_last(),
        ),
        thumbnail: if snap.spec_mtime(item.thumbnail@) is None || snap.spec_mtime(
            item.thumbnail@,
        ).unwrap() < item.from_mtime {
            Some(cfg.thumbnail)
        } else {
            None
        },
        full: if snap.spec_mtime(item.to@) is None || snap.spec_mtime(item.to@).unwrap()
            < item.from_mtime {
            Some(
                match cfg.resize {
                    Some(r) => FullJob::Resize(r.width, r.height),
                    None => FullJob::Copy,
                },
            )
        } else {
            None
        },
    }
}

pub fn plan_item(item: &Item, config: &Config, snapshot: &Snapshot) -> (r: ItemPlan)
    ensures
        r == spec_plan(*item, *config, *snapshot),
{
    let create_thumb_dir = match item.thumbnail.parent() {
        Some(p) => !snapshot.has_dir(&p),
        None => false,
    };
    let thumbnail = match snapshot.mtime_of(&item.thumbnail) {
        None => Some(config.thumbnail),
        Some(m) => if m < item.from_mtime {
            Some(config.thumbnail)
        } else {
            None
        },
    };
    let full = match snapshot.mtime_of(&item.to) {
        Some(m) if m >= item.from_mtime => None,
        _ => Some(
            match &config.resize {
                Some(r) => FullJob::Resize(r.width, r.height),
                None => FullJob::Copy,
            },
        ),
    };
    ItemPlan { create_thumb_dir, thumbnail, full }
}

// ---------------------------------------------------------------------------
// Progress accounting.  The pipeline reports one result per submitted item
// over its channel; a single consumer records them here and must not stop
// before the last one arrived.
// ---------------------------------------------------------------------------

#[derive(Debug)]
pub struct Progress {
    /// How many results are owed: one per submitted item.
    pub expected: usize,
    /// Results recorded as successes.
    pub succeeded: usize,
    /// Results recorded as failures.
    pub failed: usize,
}

impl Progress {
    /// Results recorded so far.
    pub open spec fn received(self) -> int {
        self.succeeded + self.failed
    }

    pub open spec fn wf(self) -> bool {
        self.succeeded + self.failed <= self.expected
    }

    pub fn new(expected: usize) -> (r: Progress)
        ensures
            r.wf(),
            r.expected == expected,
            r.succeeded == 0,
            r.failed == 0,
    {
        Progress { expected, succeeded: 0, failed: 0 }
    }

    /// Record one item's reported outcome.  Every success and every failure
    /// is counted, so after the last owed result exactly `expected` results
    /// are accounted for and none was dropped.
    pub fn record(&mut self, outcome: &Result<(), Error>)
        requires
            old(self).wf(),
            old(self).received() < old(self).expected,
        ensures
            final(self).wf(),
            final(self).expected == old(self).expected,
            final(self).succeeded == old(self).succeeded + (if outcome is Ok {
                1int
            } else {
                0int
            }),
            final(self).failed == old(self).failed + (if outcome is Ok {
                0int
            } else {
                1int
            }),
    {
        match outcome {
            Ok(_) => {
                self.succeeded = self.succeeded + 1;
            },
            Err(_) => {
                self.failed = self.failed + 1;
            },
        }
    }

    /// Whether every owed result has arrived; the consumer loops until this
    /// holds.
    pub fn is_done(&self) -> (r: bool)
        ensures
            r == (self.received() == self.expected),
    {
        self.succeeded as u128 + self.failed as u128 == self.expected as u128
    }
}

// ---------------------------------------------------------------------------
// Staleness laws.
// ---------------------------------------------------------------------------

/// Both outputs exist and are at least as recent as the source.
pub open spec fn up_to_date(item: Item, snap: Snapshot) -> bool {
    &&& snap.spec_mtime(item.to@) is Some
    &&& snap.spec_mtime(item.to@).unwrap() >= item.from_mtime
    &&& snap.spec_mtime(item.thumbnail@) is Some
    &&& snap.spec_mtime(item.thumbnail@).unwrap() >= item.from_mtime
}

/// Both outputs predate the source (or are missing), as after the source
/// was touched.
pub open spec fn outputs_stale(item: Item, snap: Snapshot) -> bool {
    &&& (snap.spec_mtime(item.to@) is None || snap.spec_mtime(item.to@).unwrap()
        < item.from_mtime)
    &&& (snap.spec_mtime(item.thumbnail@) is None || snap.spec_mtime(item.thumbnail@).unwrap()
        < item.from_mtime)
}

/// Running a build again over untouched sources schedules no work at all:
/// the stale filter keeps nothing, and no item's plan regenerates either
/// output.
pub proof fn lemma_build_idempotent(items: Seq<Item>, cfg: Config, snap: Snapshot)
    requires
        forall|i: int| 0 <= i < items.len() ==> up_to_date(#[trigger] items[i], snap),
    ensures
        stale_seq(items, snap) == Seq::<ItemV>::empty(),
        forall|i: int|
            0 <= i < items.len() ==> (#[trigger] spec_plan(items[i], cfg, snap)).thumbnail is None
                && spec_plan(items[i], cfg, snap).full is None,
    decreases items.len(),
{
    if items.len() > 0 {
        assert(up_to_date(items[0], snap));
        assert(!items[0].spec_needs_update(snap));
        assert(forall|i: int|
            0 <= i < items.drop_first().len() ==> up_to_date(
                #[trigger] items.drop_first()[i],
                snap,
            )) by {
            assert(forall|i: int|
                0 <= i < items.drop_first().len() ==> items.drop_first()[i] == items[i + 1]);
        }
        lemma_build_idempotent(items.drop_first(), cfg, snap);
    }
}

/// After touching exactly one source, exactly that item is scheduled again,
/// and its plan regenerates both its thumbnail and its full-size output; the
/// siblings stay untouched.
pub proof fn lemma_touch_one(items: Seq<Item>, cfg: Config, snap: Snapshot, k: int)
    requires
        0 <= k < items.len(),
        forall|i: int|
            0 <= i < items.len() && i != k ==> up_to_date(#[trigger] items[i], snap),
        outputs_stale(items[k], snap),
    ensures
        stale_seq(items, snap) == seq![items[k]@],
        spec_plan(items[k], cfg, snap).thumbnail is Some,
        spec_plan(items[k], cfg, snap).full is Some,
    decreases items.len(),
{
    assert(items[k].spec_needs_update(snap));
    if k == 0 {
        assert(forall|i: int|
            0 <= i < items.drop_first().len() ==> up_to_date(
                #[trigger] items.drop_first()[i],
                snap,
            )) by {
            assert(forall|i: int|
                0 <= i < items.drop_first().len() ==> items.drop_first()[i] == items[i + 1]);
        }
        lemma_build_idempotent(items.drop_first(), cfg, snap);
        assert(seq![items[0]@] + Seq::<ItemV>::empty() =~= seq![items[0]@]);
    } else {
        assert(up_to_date(items[0], snap));
        assert(!items[0].spec_needs_update(snap));
        assert(forall|i: int|
            0 <= i < items.drop_first().len() && i != k - 1 ==> up_to_date(
                #[trigger] items.drop_first()[i],
                snap,
            )) by {
            assert(forall|i: int|
                0 <= i < items.drop_first().len() ==> items.drop_first()[i] == items[i + 1]);
        }
        assert(items.drop_first()[k - 1] == items[k]);
        lemma_touch_one(items.drop_first(), cfg, snap, k - 1);
    }
}

} // verus!
