//! Statistics and other summaries of a database.
use vstd::prelude::*;
use crate::page::Pgid;

verus! {

/// Performance counters of transactions.
#[derive(Clone, Debug)]
pub struct TxStats {
    pub page_count: i64,
    pub page_alloc: i64,
    pub cursor_count: i64,
    pub node_count: i64,
    pub node_deref: i64,
    pub rebalance: i64,
    pub rebalance_time_ns: i64,
    pub split: i64,
    pub spill: i64,
    pub spill_time_ns: i64,
    pub write: i64,
    pub write_time_ns: i64,
}

/// A counter that can be added to.
pub open spec fn fits_i64(n: int) -> bool {
    i64::MIN <= n <= i64::MAX
}

impl Default for TxStats {
    fn default() -> (s: Self)
        ensures
            s == TxStats::zero(),
    {
        TxStats {
            page_count: 0,
            page_alloc: 0,
            cursor_count: 0,
            node_count: 0,
            node_deref: 0,
            rebalance: 0,
            rebalance_time_ns: 0,
            split: 0,
            spill: 0,
            spill_time_ns: 0,
            write: 0,
            write_time_ns: 0,
        }
    }
}

impl TxStats {
    /// All counters at zero.
    pub open spec fn zero() -> TxStats {
        TxStats {
            page_count: 0,
            page_alloc: 0,
            cursor_count: 0,
            node_count: 0,
            node_deref: 0,
            rebalance: 0,
            rebalance_time_ns: 0,
            split: 0,
            spill: 0,
            spill_time_ns: 0,
            write: 0,
            write_time_ns: 0,
        }
    }

    /// Adds to the page count counter.
    pub fn inc_page_count(&mut self, n: i64)
        requires
            fits_i64(old(self).page_count + n),
        ensures
            *final(self) == (TxStats { page_count: (old(self).page_count + n) as i64, ..*old(self) }),
    {
        self.page_count = self.page_count + n;
    }

    /// The page count counter.
    pub fn get_page_count(&self) -> (n: i64)
        ensures
            n == self.page_count,
    {
        self.page_count
    }

    /// Adds to the page alloc counter.
    pub fn inc_page_alloc(&mut self, n: i64)
        requires
            fits_i64(old(self).page_alloc + n),
        ensures
            *final(self) == (TxStats { page_alloc: (old(self).page_alloc + n) as i64, ..*old(self) }),
    {
        self.page_alloc = self.page_alloc + n;
    }

    /// The page alloc counter.
    pub fn get_page_alloc(&self) -> (n: i64)
        ensures
            n == self.page_alloc,
    {
        self.page_alloc
    }

    /// Adds to the cursor count counter.
    pub fn inc_cursor_count(&mut self, n: i64)
        requires
            fits_i64(old(self).cursor_count + n),
        ensures
            *final(self) == (TxStats { cursor_count: (old(self).cursor_count + n) as i64, ..*old(self) }),
    {
        self.cursor_count = self.cursor_count + n;
    }

    /// The cursor count counter.
    pub fn get_cursor_count(&self) -> (n: i64)
        ensures
            n == self.cursor_count,
    {
        self.cursor_count
    }

    /// Adds to the node count counter.
    pub fn inc_node_count(&mut self, n: i64)
        requires
            fits_i64(old(self).node_count + n),
        ensures
            *final(self) == (TxStats { node_count: (old(self).node_count + n) as i64, ..*old(self) }),
    {
        self.node_count = self.node_count + n;
    }

    /// The node count counter.
    pub fn get_node_count(&self) -> (n: i64)
        ensures
            n == self.node_count,
    {
        self.node_count
    }

    /// Adds to the node deref counter.
    pub fn inc_node_deref(&mut self, n: i64)
        requires
            fits_i64(old(self).node_deref + n),
        ensures
            *final(self) == (TxStats { node_deref: (old(self).node_deref + n) as i64, ..*old(self) }),
    {
        self.node_deref = self.node_deref + n;
    }

    /// The node deref counter.
    pub fn get_node_deref(&self) -> (n: i64)
        ensures
            n == self.node_deref,
    {
        self.node_deref
    }

    /// Adds to the rebalance counter.
    pub fn inc_rebalance(&mut self, n: i64)
        requires
            fits_i64(old(self).rebalance + n),
        ensures
            *final(self) == (TxStats { rebalance: (old(self).rebalance + n) as i64, ..*old(self) }),
    {
        self.rebalance = self.rebalance + n;
    }

    /// The rebalance counter.
    pub fn get_rebalance(&self) -> (n: i64)
        ensures
            n == self.rebalance,
    {
        self.rebalance
    }

    /// Adds to the rebalance time ns counter.
    pub fn inc_rebalance_time_ns(&mut self, n: i64)
        requires
            fits_i64(old(self).rebalance_time_ns + n),
        ensures
            *final(self) == (TxStats { rebalance_time_ns: (old(self).rebalance_time_ns + n) as i64, ..*old(self) }),
    {
        self.rebalance_time_ns = self.rebalance_time_ns + n;
    }

    /// The rebalance time ns counter.
    pub fn get_rebalance_time_ns(&self) -> (n: i64)
        ensures
            n == self.rebalance_time_ns,
    {
        self.rebalance_time_ns
    }

    /// Adds to the split counter.
    pub fn inc_split(&mut self, n: i64)
        requires
            fits_i64(old(self).split + n),
        ensures
            *final(self) == (TxStats { split: (old(self).split + n) as i64, ..*old(self) }),
    {
        self.split = self.split + n;
    }

    /// The split counter.
    pub fn get_split(&self) -> (n: i64)
        ensures
            n == self.split,
    {
        self.split
    }

    /// Adds to the spill counter.
    pub fn inc_spill(&mut self, n: i64)
        requires
            fits_i64(old(self).spill + n),
        ensures
            *final(self) == (TxStats { spill: (old(self).spill + n) as i64, ..*old(self) }),
    {
        self.spill = self.spill + n;
    }

    /// The spill counter.
    pub fn get_spill(&self) -> (n: i64)
        ensures
            n == self.spill,
    {
        self.spill
    }

    /// Adds to the spill time ns counter.
    pub fn inc_spill_time_ns(&mut self, n: i64)
        requires
            fits_i64(old(self).spill_time_ns + n),
        ensures
            *final(self) == (TxStats { spill_time_ns: (old(self).spill_time_ns + n) as i64, ..*old(self) }),
    {
        self.spill_time_ns = self.spill_time_ns + n;
    }

    /// The spill time ns counter.
    pub fn get_spill_time_ns(&self) -> (n: i64)
        ensures
            n == self.spill_time_ns,
    {
        self.spill_time_ns
    }

    /// Adds to the write counter.
    pub fn inc_write(&mut self, n: i64)
        requires
            fits_i64(old(self).write + n),
        ensures
            *final(self) == (TxStats { write: (old(self).write + n) as i64, ..*old(self) }),
    {
        self.write = self.write + n;
    }

    /// The write counter.
    pub fn get_write(&self) -> (n: i64)
        ensures
            n == self.write,
    {
        self.write
    }

    /// Adds to the write time ns counter.
    pub fn inc_write_time_ns(&mut self, n: i64)
        requires
            fits_i64(old(self).write_time_ns + n),
        ensures
            *final(self) == (TxStats { write_time_ns: (old(self).write_time_ns + n) as i64, ..*old(self) }),
    {
        self.write_time_ns = self.write_time_ns + n;
    }

    /// The write time ns counter.
    pub fn get_write_time_ns(&self) -> (n: i64)
        ensures
            n == self.write_time_ns,
    {
        self.write_time_ns
    }

    /// The sums of two sets of counters fit the counters.
    pub open spec fn can_add(self, other: TxStats) -> bool {
        &&& fits_i64(self.page_count + other.page_count)
        &&& fits_i64(self.page_alloc + other.page_alloc)
        &&& fits_i64(self.cursor_count + other.cursor_count)
        &&& fits_i64(self.node_count + other.node_count)
        &&& fits_i64(self.node_deref + other.node_deref)
        &&& fits_i64(self.rebalance + other.rebalance)
        &&& fits_i64(self.rebalance_time_ns + other.rebalance_time_ns)
        &&& fits_i64(self.split + other.split)
        &&& fits_i64(self.spill + other.spill)
        &&& fits_i64(self.spill_time_ns + other.spill_time_ns)
        &&& fits_i64(self.write + other.write)
        &&& fits_i64(self.write_time_ns + other.write_time_ns)
    }

    /// The differences of two sets of counters fit the counters.
    pub open spec fn can_sub(self, other: TxStats) -> bool {
        &&& fits_i64(self.page_count - other.page_count)
        &&& fits_i64(self.page_alloc - other.page_alloc)
        &&& fits_i64(self.cursor_count - other.cursor_count)
        &&& fits_i64(self.node_count - other.node_count)
        &&& fits_i64(self.node_deref - other.node_deref)
        &&& fits_i64(self.rebalance - other.rebalance)
        &&& fits_i64(self.rebalance_time_ns - other.rebalance_time_ns)
        &&& fits_i64(self.split - other.split)
        &&& fits_i64(self.spill - other.spill)
        &&& fits_i64(self.spill_time_ns - other.spill_time_ns)
        &&& fits_i64(self.write - other.write)
        &&& fits_i64(self.write_time_ns - other.write_time_ns)
    }

    /// The sums of two sets of counters.
    pub open spec fn plus(self, other: TxStats) -> TxStats {
        TxStats {
            page_count: (self.page_count + other.page_count) as i64,
            page_alloc: (self.page_alloc + other.page_alloc) as i64,
            cursor_count: (self.cursor_count + other.cursor_count) as i64,
            node_count: (self.node_count + other.node_count) as i64,
            node_deref: (self.node_deref + other.node_deref) as i64,
            rebalance: (self.rebalance + other.rebalance) as i64,
            rebalance_time_ns: (self.rebalance_time_ns + other.rebalance_time_ns) as i64,
            split: (self.split + other.split) as i64,
            spill: (self.spill + other.spill) as i64,
            spill_time_ns: (self.spill_time_ns + other.spill_time_ns) as i64,
            write: (self.write + other.write) as i64,
            write_time_ns: (self.write_time_ns + other.write_time_ns) as i64,
        }
    }

    /// The differences of two sets of counters.
    pub open spec fn minus(self, other: TxStats) -> TxStats {
        TxStats {
            page_count: (self.page_count - other.page_count) as i64,
            page_alloc: (self.page_alloc - other.page_alloc) as i64,
            cursor_count: (self.cursor_count - other.cursor_count) as i64,
            node_count: (self.node_count - other.node_count) as i64,
            node_deref: (self.node_deref - other.node_deref) as i64,
            rebalance: (self.rebalance - other.rebalance) as i64,
            rebalance_time_ns: (self.rebalance_time_ns - other.rebalance_time_ns) as i64,
            split: (self.split - other.split) as i64,
            spill: (self.spill - other.spill) as i64,
            spill_time_ns: (self.spill_time_ns - other.spill_time_ns) as i64,
            write: (self.write - other.write) as i64,
            write_time_ns: (self.write_time_ns - other.write_time_ns) as i64,
        }
    }

    /// Adds other counters to these.
    pub fn add(&mut self, other: &TxStats)
        requires
            old(self).can_add(*other),
        ensures
            *final(self) == old(self).plus(*other),
    {
        self.page_count = self.page_count + other.page_count;
        self.page_alloc = self.page_alloc + other.page_alloc;
        self.cursor_count = self.cursor_count + other.cursor_count;
        self.node_count = self.node_count + other.node_count;
        self.node_deref = self.node_deref + other.node_deref;
        self.rebalance = self.rebalance + other.rebalance;
        self.rebalance_time_ns = self.rebalance_time_ns + other.rebalance_time_ns;
        self.split = self.split + other.split;
        self.spill = self.spill + other.spill;
        self.spill_time_ns = self.spill_time_ns + other.spill_time_ns;
        self.write = self.write + other.write;
        self.write_time_ns = self.write_time_ns + other.write_time_ns;
    }

    /// The difference between these counters and earlier ones.
    pub fn sub(&self, other: &TxStats) -> (d: TxStats)
        requires
            self.can_sub(*other),
        ensures
            d == self.minus(*other),
    {
        TxStats {
            page_count: self.page_count - other.page_count,
            page_alloc: self.page_alloc - other.page_alloc,
            cursor_count: self.cursor_count - other.cursor_count,
            node_count: self.node_count - other.node_count,
            node_deref: self.node_deref - other.node_deref,
            rebalance: self.rebalance - other.rebalance,
            rebalance_time_ns: self.rebalance_time_ns - other.rebalance_time_ns,
            split: self.split - other.split,
            spill: self.spill - other.spill,
            spill_time_ns: self.spill_time_ns - other.spill_time_ns,
            write: self.write - other.write,
            write_time_ns: self.write_time_ns - other.write_time_ns,
        }
    }
}

/// In what order counters are added makes no difference, and zeros add nothing and take nothing off.
pub proof fn lemma_sums(a: TxStats, b: TxStats)
    requires
        a.can_add(b),
    ensures
        b.can_add(a),
        a.plus(b) == b.plus(a),
        a.plus(TxStats::zero()) == a,
        TxStats::zero().plus(a) == a,
        a.minus(TxStats::zero()) == a,
        a.minus(a) == TxStats::zero(),
{
}

/// Adding counters and taking them off again changes nothing.
pub proof fn lemma_add_sub(a: TxStats, b: TxStats)
    requires
        a.can_add(b),
    ensures
        a.plus(b).can_sub(b),
        a.plus(b).minus(b) == a,
{
}

/// Statistics of an open database.
#[derive(Clone, Debug)]
pub struct Stats {
    pub free_page_n: usize,
    pub pending_page_n: usize,
    pub free_alloc: usize,
    pub freelist_inuse: usize,
    pub tx_n: usize,
    pub open_tx_n: usize,
    pub tx_stats: TxStats,
}

impl Default for Stats {
    fn default() -> (s: Self)
        ensures
            s == (Stats {
                free_page_n: 0,
                pending_page_n: 0,
                free_alloc: 0,
                freelist_inuse: 0,
                tx_n: 0,
                open_tx_n: 0,
                tx_stats: TxStats::zero(),
            }),
    {
        Stats {
            free_page_n: 0,
            pending_page_n: 0,
            free_alloc: 0,
            freelist_inuse: 0,
            tx_n: 0,
            open_tx_n: 0,
            tx_stats: TxStats::default(),
        }
    }
}

impl Stats {
    /// The difference between this snapshot and an earlier one: of the counters, while what is
    /// no counter is taken from this snapshot.
    pub fn sub(&self, other: &Stats) -> (d: Stats)
        requires
            self.tx_stats.can_sub(other.tx_stats),
        ensures
            d == (Stats {
                tx_n: if self.tx_n >= other.tx_n { (self.tx_n - other.tx_n) as usize } else { 0 },
                tx_stats: self.tx_stats.minus(other.tx_stats),
                ..*self
            }),
    {
        Stats {
            free_page_n: self.free_page_n,
            pending_page_n: self.pending_page_n,
            free_alloc: self.free_alloc,
            freelist_inuse: self.freelist_inuse,
            tx_n: if self.tx_n >= other.tx_n {
                self.tx_n - other.tx_n
            } else {
                0
            },
            open_tx_n: self.open_tx_n,
            tx_stats: self.tx_stats.sub(&other.tx_stats),
        }
    }
}

/// What is known of an open database without a transaction.
#[derive(Clone, Debug)]
pub struct Info {
    pub page_size: usize,
}

/// A bucket with the number of its keys, and the buckets nested in it.
#[derive(Debug)]
pub struct BucketStructure {
    pub name: String,
    pub key_n: usize,
    pub children: Vec<BucketStructure>,
}

/// One entry of a page listing.
#[derive(Clone, Debug)]
pub struct PageInfo {
    pub id: Pgid,
    pub page_type: String,
    pub count: u16,
    pub overflow: u32,
}

/// Page and key statistics of a bucket.
#[derive(Clone, Copy, Debug, PartialEq, Eq, Structural)]
pub struct BucketStats {
    pub branch_page_n: usize,
    pub branch_overflow_n: usize,
    pub leaf_page_n: usize,
    pub leaf_overflow_n: usize,
    pub key_n: usize,
    pub depth: usize,
    pub branch_alloc: usize,
    pub branch_inuse: usize,
    pub leaf_alloc: usize,
    pub leaf_inuse: usize,
    pub bucket_n: usize,
    pub inline_bucket_n: usize,
    pub inline_bucket_inuse: usize,
}

impl Default for BucketStats {
    fn default() -> (s: Self)
        ensures
            s == BucketStats::zero(),
    {
        BucketStats {
            branch_page_n: 0,
            branch_overflow_n: 0,
            leaf_page_n: 0,
            leaf_overflow_n: 0,
            key_n: 0,
            depth: 0,
            branch_alloc: 0,
            branch_inuse: 0,
            leaf_alloc: 0,
            leaf_inuse: 0,
            bucket_n: 0,
            inline_bucket_n: 0,
            inline_bucket_inuse: 0,
        }
    }
}

impl BucketStats {
    /// All numbers at zero.
    pub open spec fn zero() -> BucketStats {
        BucketStats {
            branch_page_n: 0,
            branch_overflow_n: 0,
            leaf_page_n: 0,
            leaf_overflow_n: 0,
            key_n: 0,
            depth: 0,
            branch_alloc: 0,
            branch_inuse: 0,
            leaf_alloc: 0,
            leaf_inuse: 0,
            bucket_n: 0,
            inline_bucket_n: 0,
            inline_bucket_inuse: 0,
        }
    }

    /// The sums of two sets of numbers can be represented.
    pub open spec fn can_add(self, other: BucketStats) -> bool {
        &&& self.branch_page_n + other.branch_page_n <= usize::MAX
        &&& self.branch_overflow_n + other.branch_overflow_n <= usize::MAX
        &&& self.leaf_page_n + other.leaf_page_n <= usize::MAX
        &&& self.leaf_overflow_n + other.leaf_overflow_n <= usize::MAX
        &&& self.key_n + other.key_n <= usize::MAX
        &&& self.branch_alloc + other.branch_alloc <= usize::MAX
        &&& self.branch_inuse + other.branch_inuse <= usize::MAX
        &&& self.leaf_alloc + other.leaf_alloc <= usize::MAX
        &&& self.leaf_inuse + other.leaf_inuse <= usize::MAX
        &&& self.bucket_n + other.bucket_n <= usize::MAX
        &&& self.inline_bucket_n + other.inline_bucket_n <= usize::MAX
        &&& self.inline_bucket_inuse + other.inline_bucket_inuse <= usize::MAX
    }

    /// The numbers of two parts of a bucket together. Their depth is that of the deeper one.
    pub open spec fn plus(self, other: BucketStats) -> BucketStats {
        BucketStats {
            branch_page_n: (self.branch_page_n + other.branch_page_n) as usize,
            branch_overflow_n: (self.branch_overflow_n + other.branch_overflow_n) as usize,
            leaf_page_n: (self.leaf_page_n + other.leaf_page_n) as usize,
            leaf_overflow_n: (self.leaf_overflow_n + other.leaf_overflow_n) as usize,
            key_n: (self.key_n + other.key_n) as usize,
            depth: if other.depth > self.depth { other.depth } else { self.depth },
            branch_alloc: (self.branch_alloc + other.branch_alloc) as usize,
            branch_inuse: (self.branch_inuse + other.branch_inuse) as usize,
            leaf_alloc: (self.leaf_alloc + other.leaf_alloc) as usize,
            leaf_inuse: (self.leaf_inuse + other.leaf_inuse) as usize,
            bucket_n: (self.bucket_n + other.bucket_n) as usize,
            inline_bucket_n: (self.inline_bucket_n + other.inline_bucket_n) as usize,
            inline_bucket_inuse: (self.inline_bucket_inuse + other.inline_bucket_inuse) as usize,
        }
    }

    /// Adds the numbers of another part of a bucket.
    pub fn add(&mut self, other: &BucketStats)
        requires
            old(self).can_add(*other),
        ensures
            *final(self) == old(self).plus(*other),
    {
        self.branch_page_n = self.branch_page_n + other.branch_page_n;
        self.branch_overflow_n = self.branch_overflow_n + other.branch_overflow_n;
        self.leaf_page_n = self.leaf_page_n + other.leaf_page_n;
        self.leaf_overflow_n = self.leaf_overflow_n + other.leaf_overflow_n;
        self.key_n = self.key_n + other.key_n;
        if other.depth > self.depth {
            self.depth = other.depth;
        }
        self.branch_alloc = self.branch_alloc + other.branch_alloc;
        self.branch_inuse = self.branch_inuse + other.branch_inuse;
        self.leaf_alloc = self.leaf_alloc + other.leaf_alloc;
        self.leaf_inuse = self.leaf_inuse + other.leaf_inuse;
        self.bucket_n = self.bucket_n + other.bucket_n;
        self.inline_bucket_n = self.inline_bucket_n + other.inline_bucket_n;
        self.inline_bucket_inuse = self.inline_bucket_inuse + other.inline_bucket_inuse;
    }
}

/// The numbers of two parts of a bucket together are their sums, and together they are as deep as the
/// deeper one.
pub proof fn lemma_together(a: BucketStats, b: BucketStats)
    requires
        a.can_add(b),
    ensures
        a.plus(b) == b.plus(a),
        a.plus(BucketStats::zero()) == a,
        a.plus(b).branch_page_n - a.branch_page_n == b.branch_page_n,
        a.plus(b).branch_overflow_n - a.branch_overflow_n == b.branch_overflow_n,
        a.plus(b).leaf_page_n - a.leaf_page_n == b.leaf_page_n,
        a.plus(b).leaf_overflow_n - a.leaf_overflow_n == b.leaf_overflow_n,
        a.plus(b).key_n - a.key_n == b.key_n,
        a.plus(b).branch_alloc - a.branch_alloc == b.branch_alloc,
        a.plus(b).branch_inuse - a.branch_inuse == b.branch_inuse,
        a.plus(b).leaf_alloc - a.leaf_alloc == b.leaf_alloc,
        a.plus(b).leaf_inuse - a.leaf_inuse == b.leaf_inuse,
        a.plus(b).bucket_n - a.bucket_n == b.bucket_n,
        a.plus(b).inline_bucket_n - a.inline_bucket_n == b.inline_bucket_n,
        a.plus(b).inline_bucket_inuse - a.inline_bucket_inuse == b.inline_bucket_inuse,
        a.plus(b).depth >= a.depth,
        a.plus(b).depth >= b.depth,
        a.plus(b).depth == a.depth || a.plus(b).depth == b.depth,
{
}

} // verus!
