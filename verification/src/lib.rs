//! An embedded key/value store in a single file: nested buckets of sorted keys, kept in B+trees of
//! pages, with one writer and many readers at a time.
//!
//! A transaction works on the image of the file as it was when the transaction began. A commit
//! changes nothing that can still be read: it gives a plan of new pages and, last, a new meta page.
//!
//! The library holds the format and the rules. Reading, mapping, locking and writing the file is
//! left to its user, who hands in an image and carries out the plan:
//!
//! - `page`, `inode`, `pgids`, `format`: the layout of pages, and the same field by field in plain numbers.
//! - `order`, `tree`, `node`: keys in order, trees of pages, and nodes that are changed in memory.
//! - `freelist`, `freeset`, `spans`, `readers`: the pages that can be used again, and when.
//! - `bucket`, `tx`, `nesting`, `search`, `terms`: buckets, what can be done with them, and on which terms.
//! - `cursor`, `scan`, `path`, `leaves`, `visit`: going through the keys of a bucket.
//! - `join`, `balance`, `split`, `row`, `spill`, `seal`, `closing`, `commit`, `plan`: from nodes in
//!   memory to pages in the file.
//! - `edits`, `tending`, `layout`, `phases`: which nodes are changed, joined, split and written on the
//!   way, and to which pages.
//! - `pieces`, `sizing`, `budget`, `demand`: what is written piece by piece, whether it can be, and how
//!   far it makes the file grow.
//! - `ledger`, `writer`, `release`, `reach`: which page belongs to whom.
//! - `snapshot`, `lifecycle`, `recovery`, `reclaim`, `file`, `fresh`: how transactions begin and end,
//!   and what is in the file at any time.
//! - `contents`, `laws`, `ripple`, `changes`, `update`: what a database holds, what changes do to it, and what
//!   reads give back of writes.
//! - `check`, `guard`, `healthy`, `damage`, `naming`: the search for damage, where it can be made, why it
//!   finds none where there is none, and why it finds and names any that there is.
//! - `compact`, `replay`, `turns`, `backup`: copying a database, and why the copy is exact.
//! - `stats`, `bucket_stats`, `census`: counting, and what the numbers mean.
//! - `inspect`, `batch`, `bench`, `text`: other tools.
pub mod access;
pub mod backup;
pub mod balance;
pub mod batch;
pub mod bench;
pub mod bucket;
pub mod bucket_stats;
pub mod budget;
pub mod bytes;
pub mod census;
pub mod changes;
pub mod check;
pub mod closing;
pub mod commit;
pub mod compact;
pub mod contents;
pub mod cursor;
pub mod damage;
pub mod demand;
pub mod edits;
pub mod error;
pub mod file;
pub mod format;
pub mod freelist;
pub mod freeset;
pub mod fresh;
pub mod guard;
pub mod healthy;
pub mod inode;
pub mod inspect;
pub mod join;
pub mod laws;
pub mod layout;
pub mod leaves;
pub mod ledger;
pub mod lifecycle;
pub mod naming;
pub mod nesting;
pub mod node;
pub mod order;
pub mod page;
pub mod path;
pub mod pgids;
pub mod phases;
pub mod pieces;
pub mod plan;
pub mod reach;
pub mod readers;
pub mod reclaim;
pub mod recovery;
pub mod release;
pub mod replay;
pub mod ripple;
pub mod row;
pub mod scan;
pub mod seal;
pub mod search;
pub mod sizing;
pub mod snapshot;
pub mod spans;
pub mod spill;
pub mod split;
pub mod stats;
pub mod tending;
pub mod terms;
pub mod text;
pub mod tree;
pub mod turns;
pub mod tx;
pub mod update;
pub mod visit;
pub mod writer;

pub use check::CheckOptions;
pub use error::{Error, Result};
pub use file::Options;
pub use freeset::FreelistType;
pub use inode::{branch_at, leaf_at, read_inodes, write_inodes, Inode};
pub use page::{PageHeader, Pgid, Txid, BRANCH_PAGE_FLAG, LEAF_PAGE_ELEMENT_SIZE, LEAF_PAGE_FLAG, MAGIC, MAX_KEY_SIZE, MAX_VALUE_SIZE, PAGE_HEADER_SIZE, VERSION};
pub use scan::{Cursor, KeyValue};
pub use stats::{BucketStructure, Info, PageInfo, Stats, TxStats};
pub use tx::TxInner;
