//! A copy that is made in several transactions.
use vstd::prelude::*;
use crate::closing::open_contents;
use crate::compact::{cut_up, cuts, refused_after, steps_of, StepV};
use crate::contents::{contents, Item};
use crate::freelist::FreelistV;
use crate::lifecycle::begun_meta;
use crate::node::{Base, Pages};
use crate::page::{MAX_KEY_SIZE, MAX_VALUE_SIZE};
use crate::plan::CommitPlan;
use crate::recovery::{lemma_new_stored, written_out};
use crate::replay::{goes, lemma_copy_exact, lemma_copy_goes, lemma_replayed_add, replayed, tidy};
use crate::snapshot::stored;
use crate::tree::Key;
use crate::tx::{list_known, TxInner};

verus! {

/// One transaction of a copy: as it was when it began and after its steps, what its commit gave, and
/// the file then.
pub struct Turn<'a> {
    pub begun: TxInner<'a>,
    pub done: TxInner<'a>,
    pub steps: Seq<StepV>,
    pub plan: CommitPlan,
    pub list0: FreelistV,
    pub list1: FreelistV,
    pub no_sync: bool,
    pub after: Pages<'a>,
}

/// What the root bucket of a transaction holds, with all that is nested in it.
pub open spec fn held_by(tx: TxInner) -> Seq<(Key, Item)> {
    open_contents(tx.buckets@, tx.base@, 0)
}

impl<'a> Turn<'a> {
    /// The steps were carried out one after the other, the transaction was committed, and what the
    /// commit gave was written to the file.
    #[verifier::opaque]
    pub open spec fn ok(self) -> bool {
        let last = self.done;
        &&& held_by(last) == replayed(held_by(self.begun), self.steps)
        &&& last.good()
        &&& last.committed(self.plan, self.list0, self.list1, self.no_sync)
        &&& self.after.page_size == last.pages.page_size
        &&& written_out(last.pages.image@, self.after.image@, self.after.page_size as int, self.plan)
    }

    /// The transaction began on the file that `before` left.
    pub open spec fn follows(self, before: Turn<'a>) -> bool {
        let tx = self.begun;
        &&& tx.pages == before.after
        &&& tx.meta == begun_meta(before.plan.meta, true)
        &&& forall|base: Base| #[trigger]
            stored(before.after, tx.meta, base) ==> held_by(tx) == contents(base.forest[tx.meta.root.root])
    }

    /// What the file leads to after the transaction.
    pub open spec fn gave(self) -> Seq<(Key, Item)> {
        contents(self.plan.base@.forest[self.plan.meta.root.root])
    }
}

/// The steps of all transactions.
pub open spec fn all_steps(turns: Seq<Turn>) -> Seq<StepV>
    decreases turns.len(),
{
    if turns.len() == 0 {
        Seq::empty()
    } else {
        all_steps(turns.drop_last()) + turns.last().steps
    }
}

/// After a transaction the file leads to what it held in the end.
proof fn lemma_given(turn: Turn)
    requires
        turn.ok(),
    ensures
        stored(turn.after, turn.plan.meta, turn.plan.base@),
        turn.gave() == replayed(held_by(turn.begun), turn.steps),
{
    reveal(Turn::ok);
    lemma_new_stored(turn.done, turn.plan, turn.list0, turn.list1, turn.no_sync, turn.after);
}

/// The next transaction begins with what the file leads to.
proof fn lemma_begun(turn: Turn, before: Turn)
    requires
        turn.follows(before),
        stored(before.after, before.plan.meta, before.plan.base@),
    ensures
        held_by(turn.begun) == before.gave(),
{
    let meta = begun_meta(before.plan.meta, true);
    assert(stored(before.after, meta, before.plan.base@)) by {
        reveal(list_known);
    }
}

/// Steps that are carried out in several transactions, each of which begins on what the one before
/// it has committed, take the file to where they would take it in one. Where a transaction ends and
/// the next one begins makes no difference.
pub proof fn lemma_turns(turns: Seq<Turn>)
    requires
        turns.len() > 0,
        forall|k: int| 0 <= k < turns.len() ==> (#[trigger] turns[k]).ok(),
        forall|k: int| 0 < k < turns.len() ==> (#[trigger] turns[k]).follows(turns[k - 1]),
    ensures
        stored(turns.last().after, turns.last().plan.meta, turns.last().plan.base@),
        turns.last().gave() == replayed(held_by(turns[0].begun), all_steps(turns)),
    decreases turns.len(),
{
    let n = turns.len() - 1;
    let last = turns[n];
    lemma_given(last);
    let front = turns.drop_last();
    if n == 0 {
        assert(all_steps(front) =~= Seq::<StepV>::empty());
        assert(all_steps(turns) =~= last.steps);
    } else {
        assert forall|k: int| 0 <= k < front.len() implies (#[trigger] front[k]).ok() by {
            assert(front[k] == turns[k]);
        }
        assert forall|k: int| 0 < k < front.len() implies (#[trigger] front[k]).follows(front[k - 1]) by {
            assert(front[k] == turns[k]);
            assert(turns[k].follows(turns[k - 1]));
        }
        lemma_turns(front);
        assert(front.last() == turns[n - 1]);
        lemma_begun(last, turns[n - 1]);
        lemma_replayed_add(held_by(turns[0].begun), all_steps(front), last.steps);
    }
}

/// A copy into an empty database holds all that was copied, and nothing else, however many
/// transactions it was made in and wherever these ended.
pub proof fn lemma_copy_in_turns(turns: Seq<Turn>, held: Seq<(Key, Item)>, sequence: u64)
    requires
        turns.len() > 0,
        forall|k: int| 0 <= k < turns.len() ==> (#[trigger] turns[k]).ok(),
        forall|k: int| 0 < k < turns.len() ==> (#[trigger] turns[k]).follows(turns[k - 1]),
        held_by(turns[0].begun).len() == 0,
        all_steps(turns) == steps_of(held, Seq::empty(), sequence),
        tidy(held),
    ensures
        stored(turns.last().after, turns.last().plan.meta, turns.last().plan.base@),
        turns.last().gave() == held,
{
    lemma_turns(turns);
    lemma_copy_exact(held, sequence);
    assert(held_by(turns[0].begun) =~= Seq::<(Key, Item)>::empty());
}

/// The steps of the `k`th transaction of a copy.
pub open spec fn turn_steps(steps: Seq<StepV>, ends: Seq<int>, k: int) -> Seq<StepV> {
    steps.subrange(if k == 0 { 0 } else { ends[k - 1] }, ends[k])
}

/// The transactions of a copy end one after the other.
proof fn lemma_cuts(steps: Seq<StepV>, tx_max_size: int, n: int)
    requires
        0 <= n <= steps.len(),
    ensures
        ({
            let ends = cut_up(steps, tx_max_size, n).0;
            forall|i: int, j: int| 0 <= i <= j < ends.len() ==> 0 <= #[trigger] ends[i] <= #[trigger] ends[j] && ends[j] < n
        }),
    decreases n,
{
    if n > 0 {
        lemma_cuts(steps, tx_max_size, n - 1);
        let before = cut_up(steps, tx_max_size, n - 1).0;
        let ends = cut_up(steps, tx_max_size, n).0;
        assert(ends == before || ends == before.push(n - 1));
        assert forall|i: int, j: int| 0 <= i <= j < ends.len() implies 0 <= #[trigger] ends[i] <= #[trigger] ends[j]
            && ends[j] < n by {
            if j < before.len() {
                assert(0 <= before[i] <= before[j]);
            } else if i < before.len() {
                assert(0 <= before[i] <= before[i]);
            }
        }
    }
}

/// Together the transactions carry out all steps up to where the last of them ends.
proof fn lemma_all_steps(turns: Seq<Turn>, steps: Seq<StepV>, ends: Seq<int>)
    requires
        0 < turns.len() <= ends.len(),
        forall|k: int| 0 <= k < turns.len() ==> (#[trigger] turns[k]).steps == turn_steps(steps, ends, k),
        forall|i: int, j: int|
            0 <= i <= j < ends.len() ==> 0 <= #[trigger] ends[i] <= #[trigger] ends[j] && ends[j] <= steps.len(),
    ensures
        all_steps(turns) == steps.take(ends[turns.len() - 1]),
    decreases turns.len(),
{
    let n = turns.len() - 1;
    let front = turns.drop_last();
    assert(turns[n].steps == turn_steps(steps, ends, n));
    assert(0 <= ends[n] <= ends[n]);
    if n == 0 {
        assert(all_steps(front) =~= Seq::<StepV>::empty());
        assert(all_steps(turns) =~= steps.take(ends[0]));
    } else {
        assert forall|k: int| 0 <= k < front.len() implies (#[trigger] front[k]).steps == turn_steps(steps, ends, k) by {
            assert(front[k] == turns[k]);
        }
        lemma_all_steps(front, steps, ends);
        assert(ends[n - 1] <= ends[n]);
        assert(all_steps(turns) =~= steps.take(ends[n]));
    }
}

/// A database is copied into an empty one in transactions that end where the limit on their size says.
/// The copy then holds all that was copied, each bucket with its keys, values and sequence number,
/// and nothing else, whatever the limit is.
pub proof fn lemma_compact(turns: Seq<Turn>, held: Seq<(Key, Item)>, sequence: u64, tx_max_size: int)
    requires
        tidy(held),
        ({
            let steps = steps_of(held, Seq::empty(), sequence);
            let ends = cuts(steps, tx_max_size);
            &&& turns.len() == ends.len()
            &&& forall|k: int| 0 <= k < turns.len() ==> (#[trigger] turns[k]).steps == turn_steps(steps, ends, k)
        }),
        forall|k: int| 0 <= k < turns.len() ==> (#[trigger] turns[k]).ok(),
        forall|k: int| 0 < k < turns.len() ==> (#[trigger] turns[k]).follows(turns[k - 1]),
        held_by(turns[0].begun).len() == 0,
    ensures
        stored(turns.last().after, turns.last().plan.meta, turns.last().plan.base@),
        turns.last().gave() == held,
{
    let steps = steps_of(held, Seq::empty(), sequence);
    let n = steps.len() as int;
    let ends = cuts(steps, tx_max_size);
    lemma_cuts(steps, tx_max_size, n);
    assert(ends.last() == n);
    lemma_all_steps(turns, steps, ends);
    assert(steps.take(n) =~= steps);
    lemma_copy_in_turns(turns, held, sequence);
}

/// What some steps write: the bytes of their keys and of their values.
pub open spec fn written_bytes(steps: Seq<StepV>) -> int
    decreases steps.len(),
{
    if steps.len() == 0 {
        0
    } else {
        let step = steps.last();
        written_bytes(steps.drop_last()) + step.key.len() + (match step.value {
            Some(v) => v.len() as int,
            None => 0,
        })
    }
}

/// Where transaction `k` of a copy begins.
pub open spec fn turn_from(ends: Seq<int>, k: int) -> int {
    if k == 0 {
        0
    } else {
        ends[k - 1]
    }
}

/// Transaction `k` keeps within the limit unless it has one step only, and could not have taken the
/// step that follows it.
spec fn filled(steps: Seq<StepV>, ends: Seq<int>, tx_max_size: int, k: int) -> bool {
    let from = turn_from(ends, k);
    &&& 0 <= from <= ends[k] < steps.len()
    &&& written_bytes(steps.subrange(from, ends[k])) <= tx_max_size || ends[k] == from + 1
    &&& written_bytes(steps.subrange(from, ends[k] + 1)) > tx_max_size
}

proof fn lemma_filled(steps: Seq<StepV>, tx_max_size: int, n: int)
    requires
        0 <= n <= steps.len(),
        tx_max_size > 0,
    ensures
        ({
            let (ends, size) = cut_up(steps, tx_max_size, n);
            let from = turn_from(ends, ends.len() as int);
            &&& 0 <= from <= n
            &&& size == written_bytes(steps.subrange(from, n))
            &&& size <= tx_max_size || n == from + 1
            &&& forall|k: int| 0 <= k < ends.len() ==> #[trigger] filled(steps, ends, tx_max_size, k)
        }),
    decreases n,
{
    if n > 0 {
        lemma_filled(steps, tx_max_size, n - 1);
        let (before, size) = cut_up(steps, tx_max_size, n - 1);
        let (ends, next) = cut_up(steps, tx_max_size, n);
        let from = turn_from(before, before.len() as int);
        assert(steps.subrange(from, n).drop_last() =~= steps.subrange(from, n - 1));
        assert(steps.subrange(from, n).last() == steps[n - 1]);
        if ends != before {
            assert(ends == before.push(n - 1));
            let one = steps.subrange(n - 1, n);
            assert(one.drop_last() =~= Seq::<StepV>::empty());
            assert(one.last() == steps[n - 1]);
            assert(written_bytes(one.drop_last()) == 0);
            assert forall|k: int| 0 <= k < ends.len() implies #[trigger] filled(steps, ends, tx_max_size, k) by {
                if k < before.len() {
                    assert(filled(steps, before, tx_max_size, k));
                }
            }
        }
    } else {
        assert(steps.subrange(0, 0) =~= Seq::<StepV>::empty());
    }
}

proof fn lemma_uncut(steps: Seq<StepV>, n: int)
    requires
        0 <= n <= steps.len(),
    ensures
        cut_up(steps, 0, n).0.len() == 0,
    decreases n,
{
    if n > 0 {
        lemma_uncut(steps, n - 1);
    }
}

/// The transactions of a copy follow each other and take all steps. Without a limit there is one. With
/// a limit none writes more than that, unless it has one step only, and each but the last would write
/// more with the next step.
pub proof fn lemma_turns_filled(steps: Seq<StepV>, tx_max_size: int, k: int)
    requires
        tx_max_size >= 0,
        0 <= k < cuts(steps, tx_max_size).len(),
    ensures
        ({
            let ends = cuts(steps, tx_max_size);
            let from = turn_from(ends, k);
            let turn = turn_steps(steps, ends, k);
            &&& ends.last() == steps.len()
            &&& 0 <= from <= ends[k] <= steps.len()
            &&& turn == steps.subrange(from, ends[k])
            &&& tx_max_size == 0 ==> ends.len() == 1 && turn == steps
            &&& tx_max_size > 0 ==> written_bytes(turn) <= tx_max_size || turn.len() == 1
            &&& k < ends.len() - 1 ==> ends[k] < steps.len() && written_bytes(turn.push(steps[ends[k]])) > tx_max_size
        }),
{
    let n = steps.len() as int;
    let ends = cuts(steps, tx_max_size);
    let inner = cut_up(steps, tx_max_size, n).0;
    if tx_max_size == 0 {
        lemma_uncut(steps, n);
        assert(turn_steps(steps, ends, 0) =~= steps);
        assert(steps.subrange(0, n) =~= steps);
    } else {
        lemma_filled(steps, tx_max_size, n);
        let from = turn_from(ends, k);
        if k < inner.len() {
            assert(filled(steps, inner, tx_max_size, k));
            assert(steps.subrange(from, ends[k] + 1) =~= steps.subrange(from, ends[k]).push(steps[ends[k]]));
        }
        assert(turn_steps(steps, ends, k) =~= steps.subrange(from, ends[k]));
    }
}

/// Steps with keys and values that can be put. There are only buckets at the top.
pub open spec fn plain(steps: Seq<StepV>) -> bool {
    forall|k: int|
        0 <= k < steps.len() ==> {
            &&& 0 < (#[trigger] steps[k]).key.len() <= MAX_KEY_SIZE
            &&& steps[k].value matches Some(v) ==> v.len() <= MAX_VALUE_SIZE && steps[k].path.len() > 0
        }
}

/// No step of a copy into an empty database is refused, in whatever transaction its turn comes and
/// wherever that begins.
pub proof fn lemma_not_refused(tx: TxInner, held: Seq<(Key, Item)>, sequence: u64, from: int, k: int)
    requires
        tidy(held),
        plain(steps_of(held, Seq::empty(), sequence)),
        0 <= from,
        0 <= k,
        from + k < steps_of(held, Seq::empty(), sequence).len(),
        held_by(tx) == replayed(Seq::empty(), steps_of(held, Seq::empty(), sequence).take(from)),
        tx.shut() is None,
        tx.fixed() is None,
    ensures
        refused_after(tx, held_by(tx), steps_of(held, Seq::empty(), sequence), from, k) is None,
{
    lemma_copy_goes(held, sequence);
    let steps = steps_of(held, Seq::empty(), sequence);
    lemma_replayed_add(Seq::empty(), steps.take(from), steps.subrange(from, from + k));
    assert(steps.take(from) + steps.subrange(from, from + k) =~= steps.take(from + k));
    assert(goes(replayed(Seq::empty(), steps.take(from + k)), steps[from + k]));
}

} // verus!
