//! Looking for damage in a database.
use std::collections::HashSet;
use vstd::prelude::*;
use vstd::slice::slice_to_vec;
use crate::error::{error_text, Error, Result};
use crate::inode::{branch_at, branch_elem, branch_ok, leaf_at, leaf_elem, leaf_ok};
use crate::lifecycle::unreadable;
use crate::node::Pages;
use crate::order::{key_equal, key_less, less, less_eq};
use crate::page::{header_of, page_type_name, BRANCH_PAGE_FLAG, BUCKET_LEAF_FLAG, InBucket, LEAF_PAGE_FLAG, Meta, PGID_NO_FREELIST, PageHeader, Pgid};
use crate::text::{decimal, digits, hex_key, hex_of, list_text, push_decimal, push_digits, push_list};
use crate::tree::{is_bucket, root_of, Key};

verus! {

broadcast use vstd::std_specs::hash::group_hash_axioms;

/// What to look at.
#[derive(Clone, Copy, Debug, PartialEq, Eq, Structural)]
pub struct CheckOptions {
    /// The page to begin at, or zero for the whole database.
    pub page_id: u64,
}

impl Default for CheckOptions {
    fn default() -> (o: Self)
        ensures
            o.page_id == 0,
    {
        CheckOptions { page_id: 0 }
    }
}

/// The text of a complaint.
pub type Text = Seq<char>;

/// What was found: the pages that were met, the complaints, and the page that could not be read,
/// where that ended the search.
#[verifier::ext_equal]
pub struct Report {
    pub reach: Set<Pgid>,
    pub errs: Seq<Text>,
    pub halt: Option<Text>,
}

impl Report {
    /// One more complaint.
    pub open spec fn with(self, text: Text) -> Report {
        Report { errs: self.errs.push(text), ..self }
    }

    /// The same, if `wrong`.
    pub open spec fn with_if(self, wrong: bool, text: Text) -> Report {
        if wrong {
            self.with(text)
        } else {
            self
        }
    }

    /// The search ends here.
    pub open spec fn halted(self, text: Text) -> Report {
        Report { halt: Some(text), ..self }
    }
}

// ---------------------------------------------------------------------------------------------
// The complaints.

pub open spec fn again_freed_text(p: Pgid) -> Text {
    "page "@ + decimal(p as nat) + ": already freed"@
}

pub open spec fn unreachable_text(p: Pgid) -> Text {
    "page "@ + decimal(p as nat) + ": unreachable unfreed"@
}

pub open spec fn range_text(p: Pgid, hwm: Pgid) -> Text {
    "page ID ("@ + decimal(p as nat) + ") out of range [2, "@ + decimal(hwm as nat) + ")"@
}

pub open spec fn bounds_text(p: Pgid, hwm: Pgid, stack: Seq<Pgid>) -> Text {
    "page "@ + decimal(p as nat) + ": out of bounds: "@ + decimal(hwm as nat) + " (stack: "@ + list_text(stack) + ")"@
}

pub open spec fn twice_text(p: Pgid, stack: Seq<Pgid>) -> Text {
    "page "@ + decimal(p as nat) + ": multiple references (stack: "@ + list_text(stack) + ")"@
}

pub open spec fn freed_text(p: Pgid) -> Text {
    "page "@ + decimal(p as nat) + ": reachable freed"@
}

pub open spec fn type_text(p: Pgid, flags: u16, stack: Seq<Pgid>) -> Text {
    "page "@ + decimal(p as nat) + ": invalid type: "@ + page_type_name(flags) + " (stack: "@ + list_text(stack) + ")"@
}

pub open spec fn unexpected_text(p: Pgid, flags: u16) -> Text {
    "unexpected page type (flags: "@ + digits(flags as nat, 16) + ") for pgId:"@ + decimal(p as nat)
}

pub open spec fn below_text(p: Pgid, key: Key, stack: Seq<Pgid>) -> Text {
    "page "@ + decimal(p as nat) + ": key \""@ + hex_of(key) + "\" < min (stack: "@ + list_text(stack) + ")"@
}

pub open spec fn above_text(p: Pgid, key: Key, stack: Seq<Pgid>) -> Text {
    "page "@ + decimal(p as nat) + ": key \""@ + hex_of(key) + "\" >= max (stack: "@ + list_text(stack) + ")"@
}

pub open spec fn order_text(p: Pgid, prev: Key, key: Key, stack: Seq<Pgid>) -> Text {
    "page "@ + decimal(p as nat) + ": out of order keys: \""@ + hex_of(prev) + "\" >= \""@ + hex_of(key)
        + "\" (stack: "@ + list_text(stack) + ")"@
}

// ---------------------------------------------------------------------------------------------
// What is looked at.

/// The pages that a branch page names.
pub open spec fn kids_of(page: Seq<u8>) -> Seq<Pgid> {
    Seq::new(header_of(page).count as nat, |i: int| branch_elem(page, i).pgid)
}

/// The root page of the bucket that element `i` of a leaf page holds, or zero.
pub open spec fn bucket_root(page: Seq<u8>, i: int) -> Pgid {
    let item = leaf_elem(page, i);
    if is_bucket(item) && item.value.len() >= 16 {
        root_of(item)
    } else {
        0
    }
}

/// Page `p` and all that it leads to can be gone through in at most `n` steps down, and the pages
/// are not cut off inside.
#[verifier::opaque]
pub open spec fn bounded(pages: Pages, p: Pgid, n: nat) -> bool
    decreases n,
{
    pages.has(p) ==> {
        let page = pages.bytes(p);
        let hdr = header_of(page);
        &&& n > 0
        &&& hdr.id + hdr.overflow <= u64::MAX
        &&& hdr.flags == BRANCH_PAGE_FLAG ==> {
            &&& forall|i: int| 0 <= i < hdr.count ==> #[trigger] branch_ok(page, i)
            &&& forall|i: int| 0 <= i < hdr.count ==> bounded(pages, #[trigger] kids_of(page)[i], (n - 1) as nat)
        }
        &&& hdr.flags == LEAF_PAGE_FLAG ==> {
            &&& forall|i: int| 0 <= i < hdr.count ==> #[trigger] leaf_ok(page, i)
            &&& forall|i: int|
                0 <= i < hdr.count && #[trigger] bucket_root(page, i) != 0 ==> bounded(
                    pages,
                    bucket_root(page, i),
                    (n - 1) as nat,
                )
        }
    }
}

/// The same of a page that may be none.
pub open spec fn bounded_root(pages: Pages, p: Pgid, n: nat) -> bool {
    p != 0 ==> bounded(pages, p, n)
}

/// What is looked through, and what counts as in use or free.
pub struct Scope<'a> {
    pub pages: Pages<'a>,
    pub hwm: Pgid,
    pub freed: Set<Pgid>,
}

/// The pages from `p` on with their overflow, `k` of them, were met.
pub open spec fn met(r: Report, p: Pgid, k: nat, stack: Seq<Pgid>) -> Report
    decreases k,
{
    if k == 0 {
        r
    } else {
        let before = met(r, p, (k - 1) as nat, stack);
        let q = (p + k - 1) as u64;
        let after = before.with_if(before.reach.contains(q), twice_text(q, stack));
        Report { reach: after.reach.insert(q), ..after }
    }
}

/// A page was met: its id must be in bounds, it must not have been met before or be free, and it
/// must be a branch or a leaf.
pub open spec fn verified(s: Scope, page: Seq<u8>, stack: Seq<Pgid>, r: Report) -> Report {
    let hdr = header_of(page);
    let r1 = r.with_if(hdr.id > s.hwm, bounds_text(hdr.id, s.hwm, stack));
    let r2 = met(r1, hdr.id, (hdr.overflow + 1) as nat, stack);
    if s.freed.contains(hdr.id) {
        r2.with(freed_text(hdr.id))
    } else {
        r2.with_if(
            hdr.flags != BRANCH_PAGE_FLAG && hdr.flags != LEAF_PAGE_FLAG,
            type_text(hdr.id, hdr.flags, stack),
        )
    }
}

/// All pages of one tree are met, each before those below it.
pub open spec fn visited(s: Scope, stack: Seq<Pgid>, n: nat, r: Report) -> Report
    decreases n, 0nat,
{
    let p = stack.last();
    match unreadable(s.pages, p) {
        Some(t) => r.halted(t),
        None => {
            let page = s.pages.bytes(p);
            let r1 = verified(s, page, stack, r);
            if header_of(page).flags == BRANCH_PAGE_FLAG && n > 0 {
                visited_kids(s, stack, kids_of(page), kids_of(page).len(), (n - 1) as nat, r1)
            } else {
                r1
            }
        },
    }
}

/// The first `k` of the pages below a branch page are met.
pub open spec fn visited_kids(s: Scope, stack: Seq<Pgid>, kids: Seq<Pgid>, k: nat, n: nat, r: Report) -> Report
    decreases n, k + 1,
{
    if k == 0 {
        r
    } else {
        let before = visited_kids(s, stack, kids, (k - 1) as nat, n, r);
        if before.halt is Some {
            before
        } else {
            visited(s, stack.push(kids[k - 1]), n, before)
        }
    }
}

/// The first `k` keys of a leaf page lie between `lo` and `hi` and are in order.
pub open spec fn ordered_leaf(
    p: Pgid,
    page: Seq<u8>,
    lo: Option<Key>,
    hi: Option<Key>,
    stack: Seq<Pgid>,
    k: nat,
    r: Report,
) -> Report
    decreases k,
{
    if k == 0 {
        r
    } else {
        let before = ordered_leaf(p, page, lo, hi, stack, (k - 1) as nat, r);
        let key = leaf_elem(page, k - 1).key;
        let r1 = before.with_if(lo is Some && less(key, lo->0), below_text(p, key, stack));
        let r2 = r1.with_if(hi is Some && !less(key, hi->0), above_text(p, key, stack));
        let prev = leaf_elem(page, k - 2).key;
        r2.with_if(k > 1 && less_eq(key, prev), order_text(p, prev, key, stack))
    }
}

/// The keys of a tree are in order, and between `lo` and `hi`. Gives the largest of them too: the
/// last one of the last leaf that has any.
pub open spec fn ordered(
    pages: Pages,
    p: Pgid,
    lo: Option<Key>,
    hi: Option<Key>,
    stack: Seq<Pgid>,
    n: nat,
    r: Report,
) -> (Report, Option<Key>)
    decreases n, 0nat,
{
    match unreadable(pages, p) {
        Some(t) => (r.halted(t), None),
        None => {
            let page = pages.bytes(p);
            let hdr = header_of(page);
            if hdr.flags == BRANCH_PAGE_FLAG && n > 0 {
                ordered_kids(pages, page, lo, hi, stack, hdr.count as nat, (n - 1) as nat, r)
            } else if hdr.flags == LEAF_PAGE_FLAG {
                (
                    ordered_leaf(p, page, lo, hi, stack, hdr.count as nat, r),
                    if hdr.count > 0 {
                        Some(leaf_elem(page, hdr.count - 1).key)
                    } else {
                        None
                    },
                )
            } else {
                (r, None)
            }
        },
    }
}

/// What the keys below child `i` of a branch page must not be below: the key of the child before.
pub open spec fn kid_least(page: Seq<u8>, i: int, lo: Option<Key>) -> Option<Key> {
    if i == 0 {
        lo
    } else {
        Some(branch_elem(page, i - 1).key)
    }
}

/// What the keys below child `i` of a branch page must be below: the key of the next child.
pub open spec fn kid_most(page: Seq<u8>, i: int, hi: Option<Key>) -> Option<Key> {
    if i + 1 < header_of(page).count {
        Some(branch_elem(page, i + 1).key)
    } else {
        hi
    }
}

/// The same of the first `k` pages below a branch page.
pub open spec fn ordered_kids(
    pages: Pages,
    page: Seq<u8>,
    lo: Option<Key>,
    hi: Option<Key>,
    stack: Seq<Pgid>,
    k: nat,
    n: nat,
    r: Report,
) -> (Report, Option<Key>)
    decreases n, k + 1,
{
    if k == 0 {
        (r, None)
    } else {
        let before = ordered_kids(pages, page, lo, hi, stack, (k - 1) as nat, n, r);
        if before.0.halt is Some {
            before
        } else {
            let kid = branch_elem(page, k - 1).pgid;
            let after = ordered(
                pages,
                kid,
                kid_least(page, k - 1, lo),
                kid_most(page, k - 1, hi),
                stack.push(kid),
                n,
                before.0,
            );
            (
                after.0,
                match after.1 {
                    Some(m) => Some(m),
                    None => before.1,
                },
            )
        }
    }
}

/// The pages of one tree are met, and its keys are in order.
pub open spec fn sifted(s: Scope, p: Pgid, n: nat, r: Report) -> Report {
    let r1 = visited(s, seq![p], n, r);
    if r1.halt is Some {
        r1
    } else {
        ordered(s.pages, p, None, None, seq![p], n, r1).0
    }
}

/// The same of a tree and of all buckets nested in it.
pub open spec fn searched(s: Scope, p: Pgid, n: nat, r: Report) -> Report
    decreases n, 0nat, 2nat,
{
    let r1 = sifted(s, p, n, r);
    if r1.halt is Some {
        r1
    } else {
        nested(s, p, n, r1)
    }
}

/// The same of the buckets nested in a tree.
pub open spec fn nested(s: Scope, p: Pgid, n: nat, r: Report) -> Report
    decreases n, 0nat, 1nat,
{
    match unreadable(s.pages, p) {
        Some(t) => r.halted(t),
        None => {
            let page = s.pages.bytes(p);
            let hdr = header_of(page);
            if hdr.flags == BRANCH_PAGE_FLAG {
                if n > 0 {
                    nested_kids(s, kids_of(page), hdr.count as nat, (n - 1) as nat, r)
                } else {
                    r
                }
            } else if hdr.flags == LEAF_PAGE_FLAG {
                if n > 0 {
                    nested_items(s, page, hdr.count as nat, (n - 1) as nat, r)
                } else {
                    r
                }
            } else {
                r.with(unexpected_text(p, hdr.flags))
            }
        },
    }
}

/// The same of the buckets below the first `k` children of a branch page.
pub open spec fn nested_kids(s: Scope, kids: Seq<Pgid>, k: nat, n: nat, r: Report) -> Report
    decreases n, k + 1, 0nat,
{
    if k == 0 {
        r
    } else {
        let before = nested_kids(s, kids, (k - 1) as nat, n, r);
        if before.halt is Some {
            before
        } else {
            nested(s, kids[k - 1], n, before)
        }
    }
}

/// The same of the buckets in the first `k` elements of a leaf page.
pub open spec fn nested_items(s: Scope, page: Seq<u8>, k: nat, n: nat, r: Report) -> Report
    decreases n, k + 1, 0nat,
{
    if k == 0 {
        r
    } else {
        let before = nested_items(s, page, (k - 1) as nat, n, r);
        if before.halt is Some || bucket_root(page, k - 1) == 0 {
            before
        } else {
            searched(s, bucket_root(page, k - 1), n, before)
        }
    }
}

/// The pages that are listed as free more than once, among the first `k`.
pub open spec fn relisted(ids: Seq<Pgid>, k: nat) -> Seq<Text>
    decreases k,
{
    if k == 0 {
        Seq::empty()
    } else if ids.take(k - 1).contains(ids[k - 1]) {
        relisted(ids, (k - 1) as nat).push(again_freed_text(ids[k - 1]))
    } else {
        relisted(ids, (k - 1) as nat)
    }
}

/// The pages that neither were met nor are free, among the first `k`.
pub open spec fn lost(reach: Set<Pgid>, freed: Set<Pgid>, k: nat) -> Seq<Text>
    decreases k,
{
    if k == 0 {
        Seq::empty()
    } else {
        let p = (k - 1) as u64;
        if !reach.contains(p) && !freed.contains(p) {
            lost(reach, freed, (k - 1) as nat).push(unreachable_text(p))
        } else {
            lost(reach, freed, (k - 1) as nat)
        }
    }
}

/// The pages that are in use without being in a tree: the meta pages and the freelist.
pub open spec fn reserved(pages: Pages, meta: Meta) -> Set<Pgid> {
    let list = meta.freelist;
    let over = header_of(pages.bytes(list)).overflow;
    Set::new(
        |p: Pgid|
            p <= 1 || list != PGID_NO_FREELIST && pages.has(list) && list <= p <= list + over,
    )
}

/// The search, from a first report on.
pub open spec fn checked_from(s: Scope, meta: Meta, page_id: u64, n: nat, r: Report) -> Report {
    if page_id == 0 {
        let r1 = if meta.root.root == 0 { r } else { searched(s, meta.root.root, n, r) };
        if r1.halt is Some {
            r1
        } else {
            Report { errs: r1.errs + lost(r1.reach, s.freed, meta.pgid as nat), ..r1 }
        }
    } else if page_id < 2 || page_id >= meta.pgid {
        r.with(range_text(page_id, meta.pgid))
    } else {
        searched(s, page_id, n, r)
    }
}

/// The whole search.
pub open spec fn checked(s: Scope, meta: Meta, ids: Seq<Pgid>, page_id: u64, n: nat) -> Report {
    checked_from(
        s,
        meta,
        page_id,
        n,
        Report { reach: reserved(s.pages, meta), errs: relisted(ids, ids.len()), halt: None },
    )
}

/// Everything that is wrong, with the page that could not be read at the end.
pub open spec fn problems(s: Scope, meta: Meta, ids: Seq<Pgid>, page_id: u64, n: nat) -> Seq<Text> {
    let r = checked(s, meta, ids, page_id, n);
    match r.halt {
        Some(t) => r.errs.push(t),
        None => r.errs,
    }
}

// ---------------------------------------------------------------------------------------------
// The search.

/// The texts of errors.
pub open spec fn texts(errs: Seq<Error>) -> Seq<Text> {
    Seq::new(errs.len(), |i: int| error_text(errs[i]))
}

/// All errors say that something is damaged.
pub open spec fn all_corrupt(errs: Seq<Error>) -> bool {
    forall|i: int| 0 <= i < errs.len() ==> (#[trigger] errs[i]) is Corrupt
}

/// A search under way.
struct Search<'a> {
    pages: Pages<'a>,
    hwm: Pgid,
    freed: HashSet<Pgid>,
    reach: HashSet<Pgid>,
    errs: Vec<Error>,
}

/// How a step of a search ended.
spec fn came_to(r: Result<()>, now: Report, then: Report) -> bool {
    match r {
        Ok(_) => now == then && then.halt is None,
        Err(Error::Corrupt(t)) => then.halt == Some(t@) && now == (Report { halt: None, ..then }),
        Err(_) => false,
    }
}

/// The same of a step that gives a key.
spec fn came_with(r: Result<Option<Vec<u8>>>, now: Report, then: (Report, Option<Key>)) -> bool {
    match r {
        Ok(m) => now == then.0 && then.0.halt is None && opt_vec(m) == then.1,
        Err(Error::Corrupt(t)) => then.0.halt == Some(t@) && now == (Report { halt: None, ..then.0 }),
        Err(_) => false,
    }
}

spec fn opt_key(key: Option<&[u8]>) -> Option<Key> {
    match key {
        Some(k) => Some(k@),
        None => None,
    }
}

spec fn opt_vec(key: Option<Vec<u8>>) -> Option<Key> {
    match key {
        Some(k) => Some(k@),
        None => None,
    }
}

/// The start of a complaint about a page.
fn about(p: Pgid, what: &str) -> (text: String)
    ensures
        text@ == "page "@ + decimal(p as nat) + what@,
{
    let mut text: String = "page ".to_string();
    push_decimal(&mut text, p);
    text.append(what);
    text
}

/// The end of a complaint.
fn with_stack(text: &mut String, stack: &Vec<Pgid>)
    ensures
        final(text)@ == old(text)@ + " (stack: "@ + list_text(stack@) + ")"@,
{
    text.append(" (stack: ");
    push_list(text, stack);
    text.append(")");
}

impl<'a> Search<'a> {
    spec fn scope(&self) -> Scope<'a> {
        Scope { pages: self.pages, hwm: self.hwm, freed: self.freed@ }
    }

    spec fn now(&self) -> Report {
        Report { reach: self.reach@, errs: texts(self.errs@), halt: None }
    }

    spec fn fit(&self) -> bool {
        all_corrupt(self.errs@) && self.pages.page_size >= 16
    }

    fn complain(&mut self, text: String)
        requires
            old(self).fit(),
        ensures
            final(self).fit(),
            final(self).scope() == old(self).scope(),
            final(self).now() == old(self).now().with(text@),
    {
        let ghost e0 = self.errs@;
        self.errs.push(Error::Corrupt(text));
        assert(texts(self.errs@) =~= texts(e0).push(text@));
    }

    /// Meets a page with its overflow.
    fn meet(&mut self, hdr: &PageHeader, stack: &Vec<Pgid>)
        requires
            old(self).fit(),
            hdr.id + hdr.overflow <= u64::MAX,
        ensures
            final(self).fit(),
            final(self).scope() == old(self).scope(),
            final(self).now() == met(old(self).now(), hdr.id, (hdr.overflow + 1) as nat, stack@),
    {
        let ghost r0 = self.now();
        let n: u64 = hdr.overflow as u64 + 1;
        let mut k: u64 = 0;
        while k < n
            invariant
                k <= n,
                n == hdr.overflow + 1,
                hdr.id + hdr.overflow <= u64::MAX,
                self.fit(),
                self.scope() == old(self).scope(),
                self.now() == met(r0, hdr.id, k as nat, stack@),
            decreases n - k,
        {
            let q: Pgid = hdr.id + k;
            let ghost before = self.now();
            if self.reach.contains(&q) {
                let mut text: String = about(q, ": multiple references");
                with_stack(&mut text, stack);
                proof {
                    lemma_twice(q, stack@, text@);
                }
                self.complain(text);
            }
            self.reach.insert(q);
            k = k + 1;
            assert(self.now() =~= met(r0, hdr.id, k as nat, stack@));
        }
    }

    /// Meets a page, which must be in bounds, not free, and a branch or a leaf.
    fn verify_reachable(&mut self, page: &[u8], stack: &Vec<Pgid>)
        requires
            old(self).fit(),
            page@.len() >= 16,
            header_of(page@).id + header_of(page@).overflow <= u64::MAX,
        ensures
            final(self).fit(),
            final(self).scope() == old(self).scope(),
            final(self).now() == verified(old(self).scope(), page@, stack@, old(self).now()),
    {
        let hdr = PageHeader::read(page);
        if hdr.id > self.hwm {
            let mut text: String = about(hdr.id, ": out of bounds: ");
            push_decimal(&mut text, self.hwm);
            with_stack(&mut text, stack);
            assert(text@ =~= bounds_text(hdr.id, self.hwm, stack@));
            self.complain(text);
        }
        self.meet(&hdr, stack);
        if self.freed.contains(&hdr.id) {
            let text: String = about(hdr.id, ": reachable freed");
            self.complain(text);
        } else if !hdr.is_branch() && !hdr.is_leaf() {
            let mut text: String = about(hdr.id, ": invalid type: ");
            let name: String = hdr.typ();
            text.append(name.as_str());
            with_stack(&mut text, stack);
            assert(text@ =~= type_text(hdr.id, hdr.flags, stack@));
            self.complain(text);
        }
    }

    /// Meets the pages of a tree.
    fn for_each_page_internal(&mut self, stack: &mut Vec<Pgid>, Ghost(n): Ghost<nat>) -> (r: Result<()>)
        requires
            old(self).fit(),
            old(stack)@.len() > 0,
            bounded(old(self).pages, old(stack)@.last(), n),
        ensures
            final(self).fit(),
            final(self).scope() == old(self).scope(),
            r is Ok ==> final(stack)@ == old(stack)@,
            came_to(r, final(self).now(), visited(old(self).scope(), old(stack)@, n, old(self).now())),
        decreases n, 0nat,
    {
        let p: Pgid = stack[stack.len() - 1];
        let page: &'a [u8] = match self.pages.find(p) {
            Ok(page) => page,
            Err(e) => {
                return Err(e);
            },
        };
        proof {
            lemma_bounded(self.pages, p, n);
        }
        self.verify_reachable(page, stack);
        let hdr = PageHeader::read(page);
        if hdr.is_branch() {
            return self.for_each_child(page, stack, Ghost((n - 1) as nat));
        }
        Ok(())
    }

    /// Meets the pages below a branch page.
    fn for_each_child(&mut self, page: &[u8], stack: &mut Vec<Pgid>, Ghost(n): Ghost<nat>) -> (r: Result<()>)
        requires
            old(self).fit(),
            page@.len() >= 16,
            forall|i: int| 0 <= i < header_of(page@).count ==> #[trigger] branch_ok(page@, i),
            forall|i: int|
                0 <= i < header_of(page@).count ==> bounded(old(self).pages, #[trigger] kids_of(page@)[i], n),
        ensures
            final(self).fit(),
            final(self).scope() == old(self).scope(),
            r is Ok ==> final(stack)@ == old(stack)@,
            came_to(
                r,
                final(self).now(),
                visited_kids(
                    old(self).scope(),
                    old(stack)@,
                    kids_of(page@),
                    kids_of(page@).len(),
                    n,
                    old(self).now(),
                ),
            ),
        decreases n, 1nat,
    {
        let ghost s = self.scope();
        let ghost stack0 = stack@;
        let ghost r0 = self.now();
        let ghost kids = kids_of(page@);
        let count: usize = PageHeader::read(page).count as usize;
        let mut i: usize = 0;
        while i < count
            invariant
                i <= count,
                count == header_of(page@).count,
                count == kids.len(),
                kids == kids_of(page@),
                forall|j: int| 0 <= j < count ==> #[trigger] branch_ok(page@, j),
                forall|j: int| 0 <= j < count ==> bounded(s.pages, #[trigger] kids[j], n),
                self.fit(),
                self.scope() == s,
                stack@ == stack0,
                s == old(self).scope(),
                r0 == old(self).now(),
                stack0 == old(stack)@,
                self.now() == visited_kids(s, stack0, kids, i as nat, n, r0),
            decreases count - i,
        {
            assert(branch_ok(page@, i as int));
            let (child, _key) = branch_at(page, i);
            assert(kids[i as int] == child);
            stack.push(child);
            let step: Result<()> = self.for_each_page_internal(stack, Ghost(n));
            match step {
                Ok(_) => {},
                Err(e) => {
                    proof {
                        lemma_visited_halts(s, stack0, kids, (i + 1) as nat, count as nat, n, r0);
                    }
                    return Err(e);
                },
            }
            stack.pop();
            assert(stack@ =~= stack0);
            i = i + 1;
        }
        Ok(())
    }

    /// Checks the keys of a leaf page.
    fn check_leaf(&mut self, p: Pgid, page: &[u8], lo: Option<&[u8]>, hi: Option<&[u8]>, stack: &Vec<Pgid>)
        requires
            old(self).fit(),
            page@.len() >= 16,
            forall|i: int| 0 <= i < header_of(page@).count ==> #[trigger] leaf_ok(page@, i),
        ensures
            final(self).fit(),
            final(self).scope() == old(self).scope(),
            final(self).now() == ordered_leaf(
                p,
                page@,
                opt_key(lo),
                opt_key(hi),
                stack@,
                header_of(page@).count as nat,
                old(self).now(),
            ),
    {
        let ghost r0 = self.now();
        let count: usize = PageHeader::read(page).count as usize;
        let mut prev: Option<&[u8]> = None;
        let mut i: usize = 0;
        while i < count
            invariant
                i <= count,
                count == header_of(page@).count,
                forall|j: int| 0 <= j < count ==> #[trigger] leaf_ok(page@, j),
                self.fit(),
                self.scope() == old(self).scope(),
                r0 == old(self).now(),
                self.now() == ordered_leaf(p, page@, opt_key(lo), opt_key(hi), stack@, i as nat, r0),
                opt_key(prev) == (if i == 0 { None } else { Some(leaf_elem(page@, i - 1).key) }),
            decreases count - i,
        {
            assert(leaf_ok(page@, i as int));
            let (_flags, key, _value) = leaf_at(page, i);
            let ghost r1 = self.now();
            match lo {
                Some(m) => if key_less(key, m) {
                    self.complain_key(p, key, "\" < min", stack, true);
                },
                None => {},
            }
            let ghost r2 = r1.with_if(lo is Some && less(key@, lo->0@), below_text(p, key@, stack@));
            assert(self.now() == r2);
            match hi {
                Some(m) => if !key_less(key, m) {
                    self.complain_key(p, key, "\" >= max", stack, false);
                },
                None => {},
            }
            let ghost r3 = r2.with_if(hi is Some && !less(key@, hi->0@), above_text(p, key@, stack@));
            assert(self.now() == r3);
            match prev {
                Some(before) => if key_less(key, before) || key_equal(key, before) {
                    let mut text: String = about(p, ": out of order keys: \"");
                    let hex: String = hex_key(before);
                    text.append(hex.as_str());
                    text.append("\" >= \"");
                    let hex: String = hex_key(key);
                    text.append(hex.as_str());
                    text.append("\"");
                    with_stack(&mut text, stack);
                    proof {
                        lemma_order(p, before@, key@, stack@, text@);
                    }
                    self.complain(text);
                },
                None => {},
            }
            prev = Some(key);
            i = i + 1;
        }
    }

    /// Complains of a key that is not between its bounds.
    fn complain_key(&mut self, p: Pgid, key: &[u8], what: &str, stack: &Vec<Pgid>, below: bool)
        requires
            old(self).fit(),
            what@ == (if below { "\" < min"@ } else { "\" >= max"@ }),
        ensures
            final(self).fit(),
            final(self).scope() == old(self).scope(),
            final(self).now() == old(self).now().with(
                if below {
                    below_text(p, key@, stack@)
                } else {
                    above_text(p, key@, stack@)
                },
            ),
    {
        let mut text: String = about(p, ": key \"");
        let hex: String = hex_key(key);
        text.append(hex.as_str());
        text.append(what);
        with_stack(&mut text, stack);
        proof {
            lemma_key_text(p, key@, stack@, text@, below);
        }
        self.complain(text);
    }

    /// Checks that the keys of a tree are in order. Gives the largest of them.
    fn check_key_order(
        &mut self,
        p: Pgid,
        lo: Option<&[u8]>,
        hi: Option<&[u8]>,
        stack: &mut Vec<Pgid>,
        Ghost(n): Ghost<nat>,
    ) -> (r: Result<Option<Vec<u8>>>)
        requires
            old(self).fit(),
            bounded(old(self).pages, p, n),
        ensures
            final(self).fit(),
            final(self).scope() == old(self).scope(),
            r is Ok ==> final(stack)@ == old(stack)@,
            came_with(
                r,
                final(self).now(),
                ordered(old(self).pages, p, opt_key(lo), opt_key(hi), old(stack)@, n, old(self).now()),
            ),
        decreases n, 0nat,
    {
        let page: &'a [u8] = match self.pages.find(p) {
            Ok(page) => page,
            Err(e) => {
                return Err(e);
            },
        };
        proof {
            lemma_bounded(self.pages, p, n);
        }
        let hdr = PageHeader::read(page);
        if hdr.is_branch() {
            return self.check_children(page, lo, hi, stack, Ghost((n - 1) as nat));
        }
        if hdr.is_leaf() {
            self.check_leaf(p, page, lo, hi, stack);
            let count: usize = hdr.count as usize;
            if count > 0 {
                assert(leaf_ok(page@, count - 1));
                let (_flags, key, _value) = leaf_at(page, count - 1);
                return Ok(Some(slice_to_vec(key)));
            }
        }
        Ok(None)
    }

    /// The same below a branch page.
    fn check_children(
        &mut self,
        page: &[u8],
        lo: Option<&[u8]>,
        hi: Option<&[u8]>,
        stack: &mut Vec<Pgid>,
        Ghost(n): Ghost<nat>,
    ) -> (r: Result<Option<Vec<u8>>>)
        requires
            old(self).fit(),
            page@.len() >= 16,
            forall|i: int| 0 <= i < header_of(page@).count ==> #[trigger] branch_ok(page@, i),
            forall|i: int|
                0 <= i < header_of(page@).count ==> bounded(old(self).pages, #[trigger] kids_of(page@)[i], n),
        ensures
            final(self).fit(),
            final(self).scope() == old(self).scope(),
            r is Ok ==> final(stack)@ == old(stack)@,
            came_with(
                r,
                final(self).now(),
                ordered_kids(
                    old(self).pages,
                    page@,
                    opt_key(lo),
                    opt_key(hi),
                    old(stack)@,
                    header_of(page@).count as nat,
                    n,
                    old(self).now(),
                ),
            ),
        decreases n, 1nat,
    {
        let ghost s = self.scope();
        let ghost stack0 = stack@;
        let ghost r0 = self.now();
        let count: usize = PageHeader::read(page).count as usize;
        let mut most: Option<Vec<u8>> = None;
        let mut least: Option<&[u8]> = lo;
        let mut i: usize = 0;
        while i < count
            invariant
                i <= count,
                count == header_of(page@).count,
                forall|j: int| 0 <= j < count ==> #[trigger] branch_ok(page@, j),
                forall|j: int| 0 <= j < count ==> bounded(s.pages, #[trigger] kids_of(page@)[j], n),
                self.fit(),
                self.scope() == s,
                stack@ == stack0,
                s == old(self).scope(),
                s.pages == old(self).pages,
                r0 == old(self).now(),
                stack0 == old(stack)@,
                opt_key(least) == kid_least(page@, i as int, opt_key(lo)),
                (self.now(), opt_vec(most)) == ordered_kids(
                    s.pages,
                    page@,
                    opt_key(lo),
                    opt_key(hi),
                    stack0,
                    i as nat,
                    n,
                    r0,
                ),
            decreases count - i,
        {
            assert(branch_ok(page@, i as int));
            let (child, key) = branch_at(page, i);
            assert(kids_of(page@)[i as int] == child);
            let next: Option<&[u8]> = if i + 1 < count {
                assert(branch_ok(page@, i + 1));
                let (_child, key) = branch_at(page, i + 1);
                Some(key)
            } else {
                hi
            };
            stack.push(child);
            let step: Result<Option<Vec<u8>>> = self.check_key_order(child, least, next, stack, Ghost(n));
            match step {
                Ok(m) => {
                    match m {
                        Some(m) => {
                            most = Some(m);
                        },
                        None => {},
                    }
                },
                Err(e) => {
                    proof {
                        lemma_ordered_halts(
                            s.pages,
                            page@,
                            opt_key(lo),
                            opt_key(hi),
                            stack0,
                            (i + 1) as nat,
                            count as nat,
                            n,
                            r0,
                        );
                    }
                    return Err(e);
                },
            }
            stack.pop();
            assert(stack@ =~= stack0);
            least = Some(key);
            i = i + 1;
        }
        Ok(most)
    }

    /// Meets the pages of a tree and checks its keys.
    fn check_invariant(&mut self, p: Pgid, Ghost(n): Ghost<nat>) -> (r: Result<()>)
        requires
            old(self).fit(),
            bounded(old(self).pages, p, n),
        ensures
            final(self).fit(),
            final(self).scope() == old(self).scope(),
            came_to(r, final(self).now(), sifted(old(self).scope(), p, n, old(self).now())),
    {
        let mut stack: Vec<Pgid> = Vec::new();
        stack.push(p);
        assert(stack@ =~= seq![p]);
        match self.for_each_page_internal(&mut stack, Ghost(n)) {
            Ok(_) => {},
            Err(e) => {
                return Err(e);
            },
        }
        match self.check_key_order(p, None, None, &mut stack, Ghost(n)) {
            Ok(_) => Ok(()),
            Err(e) => Err(e),
        }
    }

    /// Checks a tree and all buckets nested in it.
    fn recursively_check_page(&mut self, p: Pgid, Ghost(n): Ghost<nat>) -> (r: Result<()>)
        requires
            old(self).fit(),
            bounded(old(self).pages, p, n),
        ensures
            final(self).fit(),
            final(self).scope() == old(self).scope(),
            came_to(r, final(self).now(), searched(old(self).scope(), p, n, old(self).now())),
        decreases n, 0nat, 2nat,
    {
        match self.check_invariant(p, Ghost(n)) {
            Ok(_) => self.recursively_check_bucket_in_page(p, Ghost(n)),
            Err(e) => Err(e),
        }
    }

    /// Checks the buckets nested in a tree.
    fn recursively_check_bucket_in_page(&mut self, p: Pgid, Ghost(n): Ghost<nat>) -> (r: Result<()>)
        requires
            old(self).fit(),
            bounded(old(self).pages, p, n),
        ensures
            final(self).fit(),
            final(self).scope() == old(self).scope(),
            came_to(r, final(self).now(), nested(old(self).scope(), p, n, old(self).now())),
        decreases n, 0nat, 1nat,
    {
        let page: &'a [u8] = match self.pages.find(p) {
            Ok(page) => page,
            Err(e) => {
                return Err(e);
            },
        };
        proof {
            lemma_bounded(self.pages, p, n);
        }
        let hdr = PageHeader::read(page);
        if hdr.is_branch() {
            return self.check_child_buckets(page, Ghost((n - 1) as nat));
        }
        if hdr.is_leaf() {
            return self.check_item_buckets(page, Ghost((n - 1) as nat));
        }
        let mut text: String = "unexpected page type (flags: ".to_string();
        push_digits(&mut text, hdr.flags as u64, 16);
        text.append(") for pgId:");
        push_decimal(&mut text, p);
        self.complain(text);
        Ok(())
    }

    /// The same below a branch page.
    fn check_child_buckets(&mut self, page: &[u8], Ghost(n): Ghost<nat>) -> (r: Result<()>)
        requires
            old(self).fit(),
            page@.len() >= 16,
            forall|i: int| 0 <= i < header_of(page@).count ==> #[trigger] branch_ok(page@, i),
            forall|i: int|
                0 <= i < header_of(page@).count ==> bounded(old(self).pages, #[trigger] kids_of(page@)[i], n),
        ensures
            final(self).fit(),
            final(self).scope() == old(self).scope(),
            came_to(
                r,
                final(self).now(),
                nested_kids(
                    old(self).scope(),
                    kids_of(page@),
                    header_of(page@).count as nat,
                    n,
                    old(self).now(),
                ),
            ),
        decreases n, 1nat, 0nat,
    {
        let ghost s = self.scope();
        let ghost r0 = self.now();
        let ghost kids = kids_of(page@);
        let count: usize = PageHeader::read(page).count as usize;
        let mut i: usize = 0;
        while i < count
            invariant
                i <= count,
                count == header_of(page@).count,
                kids == kids_of(page@),
                forall|j: int| 0 <= j < count ==> #[trigger] branch_ok(page@, j),
                forall|j: int| 0 <= j < count ==> bounded(s.pages, #[trigger] kids[j], n),
                self.fit(),
                self.scope() == s,
                s == old(self).scope(),
                r0 == old(self).now(),
                self.now() == nested_kids(s, kids, i as nat, n, r0),
            decreases count - i,
        {
            assert(branch_ok(page@, i as int));
            let (child, _key) = branch_at(page, i);
            assert(kids[i as int] == child);
            match self.recursively_check_bucket_in_page(child, Ghost(n)) {
                Ok(_) => {},
                Err(e) => {
                    proof {
                        lemma_nested_kids_halts(s, kids, (i + 1) as nat, count as nat, n, r0);
                    }
                    return Err(e);
                },
            }
            i = i + 1;
        }
        Ok(())
    }

    /// The same in a leaf page.
    fn check_item_buckets(&mut self, page: &[u8], Ghost(n): Ghost<nat>) -> (r: Result<()>)
        requires
            old(self).fit(),
            page@.len() >= 16,
            forall|i: int| 0 <= i < header_of(page@).count ==> #[trigger] leaf_ok(page@, i),
            forall|i: int|
                0 <= i < header_of(page@).count ==> bounded_root(old(self).pages, #[trigger] bucket_root(page@, i), n),
        ensures
            final(self).fit(),
            final(self).scope() == old(self).scope(),
            came_to(
                r,
                final(self).now(),
                nested_items(old(self).scope(), page@, header_of(page@).count as nat, n, old(self).now()),
            ),
        decreases n, 1nat, 0nat,
    {
        let ghost s = self.scope();
        let ghost r0 = self.now();
        let count: usize = PageHeader::read(page).count as usize;
        let mut i: usize = 0;
        while i < count
            invariant
                i <= count,
                count == header_of(page@).count,
                forall|j: int| 0 <= j < count ==> #[trigger] leaf_ok(page@, j),
                forall|j: int| 0 <= j < count ==> bounded_root(s.pages, #[trigger] bucket_root(page@, j), n),
                self.fit(),
                self.scope() == s,
                s == old(self).scope(),
                r0 == old(self).now(),
                self.now() == nested_items(s, page@, i as nat, n, r0),
            decreases count - i,
        {
            assert(leaf_ok(page@, i as int));
            let (flags, _key, value) = leaf_at(page, i);
            assert(bounded_root(s.pages, bucket_root(page@, i as int), n));
            if flags & BUCKET_LEAF_FLAG != 0 && value.len() >= 16 {
                let root: Pgid = InBucket::read(value).root;
                assert(root == bucket_root(page@, i as int));
                if root != 0 {
                    match self.recursively_check_page(root, Ghost(n)) {
                        Ok(_) => {},
                        Err(e) => {
                            proof {
                                lemma_nested_items_halts(s, page@, (i + 1) as nat, count as nat, n, r0);
                            }
                            return Err(e);
                        },
                    }
                }
            }
            i = i + 1;
        }
        Ok(())
    }
}

/// The words of a complaint.
proof fn lemma_twice(q: Pgid, stack: Seq<Pgid>, text: Text)
    requires
        text == "page "@ + decimal(q as nat) + ": multiple references"@ + " (stack: "@ + list_text(stack) + ")"@,
    ensures
        text == twice_text(q, stack),
{
    reveal_strlit(": multiple references");
    reveal_strlit(" (stack: ");
    reveal_strlit(": multiple references (stack: ");
    assert(": multiple references"@ + " (stack: "@ =~= ": multiple references (stack: "@);
    assert(text =~= twice_text(q, stack));
}

/// A page that can be read has a header.
pub proof fn lemma_page_len(pages: Pages, p: Pgid)
    requires
        pages.has(p),
        pages.page_size >= 16,
    ensures
        pages.bytes(p).len() >= 16,
{
    let ps = pages.page_size as int;
    let over = header_of(pages.image@.skip(p * ps)).overflow;
    assert(p * ps >= 0 && (over + 1) * ps >= ps) by (nonlinear_arith)
        requires
            p >= 0,
            over >= 0,
            ps >= 0,
    ;
}

/// What `bounded` says of a page that can be read.
proof fn lemma_bounded(pages: Pages, p: Pgid, n: nat)
    requires
        bounded(pages, p, n),
        pages.has(p),
        pages.page_size >= 16,
    ensures
        n > 0,
        pages.bytes(p).len() >= 16,
        ({
            let page = pages.bytes(p);
            let hdr = header_of(page);
            &&& hdr.id + hdr.overflow <= u64::MAX
            &&& hdr.flags == BRANCH_PAGE_FLAG ==> {
                &&& forall|i: int| 0 <= i < hdr.count ==> #[trigger] branch_ok(page, i)
                &&& forall|i: int| 0 <= i < hdr.count ==> bounded(pages, #[trigger] kids_of(page)[i], (n - 1) as nat)
            }
            &&& hdr.flags == LEAF_PAGE_FLAG ==> {
                &&& forall|i: int| 0 <= i < hdr.count ==> #[trigger] leaf_ok(page, i)
                &&& forall|i: int|
                    0 <= i < hdr.count ==> bounded_root(pages, #[trigger] bucket_root(page, i), (n - 1) as nat)
            }
        }),
{
    reveal(bounded);
    lemma_page_len(pages, p);
}

/// Once the search has halted it stays halted.
proof fn lemma_visited_halts(s: Scope, stack: Seq<Pgid>, kids: Seq<Pgid>, i: nat, k: nat, n: nat, r: Report)
    requires
        i <= k,
        visited_kids(s, stack, kids, i, n, r).halt is Some,
    ensures
        visited_kids(s, stack, kids, k, n, r) == visited_kids(s, stack, kids, i, n, r),
    decreases k - i,
{
    if i < k {
        lemma_visited_halts(s, stack, kids, i, (k - 1) as nat, n, r);
    }
}

/// The same of the order of keys.
proof fn lemma_ordered_halts(
    pages: Pages,
    page: Seq<u8>,
    lo: Option<Key>,
    hi: Option<Key>,
    stack: Seq<Pgid>,
    i: nat,
    k: nat,
    n: nat,
    r: Report,
)
    requires
        i <= k,
        ordered_kids(pages, page, lo, hi, stack, i, n, r).0.halt is Some,
    ensures
        ordered_kids(pages, page, lo, hi, stack, k, n, r) == ordered_kids(pages, page, lo, hi, stack, i, n, r),
    decreases k - i,
{
    if i < k {
        lemma_ordered_halts(pages, page, lo, hi, stack, i, (k - 1) as nat, n, r);
    }
}

/// The same of the buckets below a branch page.
proof fn lemma_nested_kids_halts(s: Scope, kids: Seq<Pgid>, i: nat, k: nat, n: nat, r: Report)
    requires
        i <= k,
        nested_kids(s, kids, i, n, r).halt is Some,
    ensures
        nested_kids(s, kids, k, n, r) == nested_kids(s, kids, i, n, r),
    decreases k - i,
{
    if i < k {
        lemma_nested_kids_halts(s, kids, i, (k - 1) as nat, n, r);
    }
}

/// The same of the buckets in a leaf page.
proof fn lemma_nested_items_halts(s: Scope, page: Seq<u8>, i: nat, k: nat, n: nat, r: Report)
    requires
        i <= k,
        nested_items(s, page, i, n, r).halt is Some,
    ensures
        nested_items(s, page, k, n, r) == nested_items(s, page, i, n, r),
    decreases k - i,
{
    if i < k {
        lemma_nested_items_halts(s, page, i, (k - 1) as nat, n, r);
    }
}

/// The words of a complaint about a key.
proof fn lemma_key_text(p: Pgid, key: Key, stack: Seq<Pgid>, text: Text, below: bool)
    requires
        text == "page "@ + decimal(p as nat) + ": key \""@ + hex_of(key) + (if below {
            "\" < min"@
        } else {
            "\" >= max"@
        }) + " (stack: "@ + list_text(stack) + ")"@,
    ensures
        text == (if below { below_text(p, key, stack) } else { above_text(p, key, stack) }),
{
    reveal_strlit("\" < min");
    reveal_strlit("\" >= max");
    reveal_strlit(" (stack: ");
    reveal_strlit("\" < min (stack: ");
    reveal_strlit("\" >= max (stack: ");
    assert("\" < min"@ + " (stack: "@ =~= "\" < min (stack: "@);
    assert("\" >= max"@ + " (stack: "@ =~= "\" >= max (stack: "@);
    if below {
        assert(text =~= below_text(p, key, stack));
    } else {
        assert(text =~= above_text(p, key, stack));
    }
}

/// The words of a complaint about the order of keys.
proof fn lemma_order(p: Pgid, prev: Key, key: Key, stack: Seq<Pgid>, text: Text)
    requires
        text == "page "@ + decimal(p as nat) + ": out of order keys: \""@ + hex_of(prev) + "\" >= \""@ + hex_of(key)
            + "\""@ + " (stack: "@ + list_text(stack) + ")"@,
    ensures
        text == order_text(p, prev, key, stack),
{
    reveal_strlit("\"");
    reveal_strlit(" (stack: ");
    reveal_strlit("\" (stack: ");
    assert("\""@ + " (stack: "@ =~= "\" (stack: "@);
    assert(text =~= order_text(p, prev, key, stack));
}

// ---------------------------------------------------------------------------------------------
// The whole database.

/// Where a search begins.
pub open spec fn start_of(meta: Meta, page_id: u64) -> Pgid {
    if page_id == 0 {
        meta.root.root
    } else {
        page_id
    }
}

/// How deep a search has to go.
pub open spec fn depth_of(pages: Pages, p: Pgid) -> nat {
    choose|n: nat| bounded_root(pages, p, n)
}

/// The pages listed as free, and a complaint for each that is listed again.
fn note_freed(ids: &Vec<Pgid>, errs: &mut Vec<Error>) -> (freed: HashSet<Pgid>)
    requires
        old(errs)@.len() == 0,
    ensures
        freed@ == ids@.to_set(),
        all_corrupt(final(errs)@),
        texts(final(errs)@) == relisted(ids@, ids@.len()),
{
    let mut freed: HashSet<Pgid> = HashSet::new();
    let mut i: usize = 0;
    assert(ids@.take(0).to_set() =~= Set::<Pgid>::empty());
    assert(texts(errs@) =~= Seq::<Text>::empty());
    while i < ids.len()
        invariant
            i <= ids@.len(),
            freed@ == ids@.take(i as int).to_set(),
            all_corrupt(errs@),
            texts(errs@) == relisted(ids@, i as nat),
        decreases ids@.len() - i,
    {
        let id: Pgid = ids[i];
        let ghost e0 = errs@;
        let ghost before = ids@.take(i as int);
        assert(freed@.contains(id) == before.contains(id));
        if freed.contains(&id) {
            let text: String = about(id, ": already freed");
            errs.push(Error::Corrupt(text));
            assert(texts(errs@) =~= texts(e0).push(text@));
        }
        freed.insert(id);
        proof {
            let after = ids@.take(i + 1);
            assert(after =~= before.push(id));
            assert forall|p: Pgid| #[trigger] after.to_set().contains(p) <==> before.to_set().contains(p) || p == id by {
                if before.contains(p) {
                    assert(after[before.index_of(p)] == p);
                }
                assert(after[i as int] == id);
                if after.contains(p) && p != id {
                    assert(before[after.index_of(p)] == p);
                }
            }
            assert(freed@ =~= after.to_set());
        }
        i = i + 1;
    }
    assert(ids@.take(i as int) =~= ids@);
    freed
}

/// The pages that are in use without being in a tree.
fn reserve(pages: &Pages, meta: &Meta) -> (reach: HashSet<Pgid>)
    requires
        pages.page_size >= 16,
        meta.freelist != PGID_NO_FREELIST && pages.has(meta.freelist) ==> meta.freelist + header_of(
            pages.bytes(meta.freelist),
        ).overflow <= u64::MAX,
    ensures
        reach@ == reserved(*pages, *meta),
{
    let mut reach: HashSet<Pgid> = HashSet::new();
    reach.insert(0);
    reach.insert(1);
    if meta.freelist != PGID_NO_FREELIST && pages.holds(meta.freelist) {
        let page: &[u8] = pages.page(meta.freelist);
        proof {
            lemma_page_len(*pages, meta.freelist);
        }
        let n: u64 = PageHeader::read(page).overflow as u64 + 1;
        let mut k: u64 = 0;
        while k < n
            invariant
                k <= n,
                n == header_of(pages.bytes(meta.freelist)).overflow + 1,
                meta.freelist + n - 1 <= u64::MAX,
                forall|p: Pgid| #[trigger] reach@.contains(p) <==> p <= 1 || meta.freelist <= p < meta.freelist + k,
            decreases n - k,
        {
            reach.insert(meta.freelist + k);
            k = k + 1;
        }
    }
    assert(reach@ =~= reserved(*pages, *meta));
    reach
}

/// Looks for damage in a database, from its root or from the page that is given, where `ids` are
/// the pages that its freelist lists. Gives all problems that were found. Nothing can be said of a
/// file in which pages lead back to themselves.
pub fn check_tx(pages: Pages, meta: &Meta, ids: &Vec<Pgid>, opts: CheckOptions) -> (errs: Vec<Error>)
    requires
        pages.page_size >= 16,
        meta.freelist != PGID_NO_FREELIST && pages.has(meta.freelist) ==> meta.freelist + header_of(
            pages.bytes(meta.freelist),
        ).overflow <= u64::MAX,
        exists|n: nat| bounded_root(pages, start_of(*meta, opts.page_id), n),
    ensures
        all_corrupt(errs@),
        texts(errs@) == problems(
            (Scope { pages, hwm: meta.pgid, freed: ids@.to_set() }),
            *meta,
            ids@,
            opts.page_id,
            depth_of(pages, start_of(*meta, opts.page_id)),
        ),
{
    let mut errs: Vec<Error> = Vec::new();
    let freed: HashSet<Pgid> = note_freed(ids, &mut errs);
    let reach: HashSet<Pgid> = reserve(&pages, meta);
    let ghost n = depth_of(pages, start_of(*meta, opts.page_id));
    let mut search = Search { pages, hwm: meta.pgid, freed, reach, errs };
    let ghost s = search.scope();
    let ghost r0 = search.now();
    let done: Result<()> = search.check_tx_inner(meta, opts, Ghost(n));
    proof {
        assert(r0 == (Report { reach: reserved(pages, *meta), errs: relisted(ids@, ids@.len()), halt: None }));
        assert(s == (Scope { pages, hwm: meta.pgid, freed: ids@.to_set() }));
    }
    let ghost then = checked(s, *meta, ids@, opts.page_id, n);
    let ghost e0 = search.errs@;
    assert(texts(e0) == then.errs);
    match done {
        Ok(_) => {},
        Err(e) => {
            search.errs.push(e);
            assert(texts(search.errs@) =~= texts(e0).push(error_text(e)));
        },
    }
    search.errs
}

impl<'a> Search<'a> {
    fn check_tx_inner(&mut self, meta: &Meta, opts: CheckOptions, Ghost(n): Ghost<nat>) -> (r: Result<()>)
        requires
            old(self).fit(),
            old(self).hwm == meta.pgid,
            bounded_root(old(self).pages, start_of(*meta, opts.page_id), n),
        ensures
            final(self).fit(),
            final(self).scope() == old(self).scope(),
            came_to(
                r,
                final(self).now(),
                checked_from(old(self).scope(), *meta, opts.page_id, n, old(self).now()),
            ),
    {
        if opts.page_id == 0 {
            let root: Pgid = meta.root.root;
            if root != 0 {
                match self.recursively_check_page(root, Ghost(n)) {
                    Ok(_) => {},
                    Err(e) => {
                        return Err(e);
                    },
                }
            }
            self.find_lost(meta.pgid);
            return Ok(());
        }
        if opts.page_id < 2 || opts.page_id >= meta.pgid {
            let mut text: String = "page ID (".to_string();
            push_decimal(&mut text, opts.page_id);
            text.append(") out of range [2, ");
            push_decimal(&mut text, meta.pgid);
            text.append(")");
            self.complain(text);
            return Ok(());
        }
        self.recursively_check_page(opts.page_id, Ghost(n))
    }

    /// Complains of the pages that neither were met nor are free.
    fn find_lost(&mut self, hwm: Pgid)
        requires
            old(self).fit(),
        ensures
            final(self).fit(),
            final(self).scope() == old(self).scope(),
            final(self).now() == (Report {
                errs: old(self).now().errs + lost(old(self).reach@, old(self).freed@, hwm as nat),
                ..old(self).now()
            }),
    {
        let ghost e0 = texts(self.errs@);
        let ghost reach = self.reach@;
        let ghost freed = self.freed@;
        let mut i: Pgid = 0;
        assert(e0 + lost(reach, freed, 0) =~= e0);
        while i < hwm
            invariant
                i <= hwm,
                self.fit(),
                self.scope() == old(self).scope(),
                self.reach@ == reach,
                self.freed@ == freed,
                texts(self.errs@) == e0 + lost(reach, freed, i as nat),
            decreases hwm - i,
        {
            if !self.reach.contains(&i) && !self.freed.contains(&i) {
                let text: String = about(i, ": unreachable unfreed");
                let ghost before = self.now();
                self.complain(text);
                assert(self.now().reach == before.reach);
                assert(self.now().errs =~= e0 + lost(reach, freed, (i + 1) as nat));
            }
            i = i + 1;
        }
    }
}

} // verus!
