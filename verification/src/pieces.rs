//! What is written of a bucket, piece by piece.
use vstd::prelude::*;
use crate::freelist::FreelistV;
use crate::inode::{data_len, page_len, views, InodeV};
use crate::node::Node;
use crate::spans::is_run;
use crate::split::{lemma_split_parts, lemma_split_pos, one_page, split_from, split_parts, split_pos};
use crate::tree::Key;
use crate::writer::{pages_for, stuck_at, Writer};

verus! {

/// The entry for a page that begins with `key`. Which page that will be makes no difference to the
/// size of the entry.
pub open spec fn blank(key: Key) -> InodeV {
    InodeV { flags: 0, pgid: 0, key, value: Seq::empty() }
}

/// Entries without the pages that they lead to.
pub open spec fn blanks(v: Seq<InodeV>) -> Seq<InodeV> {
    Seq::new(v.len(), |i: int| blank(v[i].key))
}

/// The entries for the pieces that a row is split into.
pub open spec fn heads(row: Seq<InodeV>, page_size: int, split_at: int) -> Seq<InodeV> {
    let parts = split_parts(row, page_size, split_at);
    Seq::new(parts.len(), |i: int| blank(parts[i][0].key))
}

/// The elements that a node is written with. In a branch the entries of the pieces of a child that
/// is in memory take the place of its entry.
pub open spec fn node_row(n: Node, page_size: int, split_at: int) -> Seq<InodeV>
    decreases n,
{
    if n.is_leaf {
        views(n.inodes@)
    } else {
        children_row(n.children@, views(n.inodes@), page_size, split_at)
    }
}

/// The entries of the children of a branch.
pub open spec fn children_row(
    children: Seq<Option<Box<Node>>>,
    inodes: Seq<InodeV>,
    page_size: int,
    split_at: int,
) -> Seq<InodeV>
    decreases children,
{
    if children.len() == 0 {
        Seq::empty()
    } else {
        children_row(children.drop_last(), inodes.drop_last(), page_size, split_at) + child_row(
            children.last(),
            inodes.last(),
            page_size,
            split_at,
        )
    }
}

/// The entries of one child of a branch.
pub open spec fn child_row(child: Option<Box<Node>>, inode: InodeV, page_size: int, split_at: int) -> Seq<InodeV>
    decreases child,
{
    match child {
        Some(c) => heads(node_row(*c, page_size, split_at), page_size, split_at),
        None => seq![blank(inode.key)],
    }
}

/// What is written of a node and of all that is in memory below it, in order: what is below comes
/// first. Each piece gets pages of its own.
pub open spec fn node_pieces(n: Node, page_size: int, split_at: int) -> Seq<Seq<InodeV>>
    decreases n,
{
    children_pieces(n.children@, page_size, split_at) + split_parts(
        node_row(n, page_size, split_at),
        page_size,
        split_at,
    )
}

/// What is written of the children of a branch that are in memory.
pub open spec fn children_pieces(children: Seq<Option<Box<Node>>>, page_size: int, split_at: int) -> Seq<Seq<InodeV>>
    decreases children,
{
    if children.len() == 0 {
        Seq::empty()
    } else {
        children_pieces(children.drop_last(), page_size, split_at) + child_pieces(children.last(), page_size, split_at)
    }
}

/// What is written of one child of a branch.
pub open spec fn child_pieces(child: Option<Box<Node>>, page_size: int, split_at: int) -> Seq<Seq<InodeV>>
    decreases child,
{
    match child {
        Some(c) => node_pieces(*c, page_size, split_at),
        None => Seq::empty(),
    }
}

/// The branches that are written over a row of entries, until there is only one.
pub open spec fn rising(row: Seq<InodeV>, page_size: int, split_at: int) -> Seq<Seq<InodeV>>
    decreases row.len(),
    when 0 <= split_at <= page_size
    via rising_ends
{
    if row.len() <= 1 {
        Seq::empty()
    } else {
        split_parts(row, page_size, split_at) + rising(heads(row, page_size, split_at), page_size, split_at)
    }
}

#[via_fn]
proof fn rising_ends(row: Seq<InodeV>, page_size: int, split_at: int) {
    lemma_split_parts(row, page_size, split_at);
}

/// What is written of a bucket with this root.
pub open spec fn root_pieces(n: Node, page_size: int, split_at: int) -> Seq<Seq<InodeV>> {
    node_pieces(n, page_size, split_at) + rising(
        heads(node_row(n, page_size, split_at), page_size, split_at),
        page_size,
        split_at,
    )
}

/// The number of pages that some pieces take.
pub open spec fn all_pages(pieces: Seq<Seq<InodeV>>, page_size: int) -> int
    decreases pieces.len(),
{
    if pieces.len() == 0 {
        0
    } else {
        all_pages(pieces.drop_last(), page_size) + pages_for(page_len(pieces.last()), page_size)
    }
}

/// The number of pages that those pieces take for which the file has grown.
pub open spec fn grown_pages(pieces: Seq<Seq<InodeV>>, grown: Seq<bool>, page_size: int) -> int
    decreases pieces.len(),
{
    if pieces.len() == 0 {
        0
    } else {
        grown_pages(pieces.drop_last(), grown.drop_last(), page_size) + (if grown.last() {
            pages_for(page_len(pieces.last()), page_size)
        } else {
            0
        })
    }
}

/// There is no run of so many free pages.
pub open spec fn no_run(list: FreelistV, count: int) -> bool {
    forall|s: int| !is_run(list.free, s, count)
}

/// The pieces for which the file has grown are those that `grown` says. For none of them there is a
/// run of free pages that is long enough.
pub open spec fn grew_for(
    from: int,
    to: int,
    page_size: int,
    list: FreelistV,
    pieces: Seq<Seq<InodeV>>,
    grown: Seq<bool>,
) -> bool {
    &&& grown.len() == pieces.len()
    &&& to == from + grown_pages(pieces, grown, page_size)
    &&& forall|k: int|
        0 <= k < pieces.len() && #[trigger] grown[k] ==> no_run(list, pages_for(page_len(pieces[k]), page_size))
}

/// While the pieces were written the end of the file has gone from page `from` to page `to`: it has
/// grown only for pieces for which there were not enough free pages in a row.
#[verifier::opaque]
pub open spec fn grew(from: int, to: int, page_size: int, list: FreelistV, pieces: Seq<Seq<InodeV>>) -> bool {
    exists|grown: Seq<bool>| #[trigger] grew_for(from, to, page_size, list, pieces, grown)
}

/// The same of a writer.
pub open spec fn grew_by(w0: Writer, w1: Writer, list: FreelistV, pieces: Seq<Seq<InodeV>>) -> bool {
    grew(w0.hwm as int, w1.hwm as int, w0.page_size as int, list, pieces)
}

/// The pieces before the `k`th one were written. For that one no pages could be had.
pub open spec fn halted_at(w0: Writer, w1: Writer, list: FreelistV, pieces: Seq<Seq<InodeV>>, k: int) -> bool {
    &&& 0 <= k < pieces.len()
    &&& grew_by(w0, w1, list, pieces.take(k))
    &&& stuck_at(w1, list, pages_for(page_len(pieces[k]), w0.page_size as int))
}

/// For one of the pieces, after those before it were written, no pages could be had.
pub open spec fn halted(w0: Writer, w1: Writer, list: FreelistV, pieces: Seq<Seq<InodeV>>) -> bool {
    exists|k: int| #[trigger] halted_at(w0, w1, list, pieces, k)
}

proof fn lemma_grown_add(
    a: Seq<Seq<InodeV>>,
    x: Seq<bool>,
    b: Seq<Seq<InodeV>>,
    y: Seq<bool>,
    page_size: int,
)
    requires
        a.len() == x.len(),
        b.len() == y.len(),
    ensures
        grown_pages(a + b, x + y, page_size) == grown_pages(a, x, page_size) + grown_pages(b, y, page_size),
    decreases b.len(),
{
    if b.len() == 0 {
        assert(a + b =~= a);
        assert(x + y =~= x);
    } else {
        lemma_grown_add(a, x, b.drop_last(), y.drop_last(), page_size);
        assert((a + b).drop_last() =~= a + b.drop_last());
        assert((x + y).drop_last() =~= x + y.drop_last());
        assert((a + b).last() == b.last());
        assert((x + y).last() == y.last());
    }
}

/// Where there are fewer free pages there is no run that there was not.
proof fn lemma_no_run(a: FreelistV, b: FreelistV, count: int)
    requires
        no_run(a, count),
        b.free.subset_of(a.free),
    ensures
        no_run(b, count),
{
    assert forall|s: int| !is_run(b.free, s, count) by {
        if is_run(b.free, s, count) {
            assert(is_run(a.free, s, count));
        }
    }
}

/// Nothing was written.
pub proof fn lemma_grew_none(at: int, page_size: int, list: FreelistV)
    ensures
        grew(at, at, page_size, list, Seq::empty()),
{
    reveal(grew);
    assert(grew_for(at, at, page_size, list, Seq::empty(), Seq::empty()));
}

/// One piece was written.
pub proof fn lemma_grew_one(from: int, to: int, page_size: int, list: FreelistV, piece: Seq<InodeV>)
    requires
        ({
            let count = pages_for(page_len(piece), page_size);
            to == from || to == from + count && no_run(list, count)
        }),
    ensures
        grew(from, to, page_size, list, seq![piece]),
{
    reveal(grew);
    let grown = seq![to != from];
    let only = seq![piece];
    assert(only.drop_last() =~= Seq::<Seq<InodeV>>::empty());
    assert(grown_pages(only.drop_last(), grown.drop_last(), page_size) == 0);
    assert(only.last() == piece);
    assert(grew_for(from, to, page_size, list, only, grown));
}

/// No more pages were added than the pieces take.
pub proof fn lemma_grew_most(from: int, to: int, page_size: int, list: FreelistV, pieces: Seq<Seq<InodeV>>)
    requires
        grew(from, to, page_size, list, pieces),
        page_size > 0,
    ensures
        to <= from + all_pages(pieces, page_size),
{
    reveal(grew);
    let grown = choose|grown: Seq<bool>| #[trigger] grew_for(from, to, page_size, list, pieces, grown);
    lemma_grown_most(pieces, grown, page_size);
}

proof fn lemma_grown_most(pieces: Seq<Seq<InodeV>>, grown: Seq<bool>, page_size: int)
    requires
        page_size > 0,
    ensures
        grown_pages(pieces, grown, page_size) <= all_pages(pieces, page_size),
    decreases pieces.len(),
{
    if pieces.len() > 0 {
        lemma_grown_most(pieces.drop_last(), grown.drop_last(), page_size);
        let len = page_len(pieces.last());
        assert((len + page_size - 1) / page_size >= 0) by (nonlinear_arith)
            requires
                len >= 0,
                page_size > 0,
        ;
    }
}

/// Some pieces were written after others, and meanwhile no page became free.
pub proof fn lemma_grew(
    x: int,
    y: int,
    z: int,
    page_size: int,
    list1: FreelistV,
    list2: FreelistV,
    a: Seq<Seq<InodeV>>,
    b: Seq<Seq<InodeV>>,
)
    requires
        list2.free.subset_of(list1.free),
        grew(x, y, page_size, list1, a),
        grew(y, z, page_size, list2, b),
    ensures
        grew(x, z, page_size, list2, a + b),
{
    reveal(grew);
    let g = choose|g: Seq<bool>| #[trigger] grew_for(x, y, page_size, list1, a, g);
    let h = choose|h: Seq<bool>| #[trigger] grew_for(y, z, page_size, list2, b, h);
    let c = a + b;
    let both = g + h;
    lemma_grown_add(a, g, b, h, page_size);
    assert forall|k: int| 0 <= k < c.len() && #[trigger] both[k] implies no_run(
        list2,
        pages_for(page_len(c[k]), page_size),
    ) by {
        if k < a.len() {
            assert(g[k]);
            lemma_no_run(list1, list2, pages_for(page_len(a[k]), page_size));
        } else {
            assert(h[k - a.len()]);
            assert(c[k] == b[k - a.len()]);
        }
    }
    assert(grew_for(x, z, page_size, list2, c, both));
}

pub proof fn lemma_pages_add(a: Seq<Seq<InodeV>>, b: Seq<Seq<InodeV>>, page_size: int)
    ensures
        all_pages(a + b, page_size) == all_pages(a, page_size) + all_pages(b, page_size),
    decreases b.len(),
{
    if b.len() == 0 {
        assert(a + b =~= a);
    } else {
        lemma_pages_add(a, b.drop_last(), page_size);
        assert((a + b).drop_last() =~= a + b.drop_last());
        assert((a + b).last() == b.last());
    }
}

/// A page is taken for each piece.
pub proof fn lemma_pages_positive(a: Seq<Seq<InodeV>>, page_size: int)
    requires
        page_size > 0,
    ensures
        all_pages(a, page_size) >= 0,
    decreases a.len(),
{
    if a.len() > 0 {
        lemma_pages_positive(a.drop_last(), page_size);
        let len = page_len(a.last());
        assert((len + page_size - 1) / page_size >= 0) by (nonlinear_arith)
            requires
                len >= 0,
                page_size > 0,
        ;
    }
}

/// The first pieces take no more than all.
pub proof fn lemma_pages_take(a: Seq<Seq<InodeV>>, k: int, page_size: int)
    requires
        page_size > 0,
        0 <= k < a.len(),
    ensures
        all_pages(a.take(k), page_size) + pages_for(page_len(a[k]), page_size) <= all_pages(a, page_size),
{
    assert(a =~= a.take(k + 1) + a.skip(k + 1));
    lemma_pages_add(a.take(k + 1), a.skip(k + 1), page_size);
    lemma_pages_positive(a.skip(k + 1), page_size);
    assert(a.take(k + 1).drop_last() =~= a.take(k));
}

/// After some pieces were written, one of the next could not be.
pub proof fn lemma_halted_later(
    w0: Writer,
    w1: Writer,
    w2: Writer,
    list1: FreelistV,
    list2: FreelistV,
    a: Seq<Seq<InodeV>>,
    b: Seq<Seq<InodeV>>,
    c: Seq<Seq<InodeV>>,
)
    requires
        w1.page_size == w0.page_size,
        list2.free.subset_of(list1.free),
        grew_by(w0, w1, list1, a),
        halted(w1, w2, list2, b),
    ensures
        halted(w0, w2, list2, a + b + c),
{
    let k = choose|k: int| #[trigger] halted_at(w1, w2, list2, b, k);
    let all = a + b + c;
    assert(all.take(a.len() + k) =~= a + b.take(k));
    lemma_grew(
        w0.hwm as int,
        w1.hwm as int,
        w2.hwm as int,
        w0.page_size as int,
        list1,
        list2,
        a,
        b.take(k),
    );
    assert(all[a.len() + k] == b[k]);
    assert(halted_at(w0, w2, list2, all, a.len() + k));
}

/// Some pieces were written after others.
pub proof fn lemma_grew_more(
    w0: Writer,
    w1: Writer,
    w2: Writer,
    list1: FreelistV,
    list2: FreelistV,
    a: Seq<Seq<InodeV>>,
    b: Seq<Seq<InodeV>>,
)
    requires
        w1.page_size == w0.page_size,
        list2.free.subset_of(list1.free),
        grew_by(w0, w1, list1, a),
        grew_by(w1, w2, list2, b),
    ensures
        grew_by(w0, w2, list2, a + b),
{
    lemma_grew(w0.hwm as int, w1.hwm as int, w2.hwm as int, w0.page_size as int, list1, list2, a, b);
}

/// The pieces have the same sizes.
pub open spec fn same_sizes(a: Seq<Seq<InodeV>>, b: Seq<Seq<InodeV>>) -> bool {
    &&& a.len() == b.len()
    &&& forall|i: int| 0 <= i < a.len() ==> page_len(#[trigger] a[i]) == page_len(b[i])
}

proof fn lemma_same_pages(a: Seq<Seq<InodeV>>, b: Seq<Seq<InodeV>>, grown: Seq<bool>, page_size: int)
    requires
        same_sizes(a, b),
    ensures
        grown_pages(a, grown, page_size) == grown_pages(b, grown, page_size),
    decreases a.len(),
{
    if a.len() > 0 {
        assert(page_len(a[a.len() - 1]) == page_len(b[b.len() - 1]));
        assert forall|i: int| 0 <= i < a.len() - 1 implies page_len(#[trigger] a.drop_last()[i]) == page_len(
            b.drop_last()[i],
        ) by {
            assert(page_len(a[i]) == page_len(b[i]));
        }
        lemma_same_pages(a.drop_last(), b.drop_last(), grown.drop_last(), page_size);
    }
}

proof fn lemma_same_growth(
    from: int,
    to: int,
    page_size: int,
    list: FreelistV,
    a: Seq<Seq<InodeV>>,
    b: Seq<Seq<InodeV>>,
)
    requires
        same_sizes(a, b),
        grew(from, to, page_size, list, a),
    ensures
        grew(from, to, page_size, list, b),
{
    reveal(grew);
    let grown = choose|grown: Seq<bool>| #[trigger] grew_for(from, to, page_size, list, a, grown);
    lemma_same_pages(a, b, grown, page_size);
    assert forall|k: int| 0 <= k < b.len() && #[trigger] grown[k] implies no_run(
        list,
        pages_for(page_len(b[k]), page_size),
    ) by {
        assert(page_len(a[k]) == page_len(b[k]));
    }
    assert(grew_for(from, to, page_size, list, b, grown));
}

/// Of pieces only the sizes count.
pub proof fn lemma_same_sizes(w0: Writer, w1: Writer, list: FreelistV, a: Seq<Seq<InodeV>>, b: Seq<Seq<InodeV>>)
    requires
        same_sizes(a, b),
    ensures
        grew_by(w0, w1, list, a) ==> grew_by(w0, w1, list, b),
        halted(w0, w1, list, a) ==> halted(w0, w1, list, b),
{
    let ps = w0.page_size as int;
    if grew_by(w0, w1, list, a) {
        lemma_same_growth(w0.hwm as int, w1.hwm as int, ps, list, a, b);
    }
    if halted(w0, w1, list, a) {
        let k = choose|k: int| #[trigger] halted_at(w0, w1, list, a, k);
        assert forall|i: int| 0 <= i < k implies page_len(#[trigger] a.take(k)[i]) == page_len(b.take(k)[i]) by {
            assert(page_len(a[i]) == page_len(b[i]));
        }
        lemma_same_growth(w0.hwm as int, w1.hwm as int, ps, list, a.take(k), b.take(k));
        assert(page_len(a[k]) == page_len(b[k]));
        assert(halted_at(w0, w1, list, b, k));
    }
}

proof fn lemma_blank_data(v: Seq<InodeV>)
    requires
        forall|i: int| 0 <= i < v.len() ==> (#[trigger] v[i]).value.len() == 0,
    ensures
        data_len(blanks(v)) == data_len(v),
    decreases v.len(),
{
    if v.len() > 0 {
        let u = v.drop_last();
        assert forall|i: int| 0 <= i < u.len() implies (#[trigger] u[i]).value.len() == 0 by {
            assert(u[i] == v[i]);
        }
        lemma_blank_data(u);
        assert(blanks(v).drop_last() =~= blanks(u));
        assert(v[v.len() - 1].value.len() == 0);
    }
}

/// Entries are split in the same way whatever pages they lead to.
pub proof fn lemma_blank_parts(v: Seq<InodeV>, page_size: int, split_at: int)
    requires
        0 <= split_at,
        forall|i: int| 0 <= i < v.len() ==> (#[trigger] v[i]).value.len() == 0,
    ensures
        ({
            let a = split_parts(v, page_size, split_at);
            let b = split_parts(blanks(v), page_size, split_at);
            &&& same_sizes(a, b)
            &&& forall|i: int| 0 <= i < a.len() ==> #[trigger] b[i] == blanks(a[i])
        }),
    decreases v.len(),
{
    let u = blanks(v);
    let a = split_parts(v, page_size, split_at);
    let b = split_parts(u, page_size, split_at);
    lemma_blank_data(v);
    if one_page(v, page_size) {
        assert(a == seq![v]);
        assert(b == seq![u]);
    } else {
        lemma_split_pos(v, split_at);
        lemma_blank_pos(v, split_at);
        let n = split_pos(v, split_at);
        let rest = v.skip(n);
        let first = v.take(n);
        assert forall|i: int| 0 <= i < rest.len() implies (#[trigger] rest[i]).value.len() == 0 by {
            assert(rest[i] == v[n + i]);
        }
        assert forall|i: int| 0 <= i < first.len() implies (#[trigger] first[i]).value.len() == 0 by {
            assert(first[i] == v[i]);
        }
        lemma_blank_parts(rest, page_size, split_at);
        lemma_blank_data(first);
        assert(u.skip(n) =~= blanks(rest));
        assert(u.take(n) =~= blanks(first));
        let ra = split_parts(rest, page_size, split_at);
        let rb = split_parts(blanks(rest), page_size, split_at);
        assert(a == seq![first] + ra);
        assert(b == seq![u.take(n)] + rb);
        assert forall|i: int| 0 <= i < a.len() implies page_len(#[trigger] a[i]) == page_len(b[i]) && b[i] == blanks(a[i]) by {
            if i > 0 {
                assert(a[i] == ra[i - 1]);
                assert(b[i] == rb[i - 1]);
                assert(page_len(ra[i - 1]) == page_len(rb[i - 1]));
            }
        }
    }
}

proof fn lemma_blank_from(v: Seq<InodeV>, threshold: int, i: int)
    requires
        forall|i: int| 0 <= i < v.len() ==> (#[trigger] v[i]).value.len() == 0,
        0 <= i,
    ensures
        split_from(blanks(v), threshold, i) == split_from(v, threshold, i),
    decreases v.len() - i,
{
    let u = blanks(v);
    if i + 1 >= v.len() - 2 {
    } else {
        let s = v.take(i + 1);
        assert forall|k: int| 0 <= k < s.len() implies (#[trigger] s[k]).value.len() == 0 by {
            assert(s[k] == v[k]);
        }
        lemma_blank_data(s);
        assert(u.take(i + 1) =~= blanks(s));
        lemma_blank_from(v, threshold, i + 1);
    }
}

proof fn lemma_blank_pos(v: Seq<InodeV>, threshold: int)
    requires
        forall|i: int| 0 <= i < v.len() ==> (#[trigger] v[i]).value.len() == 0,
    ensures
        split_pos(blanks(v), threshold) == split_pos(v, threshold),
{
    lemma_blank_from(v, threshold, 0);
}

/// The entries of the pieces that entries are split into.
pub proof fn lemma_heads(v: Seq<InodeV>, es: Seq<InodeV>, page_size: int, split_at: int)
    requires
        0 <= split_at,
        forall|i: int| 0 <= i < v.len() ==> (#[trigger] v[i]).value.len() == 0,
        es.len() == split_parts(v, page_size, split_at).len(),
        forall|i: int| 0 <= i < es.len() ==> (#[trigger] split_parts(v, page_size, split_at)[i]).len() > 0,
        forall|i: int|
            0 <= i < es.len() ==> (#[trigger] es[i]).key == split_parts(v, page_size, split_at)[i][0].key,
    ensures
        blanks(es) == heads(blanks(v), page_size, split_at),
{
    lemma_blank_parts(v, page_size, split_at);
    let a = split_parts(v, page_size, split_at);
    let b = split_parts(blanks(v), page_size, split_at);
    assert forall|i: int| 0 <= i < es.len() implies blanks(es)[i] == heads(blanks(v), page_size, split_at)[i] by {
        assert(b[i] == blanks(a[i]));
        assert(es[i].key == a[i][0].key);
    }
    assert(blanks(es) =~= heads(blanks(v), page_size, split_at));
}

/// The entries of the pieces that the elements of a leaf are split into.
pub proof fn lemma_leaf_heads(v: Seq<InodeV>, es: Seq<InodeV>, page_size: int, split_at: int)
    requires
        es.len() == split_parts(v, page_size, split_at).len(),
        forall|i: int|
            0 <= i < es.len() ==> (#[trigger] es[i]).key == split_parts(v, page_size, split_at)[i][0].key,
    ensures
        blanks(es) == heads(v, page_size, split_at),
{
    assert(blanks(es) =~= heads(v, page_size, split_at));
}

/// One more child.
pub proof fn lemma_next_child(
    children: Seq<Option<Box<Node>>>,
    inodes: Seq<InodeV>,
    i: int,
    page_size: int,
    split_at: int,
)
    requires
        0 <= i < children.len(),
        inodes.len() == children.len(),
    ensures
        children_row(children.take(i + 1), inodes.take(i + 1), page_size, split_at) == children_row(
            children.take(i),
            inodes.take(i),
            page_size,
            split_at,
        ) + child_row(children[i], inodes[i], page_size, split_at),
        children_pieces(children.take(i + 1), page_size, split_at) == children_pieces(
            children.take(i),
            page_size,
            split_at,
        ) + child_pieces(children[i], page_size, split_at),
{
    assert(children.take(i + 1).drop_last() =~= children.take(i));
    assert(inodes.take(i + 1).drop_last() =~= inodes.take(i));
    assert(children.take(i + 1).last() == children[i]);
    assert(inodes.take(i + 1).last() == inodes[i]);
}

/// The children after the first ones come later.
pub proof fn lemma_first_children(children: Seq<Option<Box<Node>>>, i: int, page_size: int, split_at: int)
    requires
        0 <= i <= children.len(),
    ensures
        exists|rest: Seq<Seq<InodeV>>|
            children_pieces(children, page_size, split_at) == #[trigger] (children_pieces(
                children.take(i),
                page_size,
                split_at,
            ) + rest),
    decreases children.len() - i,
{
    let none = Seq::<Seq<InodeV>>::empty();
    let some = children_pieces(children.take(i), page_size, split_at);
    if i == children.len() {
        assert(children.take(i) =~= children);
        assert(some + none =~= some);
    } else {
        lemma_first_children(children, i + 1, page_size, split_at);
        let next = children_pieces(children.take(i + 1), page_size, split_at);
        let rest = choose|rest: Seq<Seq<InodeV>>|
            children_pieces(children, page_size, split_at) == #[trigger] (next + rest);
        assert(children.take(i + 1).drop_last() =~= children.take(i));
        let mine = child_pieces(children[i], page_size, split_at);
        assert(next == some + mine);
        assert(next + rest =~= some + (mine + rest));
    }
}

} // verus!
