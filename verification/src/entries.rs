//! The entries of a directory listing: which are shown, what of them, and in what order.

use vstd::prelude::*;
use vstd::utf8::*;

use crate::modified::ModTime;

verus! {

/// What the file system tells of a directory item itself, not of what a link leads to.
#[derive(Debug)]
pub struct ItemMeta {
    pub is_dir: bool,
    pub len: u64,
    pub modified: Option<ModTime>,
    /// Whether the item is a link that leads nowhere.
    pub dangling: bool,
}

/// An item read from a directory; nothing is told of it where it could not be examined.
#[derive(Debug)]
pub struct DirItem {
    pub name: String,
    pub meta: Option<ItemMeta>,
}

/// A line of a listing.
#[derive(Debug)]
pub struct ListingEntry {
    pub name: String,
    pub is_dir: bool,
    pub size: Option<u64>,
    pub mtime: Option<ModTime>,
}

/// Whether a name is that of a hidden item.
pub open spec fn hidden(name: Seq<char>) -> bool {
    name.len() > 0 && name[0] == '.'
}

/// The line for an item: directories show no size, a link that leads nowhere and an item that
/// could not be examined show neither size nor time.
pub open spec fn entry_of(item: DirItem) -> ListingEntry {
    match item.meta {
        Some(m) if !m.dangling => ListingEntry {
            name: item.name,
            is_dir: m.is_dir,
            size: if m.is_dir {
                None
            } else {
                Some(m.len)
            },
            mtime: m.modified,
        },
        _ => ListingEntry { name: item.name, is_dir: false, size: None, mtime: None },
    }
}

/// The lines for the items that are not hidden, in the order of the items.
pub open spec fn visible(items: Seq<DirItem>) -> Seq<ListingEntry>
    decreases items.len(),
{
    if items.len() == 0 {
        Seq::empty()
    } else if hidden(items.last().name@) {
        visible(items.drop_last())
    } else {
        visible(items.drop_last()).push(entry_of(items.last()))
    }
}

/// Whether the bytes `a` come before the bytes `b`, compared from the first byte on.
pub open spec fn bytes_less(a: Seq<u8>, b: Seq<u8>) -> bool
    decreases a.len(),
{
    b.len() > 0 && (a.len() == 0 || a[0] < b[0] || (a[0] == b[0] && bytes_less(
        a.drop_first(),
        b.drop_first(),
    )))
}

/// The bytes that an entry is ordered by.
pub open spec fn key(e: ListingEntry) -> Seq<u8> {
    encode_utf8(e.name@)
}

/// Whether entry `i` belongs before entry `j`: by the bytes of their names, and where those
/// are the same, as they stand.
pub open spec fn comes_before(e: Seq<ListingEntry>, i: int, j: int) -> bool {
    bytes_less(key(e[i]), key(e[j])) || (key(e[i]) == key(e[j]) && i < j)
}

/// Whether `order` runs through all positions of `e` as the entries belong.
pub open spec fn sorts(e: Seq<ListingEntry>, order: Seq<int>) -> bool {
    &&& order.len() == e.len()
    &&& forall|k: int| 0 <= k < order.len() ==> 0 <= #[trigger] order[k] < e.len()
    &&& forall|i: int| 0 <= i < e.len() ==> #[trigger] order.contains(i)
    &&& forall|k: int, l: int|
        0 <= k < l < order.len() ==> comes_before(e, #[trigger] order[k], #[trigger] order[l])
}

/// Whether `out` holds the entries of `e` sorted by name, entries of the same name in the
/// order in which they stand in `e`.
pub open spec fn is_sorted_listing(e: Seq<ListingEntry>, out: Seq<ListingEntry>) -> bool {
    exists|order: Seq<int>| #[trigger]
        sorts(e, order) && out == order.map_values(|i: int| e[i])
}

/// Whether a name is that of a hidden item: it starts with a dot.
pub fn is_hidden(name: &str) -> (yes: bool)
    ensures
        yes == hidden(name@),
{
    let mut chars = name.chars();
    match chars.next() {
        Some(c) => c == '.',
        None => false,
    }
}

/// The line for a directory item.
pub fn listing_entry(item: DirItem) -> (entry: ListingEntry)
    ensures
        entry == entry_of(item),
{
    match item.meta {
        Some(meta) => {
            if meta.dangling {
                ListingEntry { name: item.name, is_dir: false, size: None, mtime: None }
            } else {
                ListingEntry {
                    name: item.name,
                    is_dir: meta.is_dir,
                    size: if meta.is_dir {
                        None
                    } else {
                        Some(meta.len)
                    },
                    mtime: meta.modified,
                }
            }
        },
        None => ListingEntry { name: item.name, is_dir: false, size: None, mtime: None },
    }
}

/// No bytes come before themselves, of two different ones one comes before the other, and not
/// the other way round.
proof fn bytes_less_total(a: Seq<u8>, b: Seq<u8>)
    ensures
        a == b ==> !bytes_less(a, b),
        a != b ==> bytes_less(a, b) || bytes_less(b, a),
        !(bytes_less(a, b) && bytes_less(b, a)),
    decreases a.len(),
{
    if a.len() > 0 && b.len() > 0 {
        bytes_less_total(a.drop_first(), b.drop_first());
        assert(a =~= seq![a[0]] + a.drop_first());
        assert(b =~= seq![b[0]] + b.drop_first());
    } else if a.len() == 0 && b.len() == 0 {
        assert(a =~= b);
    }
}

/// What comes before something comes before all that follows it.
proof fn bytes_less_transitive(a: Seq<u8>, b: Seq<u8>, c: Seq<u8>)
    requires
        bytes_less(a, b),
        bytes_less(b, c),
    ensures
        bytes_less(a, c),
    decreases a.len(),
{
    if a.len() > 0 {
        if a[0] == b[0] && b[0] == c[0] {
            bytes_less_transitive(a.drop_first(), b.drop_first(), c.drop_first());
        }
    }
}

/// `comes_before` is a strict order.
proof fn comes_before_transitive(e: Seq<ListingEntry>, i: int, j: int, k: int)
    requires
        comes_before(e, i, j),
        comes_before(e, j, k),
    ensures
        comes_before(e, i, k),
{
    if bytes_less(key(e[i]), key(e[j])) && bytes_less(key(e[j]), key(e[k])) {
        bytes_less_transitive(key(e[i]), key(e[j]), key(e[k]));
    }
}

/// Of two different entries exactly one comes before the other.
proof fn comes_before_total(e: Seq<ListingEntry>, i: int, j: int)
    ensures
        i == j ==> !comes_before(e, i, j),
        i != j ==> comes_before(e, i, j) || comes_before(e, j, i),
        !(comes_before(e, i, j) && comes_before(e, j, i)),
{
    bytes_less_total(key(e[i]), key(e[j]));
}

/// Whether the bytes `a` come before the bytes `b`.
fn less(a: &[u8], b: &[u8]) -> (yes: bool)
    ensures
        yes == bytes_less(a@, b@),
{
    let mut i: usize = 0;
    assert(a@.skip(0) =~= a@ && b@.skip(0) =~= b@);
    while i < a.len() && i < b.len()
        invariant
            i <= a@.len(),
            i <= b@.len(),
            bytes_less(a@, b@) == bytes_less(a@.skip(i as int), b@.skip(i as int)),
        decreases a@.len() - i,
    {
        assert(a@.skip(i as int).drop_first() =~= a@.skip(i + 1));
        assert(b@.skip(i as int).drop_first() =~= b@.skip(i + 1));
        if a[i] < b[i] {
            return true;
        }
        if a[i] > b[i] {
            return false;
        }
        i = i + 1;
    }
    i < b.len()
}

/// Whether a list of positions in `e` is ordered.
spec fn ordered(e: Seq<ListingEntry>, v: Seq<usize>) -> bool {
    forall|k: int, l: int|
        0 <= k < l < v.len() ==> comes_before(e, #[trigger] v[k] as int, #[trigger] v[l] as int)
}

/// Whether a list of positions holds exactly those from `lo` up to `hi`.
spec fn covers(v: Seq<usize>, lo: int, hi: int) -> bool {
    &&& v.len() == hi - lo
    &&& forall|k: int| 0 <= k < v.len() ==> lo <= #[trigger] v[k] < hi
    &&& forall|i: usize| lo <= i < hi ==> #[trigger] v.contains(i)
}

/// Merges two ordered lists of positions, of which those on the left are the smaller ones.
fn merge(e: &Vec<ListingEntry>, left: &Vec<usize>, right: &Vec<usize>, lo: usize, mid: usize, hi: usize) -> (out:
    Vec<usize>)
    requires
        lo <= mid <= hi <= e@.len(),
        covers(left@, lo as int, mid as int),
        covers(right@, mid as int, hi as int),
        ordered(e@, left@),
        ordered(e@, right@),
    ensures
        covers(out@, lo as int, hi as int),
        ordered(e@, out@),
{
    let mut out: Vec<usize> = Vec::new();
    let mut a: usize = 0;
    let mut b: usize = 0;
    while a < left.len() || b < right.len()
        invariant
            lo <= mid <= hi <= e@.len(),
            covers(left@, lo as int, mid as int),
            covers(right@, mid as int, hi as int),
            ordered(e@, left@),
            ordered(e@, right@),
            a <= left@.len(),
            b <= right@.len(),
            out@.len() == a + b,
            ordered(e@, out@),
            forall|k: int| 0 <= k < out@.len() ==> lo <= #[trigger] out@[k] < hi,
            forall|k: int| 0 <= k < a ==> out@.contains(#[trigger] left@[k]),
            forall|k: int| 0 <= k < b ==> out@.contains(#[trigger] right@[k]),
            forall|k: int, l: int|
                0 <= k < out@.len() && a <= l < left@.len() ==> comes_before(
                    e@,
                    #[trigger] out@[k] as int,
                    #[trigger] left@[l] as int,
                ),
            forall|k: int, l: int|
                0 <= k < out@.len() && b <= l < right@.len() ==> comes_before(
                    e@,
                    #[trigger] out@[k] as int,
                    #[trigger] right@[l] as int,
                ),
        decreases left@.len() - a + right@.len() - b,
    {
        let from_left = if a >= left.len() {
            false
        } else if b >= right.len() {
            true
        } else {
            let l: usize = left[a];
            let r: usize = right[b];
            !less(e[r].name.as_str().as_bytes(), e[l].name.as_str().as_bytes())
        };
        let ghost before = out@;
        let next: usize = if from_left {
            left[a]
        } else {
            right[b]
        };
        proof {
            if a < left@.len() && b < right@.len() {
                comes_before_total(e@, left@[a as int] as int, right@[b as int] as int);
                bytes_less_total(key(e@[left@[a as int] as int]), key(e@[right@[b as int] as int]));
            }
        }
        out.push(next);
        proof {
            assert forall|x: usize| before.contains(x) implies out@.contains(x) by {
                let k = choose|k: int| 0 <= k < before.len() && before[k] == x;
                assert(out@[k] == x);
            }
            assert(out@[before.len() as int] == next);
            assert(out@.contains(next));
            // Whatever is left of the other list comes after what was taken.
            if from_left {
                assert forall|l: int| b <= l < right@.len() implies comes_before(
                    e@,
                    next as int,
                    #[trigger] right@[l] as int,
                ) by {
                    if l > b {
                        comes_before_transitive(
                            e@,
                            next as int,
                            right@[b as int] as int,
                            right@[l] as int,
                        );
                    }
                }
            } else {
                assert forall|l: int| a <= l < left@.len() implies comes_before(
                    e@,
                    next as int,
                    #[trigger] left@[l] as int,
                ) by {
                    if l > a {
                        comes_before_transitive(
                            e@,
                            next as int,
                            left@[a as int] as int,
                            left@[l] as int,
                        );
                    }
                }
            }
        }
        if from_left {
            a = a + 1;
        } else {
            b = b + 1;
        }
    }
    proof {
        assert forall|i: usize| lo <= i < hi implies #[trigger] out@.contains(i) by {
            if i < mid {
                assert(left@.contains(i));
                let k = choose|k: int| 0 <= k < left@.len() && left@[k] == i;
                assert(out@.contains(left@[k]));
            } else {
                assert(right@.contains(i));
                let k = choose|k: int| 0 <= k < right@.len() && right@[k] == i;
                assert(out@.contains(right@[k]));
            }
        }
    }
    out
}

/// The positions of `e` from `lo` up to `hi`, ordered.
fn order_range(e: &Vec<ListingEntry>, lo: usize, hi: usize) -> (out: Vec<usize>)
    requires
        lo <= hi <= e@.len(),
    ensures
        covers(out@, lo as int, hi as int),
        ordered(e@, out@),
    decreases hi - lo,
{
    let mut out: Vec<usize> = Vec::new();
    if hi - lo == 0 {
        out
    } else if hi - lo == 1 {
        out.push(lo);
        assert(out@[0] == lo);
        out
    } else {
        let mid: usize = lo + (hi - lo) / 2;
        let left = order_range(e, lo, mid);
        let right = order_range(e, mid, hi);
        merge(e, &left, &right, lo, mid, hi)
    }
}

/// The entries sorted by the bytes of their names; entries of the same name stay in order.
fn sort_entries(e: &Vec<ListingEntry>) -> (out: Vec<ListingEntry>)
    ensures
        is_sorted_listing(e@, out@),
{
    let n: usize = e.len();
    let order = order_range(e, 0, n);
    let ghost path = order@.map_values(|i: usize| i as int);
    let mut out: Vec<ListingEntry> = Vec::new();
    let mut k: usize = 0;
    while k < n
        invariant
            n == e@.len() == order@.len(),
            covers(order@, 0, n as int),
            k <= n,
            path == order@.map_values(|i: usize| i as int),
            out@ == path.take(k as int).map_values(|i: int| e@[i]),
        decreases n - k,
    {
        let at = &e[order[k]];
        out.push(
            ListingEntry {
                name: at.name.clone(),
                is_dir: at.is_dir,
                size: at.size,
                mtime: at.mtime,
            },
        );
        k = k + 1;
        assert(out@ =~= path.take(k as int).map_values(|i: int| e@[i]));
    }
    proof {
        assert(path.take(n as int) =~= path);
        assert forall|i: int| 0 <= i < e@.len() implies #[trigger] path.contains(i) by {
            assert(order@.contains(i as usize));
            let k = choose|k: int| 0 <= k < order@.len() && order@[k] == i as usize;
            assert(path[k] == i);
        }
        assert forall|k: int, l: int| 0 <= k < l < path.len() implies comes_before(
            e@,
            #[trigger] path[k],
            #[trigger] path[l],
        ) by {
            assert(comes_before(e@, order@[k] as int, order@[l] as int));
        }
        assert(sorts(e@, path));
    }
    out
}

/// The lines of the listing for the items read from a directory: hidden ones left out,
/// sorted by name.
pub fn collect_entries(items: Vec<DirItem>) -> (out: Vec<ListingEntry>)
    ensures
        is_sorted_listing(visible(items@), out@),
{
    let mut shown: Vec<ListingEntry> = Vec::new();
    for item in it: items
        invariant
            it.seq() == items@,
            shown@ == visible(items@.take(it.index())),
    {
        proof {
            assert(items@.take(it.index() + 1).drop_last() =~= items@.take(it.index()));
        }
        if !is_hidden(item.name.as_str()) {
            shown.push(listing_entry(item));
        }
    }
    proof {
        assert(items@.take(items@.len() as int) =~= items@);
    }
    sort_entries(&shown)
}

/// Two orders that sort the same entries agree up to any position.
proof fn orders_agree(e: Seq<ListingEntry>, p: Seq<int>, q: Seq<int>, n: int)
    requires
        sorts(e, p),
        sorts(e, q),
        0 <= n <= e.len(),
    ensures
        forall|k: int| 0 <= k < n ==> p[k] == q[k],
    decreases n,
{
    if n > 0 {
        orders_agree(e, p, q, n - 1);
        let k = n - 1;
        if p[k] != q[k] {
            assert(q.contains(p[k]) && p.contains(q[k]));
            let i = choose|i: int| 0 <= i < q.len() && q[i] == p[k];
            let j = choose|j: int| 0 <= j < p.len() && p[j] == q[k];
            if i < k {
                assert(p[i] == q[i]);
                assert(comes_before(e, p[i], p[k]));
                comes_before_total(e, p[i], p[k]);
            }
            if j < k {
                assert(p[j] == q[j]);
                assert(comes_before(e, q[j], q[k]));
                comes_before_total(e, q[j], q[k]);
            }
            assert(comes_before(e, q[k], q[i]));
            assert(comes_before(e, p[k], p[j]));
            comes_before_total(e, p[k], q[k]);
        }
    }
}

/// There is one sorted listing of given entries.
pub proof fn sorted_listing_is_unique(
    e: Seq<ListingEntry>,
    a: Seq<ListingEntry>,
    b: Seq<ListingEntry>,
)
    requires
        is_sorted_listing(e, a),
        is_sorted_listing(e, b),
    ensures
        a == b,
{
    let p = choose|order: Seq<int>| #[trigger]
        sorts(e, order) && a == order.map_values(|i: int| e[i]);
    let q = choose|order: Seq<int>| #[trigger]
        sorts(e, order) && b == order.map_values(|i: int| e[i]);
    orders_agree(e, p, q, e.len() as int);
    assert(a =~= b);
}

/// Names in a listing ascend in the order of their bytes.
pub proof fn listing_is_ascending(e: Seq<ListingEntry>, out: Seq<ListingEntry>, k: int, l: int)
    requires
        is_sorted_listing(e, out),
        0 <= k < l < out.len(),
    ensures
        bytes_less(key(out[k]), key(out[l])) || key(out[k]) == key(out[l]),
{
    let p = choose|order: Seq<int>| #[trigger]
        sorts(e, order) && out == order.map_values(|i: int| e[i]);
    assert(comes_before(e, p[k], p[l]));
}

/// The visible lines are those of the items that are not hidden.
proof fn visible_members(items: Seq<DirItem>)
    ensures
        forall|k: int|
            0 <= k < visible(items).len() ==> exists|i: int|
                0 <= i < items.len() && !hidden(items[i].name@) && #[trigger] visible(items)[k]
                    == entry_of(#[trigger] items[i]),
        forall|i: int|
            0 <= i < items.len() && !hidden((#[trigger] items[i]).name@) ==> visible(
                items,
            ).contains(entry_of(items[i])),
    decreases items.len(),
{
    if items.len() > 0 {
        let front = items.drop_last();
        visible_members(front);
        let all = visible(items);
        let last = items.len() - 1;
        assert forall|k: int| 0 <= k < all.len() implies exists|i: int|
            0 <= i < items.len() && !hidden(items[i].name@) && #[trigger] all[k] == entry_of(
                #[trigger] items[i],
            ) by {
            if k < visible(front).len() {
                assert(all[k] == visible(front)[k]);
                let i = choose|i: int|
                    0 <= i < front.len() && !hidden(front[i].name@) && visible(front)[k]
                        == entry_of(#[trigger] front[i]);
                assert(items[i] == front[i]);
            } else {
                assert(all[k] == entry_of(items[last]));
            }
        }
        assert forall|i: int|
            0 <= i < items.len() && !hidden((#[trigger] items[i]).name@) implies all.contains(
            entry_of(items[i]),
        ) by {
            if i < last {
                assert(front[i] == items[i]);
                let k = choose|k: int|
                    0 <= k < visible(front).len() && visible(front)[k] == entry_of(front[i]);
                assert(all[k] == visible(front)[k]);
            } else {
                assert(all[all.len() - 1] == entry_of(items[i]));
            }
        }
    }
}

/// A listing shows every item that is not hidden, and nothing else.
pub proof fn listing_shows_what_is_visible(items: Seq<DirItem>, out: Seq<ListingEntry>)
    requires
        is_sorted_listing(visible(items), out),
    ensures
        forall|i: int|
            0 <= i < items.len() && !hidden((#[trigger] items[i]).name@) ==> out.contains(
                entry_of(items[i]),
            ),
        forall|k: int| 0 <= k < out.len() ==> !hidden((#[trigger] out[k]).name@),
        forall|k: int|
            0 <= k < out.len() ==> exists|i: int|
                0 <= i < items.len() && #[trigger] out[k] == entry_of(#[trigger] items[i]),
        out.len() == visible(items).len(),
{
    let e = visible(items);
    let p = choose|order: Seq<int>| #[trigger]
        sorts(e, order) && out == order.map_values(|i: int| e[i]);
    visible_members(items);
    assert forall|i: int|
        0 <= i < items.len() && !hidden((#[trigger] items[i]).name@) implies out.contains(
        entry_of(items[i]),
    ) by {
        let j = choose|j: int| 0 <= j < e.len() && e[j] == entry_of(items[i]);
        assert(p.contains(j));
        let k = choose|k: int| 0 <= k < p.len() && p[k] == j;
        assert(out[k] == e[j]);
    }
    assert forall|k: int| 0 <= k < out.len() implies exists|i: int|
        0 <= i < items.len() && !hidden(items[i].name@) && #[trigger] out[k] == entry_of(
            #[trigger] items[i],
        ) by {
        assert(out[k] == e[p[k]]);
    }
}

/// What an entry shows is what the item tells: for an item that was examined and is no link that
/// leads nowhere, directory or not, its name, whether it is a directory and when it was changed,
/// and its length unless it is a directory; for any other item its name alone.
pub proof fn entries_tell_of_their_items(item: DirItem)
    ensures
        entry_of(item).name == item.name,
        item.meta matches Some(m) && !m.dangling ==> {
            &&& entry_of(item).is_dir == item.meta->0.is_dir
            &&& entry_of(item).mtime == item.meta->0.modified
            &&& item.meta->0.is_dir <==> entry_of(item).size is None
            &&& entry_of(item).size matches Some(n) ==> n == item.meta->0.len
        },
        (item.meta matches Some(m) ==> m.dangling) ==> {
            &&& !entry_of(item).is_dir
            &&& entry_of(item).size is None
            &&& entry_of(item).mtime is None
        },
{
}

/// A name is hidden exactly where it starts with a dot, whatever follows.
pub proof fn hidden_names_start_with_a_dot(first: char, rest: Seq<char>)
    ensures
        hidden(seq![first] + rest) <==> first == '.',
        !hidden(Seq::empty()),
{
    assert((seq![first] + rest)[0] == first);
}

/// Each item is shown or left out by itself: the lines of two lists of items, one after the
/// other, are those of the first and those of the second.
pub proof fn visible_concat(a: Seq<DirItem>, b: Seq<DirItem>)
    ensures
        visible(a + b) == visible(a) + visible(b),
    decreases b.len(),
{
    if b.len() == 0 {
        assert(a + b =~= a);
        assert(visible(a) + visible(b) =~= visible(a));
    } else {
        visible_concat(a, b.drop_last());
        assert((a + b).drop_last() =~= a + b.drop_last());
        assert((a + b).last() == b.last());
        assert(visible(a + b) =~= visible(a) + visible(b));
    }
}

/// One item makes one line, unless its name starts with a dot.
pub proof fn visible_one(item: DirItem)
    ensures
        item.name@.len() > 0 && item.name@[0] == '.' ==> visible(seq![item]).len() == 0,
        !(item.name@.len() > 0 && item.name@[0] == '.') ==> visible(seq![item]).len() == 1
            && visible(seq![item])[0] == entry_of(item),
{
    reveal_with_fuel(visible, 2);
    assert(seq![item].drop_last() =~= Seq::<DirItem>::empty());
}

/// Whether `a` comes before `b` as words do: it is the start of `b`, or has the smaller byte where
/// they first differ, at `k`.
pub open spec fn precedes_at(a: Seq<u8>, b: Seq<u8>, k: int) -> bool {
    &&& 0 <= k <= a.len()
    &&& k < b.len()
    &&& forall|i: int| 0 <= i < k ==> a[i] == b[i]
    &&& k < a.len() ==> a[k] < b[k]
}

/// The order of bytes is that of words.
pub proof fn bytes_less_is_word_order(a: Seq<u8>, b: Seq<u8>)
    ensures
        bytes_less(a, b) <==> exists|k: int| precedes_at(a, b, k),
    decreases a.len(),
{
    if a.len() > 0 && b.len() > 0 && a[0] == b[0] {
        let (a1, b1) = (a.drop_first(), b.drop_first());
        bytes_less_is_word_order(a1, b1);
        if exists|k: int| precedes_at(a1, b1, k) {
            let k = choose|k: int| precedes_at(a1, b1, k);
            assert forall|i: int| 0 <= i < k + 1 implies a[i] == b[i] by {
                if i > 0 {
                    assert(a1[i - 1] == b1[i - 1]);
                }
            }
            assert(k < a1.len() ==> a1[k] < b1[k]);
            assert(precedes_at(a, b, k + 1));
        }
        if exists|k: int| precedes_at(a, b, k) {
            let k = choose|k: int| precedes_at(a, b, k);
            assert(k > 0);
            assert(precedes_at(a1, b1, k - 1));
        }
    } else {
        if bytes_less(a, b) {
            assert(precedes_at(a, b, 0));
        }
        if exists|k: int| precedes_at(a, b, k) {
            let k = choose|k: int| precedes_at(a, b, k);
            if k > 0 {
                assert(a[0] == b[0]);
            }
        }
    }
}

/// Whether `order` goes through the first `n` numbers, each once.
pub open spec fn is_arrangement(order: Seq<int>, n: int) -> bool {
    &&& order.len() == n
    &&& forall|k: int| 0 <= k < n ==> 0 <= #[trigger] order[k] < n
    &&& forall|k: int, l: int| 0 <= k < l < n ==> #[trigger] order[k] != #[trigger] order[l]
}

/// A listing rearranges the lines and sorts them: of two lines, the name of the earlier one is not
/// the later in word order, and lines of the same name stay in order.
pub proof fn listing_is_a_sorted_arrangement(e: Seq<ListingEntry>, out: Seq<ListingEntry>)
    requires
        is_sorted_listing(e, out),
    ensures
        exists|order: Seq<int>| #[trigger]
            is_arrangement(order, e.len() as int) && out.len() == e.len() && (forall|k: int|
                0 <= k < out.len() ==> #[trigger] out[k] == e[order[k]]) && (forall|k: int, l: int|
                0 <= k < l < out.len() ==> (exists|at: int|
                    precedes_at(
                        encode_utf8((#[trigger] out[k]).name@),
                        encode_utf8((#[trigger] out[l]).name@),
                        at,
                    )) || (encode_utf8(out[k].name@) == encode_utf8(out[l].name@) && order[k]
                    < order[l])),
{
    let p = choose|order: Seq<int>| #[trigger]
        sorts(e, order) && out == order.map_values(|i: int| e[i]);
    assert forall|k: int, l: int| 0 <= k < l < p.len() implies #[trigger] p[k] != #[trigger] p[l] by {
        assert(comes_before(e, p[k], p[l]));
        comes_before_total(e, p[k], p[l]);
    }
    assert(is_arrangement(p, e.len() as int));
    assert forall|k: int, l: int| 0 <= k < l < out.len() implies (exists|at: int|
        precedes_at(
            encode_utf8((#[trigger] out[k]).name@),
            encode_utf8((#[trigger] out[l]).name@),
            at,
        )) || (encode_utf8(out[k].name@) == encode_utf8(out[l].name@) && p[k] < p[l]) by {
        assert(comes_before(e, p[k], p[l]));
        bytes_less_is_word_order(key(out[k]), key(out[l]));
    }
}

} // verus!
