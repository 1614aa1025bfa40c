//! The block-level breakdown that `--stat` prints.
//!
//! Blocks are counted by name, the counts ranked, and each printed on a line.
//! The ranking is by count, largest first, and by name where counts are equal;
//! it leaves no two lines unordered, so a breakdown has one form only.

use vstd::prelude::*;
use vstd::multiset::Multiset;
use crate::changes::{Change, Changes, Position, Replacement};
use crate::color::{air, is_air_name, lemma_air_is_unoccupied};
use crate::format::{is_sound_side, Loaded};
use crate::schematic::{blocks_among, built, cells, occupants, occupied, walkable, Cell};
use crate::text::{
    decimal, decimal_length, flush_right, lemma_decimal_grows, lemma_number_goes_before,
    lemma_precedes_asymmetric, lemma_precedes_total, lemma_precedes_transitive, precedes,
    push_decimal, push_flush_right, same, standing, tells_number, Standing,
};

verus! {

/// How many lines of a breakdown are printed.
#[derive(Clone, Copy, Debug, PartialEq, Eq, Structural)]
pub enum StatMode {
    /// Print all blocks without truncation.
    Uncapped,
    /// Print at most this many entries, noting the remainder.
    Capped(usize),
}

/// What happened to the blocks that one line counts.
#[derive(Clone, Copy, Debug, PartialEq, Eq, Structural)]
pub enum Kind {
    Added,
    Removed,
    Modified,
}

/// What one line counts: blocks called `label` that were added or removed, or
/// that were turned into `now`, or that kept their name and changed otherwise.
pub struct Key {
    pub kind: Kind,
    pub label: Seq<char>,
    pub now: Option<Seq<char>>,
}

/// A line of a breakdown: what it counts, and how many there are.
pub struct Row {
    pub key: Key,
    pub count: nat,
}

/// A line of a breakdown.
#[derive(Clone, Copy)]
pub struct Entry<'a> {
    pub kind: Kind,
    pub label: &'a str,
    pub now: Option<&'a str>,
    pub count: usize,
}

impl<'a> Entry<'a> {
    pub open spec fn key(self) -> Key {
        Key {
            kind: self.kind,
            label: self.label@,
            now: match self.now {
                Some(now) => Some(now@),
                None => None,
            },
        }
    }

    pub open spec fn row(self) -> Row {
        Row { key: self.key(), count: self.count as nat }
    }
}

/// The lines that some entries stand for.
pub open spec fn rows_of(entries: Seq<Entry<'_>>) -> Seq<Row> {
    Seq::new(entries.len(), |i: int| entries[i].row())
}

/// The place of a kind among the lines that count the same name equally often.
pub open spec fn kind_rank(kind: Kind) -> int {
    match kind {
        Kind::Added => 0,
        Kind::Removed => 1,
        Kind::Modified => 2,
    }
}

/// No new name comes before any new name.
pub open spec fn now_before(a: Option<Seq<char>>, b: Option<Seq<char>>) -> bool {
    match (a, b) {
        (None, Some(_)) => true,
        (Some(a), Some(b)) => precedes(a, b),
        _ => false,
    }
}

/// The order of keys: by name, then by what happened, then by the new name.
pub open spec fn key_before(a: Key, b: Key) -> bool {
    if a.label != b.label {
        precedes(a.label, b.label)
    } else if a.kind != b.kind {
        kind_rank(a.kind) < kind_rank(b.kind)
    } else {
        now_before(a.now, b.now)
    }
}

/// The order of lines: the larger count first, then by key.
pub open spec fn ranks_before(a: Row, b: Row) -> bool {
    a.count > b.count || (a.count == b.count && key_before(a.key, b.key))
}

/// `rows` has one line for each key in `keys`, with the number of times it
/// occurs there.
pub open spec fn counts(rows: Seq<Row>, keys: Seq<Key>) -> bool {
    &&& forall|i: int|
        0 <= i < rows.len() ==> (#[trigger] rows[i]).count == keys.to_multiset().count(rows[i].key)
            && rows[i].count > 0
    &&& forall|i: int, j: int|
        0 <= i < j < rows.len() ==> (#[trigger] rows[i]).key != (#[trigger] rows[j]).key
    &&& forall|k: Key| #[trigger]
        keys.contains(k) ==> exists|i: int| 0 <= i < rows.len() && (#[trigger] rows[i]).key == k
}

/// The lines are in order.
pub open spec fn ranked(rows: Seq<Row>) -> bool {
    forall|i: int, j: int|
        0 <= i < j < rows.len() ==> ranks_before(#[trigger] rows[i], #[trigger] rows[j])
}

/// The breakdown of `keys`: one line per key, in order.
pub open spec fn is_breakdown(rows: Seq<Row>, keys: Seq<Key>) -> bool {
    counts(rows, keys) && ranked(rows)
}

proof fn lemma_now_order(a: Option<Seq<char>>, b: Option<Seq<char>>)
    ensures
        now_before(a, b) ==> !now_before(b, a) && a != b,
        a == b || now_before(a, b) || now_before(b, a),
{
    match (a, b) {
        (Some(a), Some(b)) => {
            lemma_precedes_asymmetric(a, b);
            lemma_precedes_total(a, b);
        },
        _ => {},
    }
}

/// Keys are ordered without cycles, and any two different ones are ordered.
pub proof fn lemma_key_order(a: Key, b: Key)
    ensures
        key_before(a, b) ==> !key_before(b, a) && a != b,
        a == b || key_before(a, b) || key_before(b, a),
{
    lemma_precedes_asymmetric(a.label, b.label);
    lemma_precedes_total(a.label, b.label);
    lemma_now_order(a.now, b.now);
}

/// The order of keys is transitive.
pub proof fn lemma_key_transitive(a: Key, b: Key, c: Key)
    requires
        key_before(a, b),
        key_before(b, c),
    ensures
        key_before(a, c),
{
    lemma_precedes_asymmetric(a.label, b.label);
    lemma_precedes_asymmetric(b.label, c.label);
    if a.label != b.label && b.label != c.label {
        lemma_precedes_transitive(a.label, b.label, c.label);
        lemma_precedes_asymmetric(a.label, c.label);
    } else if a.label == b.label && b.label == c.label && a.kind == b.kind && b.kind == c.kind {
        match (a.now, b.now, c.now) {
            (Some(x), Some(y), Some(z)) => {
                lemma_precedes_transitive(x, y, z);
            },
            _ => {},
        }
    }
}

proof fn lemma_rank_transitive(a: Row, b: Row, c: Row)
    requires
        ranks_before(a, b),
        ranks_before(b, c),
    ensures
        ranks_before(a, c),
{
    if a.count == b.count && b.count == c.count {
        lemma_key_transitive(a.key, b.key, c.key);
    }
}

/// A breakdown has one form only: two breakdowns of the same keys, in whatever
/// order the keys were met, are the same lines in the same order.
pub proof fn lemma_breakdown_is_unique(
    a: Seq<Row>,
    b: Seq<Row>,
    keys: Seq<Key>,
    others: Seq<Key>,
)
    requires
        is_breakdown(a, keys),
        is_breakdown(b, others),
        keys.to_multiset() == others.to_multiset(),
    ensures
        a == b,
{
    broadcast use vstd::seq_lib::group_to_multiset_ensures;

    assert forall|x: Row| a.contains(x) implies b.contains(x) by {
        lemma_row_carries_over(x, a, b, keys, others);
    }
    assert forall|x: Row| b.contains(x) implies a.contains(x) by {
        lemma_row_carries_over(x, b, a, others, keys);
    }
    lemma_ranked_unique(a, b);
}

proof fn lemma_row_carries_over(
    x: Row,
    a: Seq<Row>,
    b: Seq<Row>,
    keys: Seq<Key>,
    others: Seq<Key>,
)
    requires
        counts(a, keys),
        counts(b, others),
        keys.to_multiset() == others.to_multiset(),
        a.contains(x),
    ensures
        b.contains(x),
{
    broadcast use vstd::seq_lib::group_to_multiset_ensures;

    let i = choose|i: int| 0 <= i < a.len() && a[i] == x;
    assert(a[i].count == keys.to_multiset().count(a[i].key));
    assert(others.to_multiset().count(x.key) > 0);
    assert(others.contains(x.key));
    let j = choose|j: int| 0 <= j < b.len() && (#[trigger] b[j]).key == x.key;
    assert(b[j].count == others.to_multiset().count(b[j].key));
    assert(b[j] == x);
}

proof fn lemma_ranked_unique(a: Seq<Row>, b: Seq<Row>)
    requires
        ranked(a),
        ranked(b),
        forall|x: Row| a.contains(x) <==> b.contains(x),
    ensures
        a == b,
    decreases a.len(),
{
    if a.len() == 0 {
        if b.len() > 0 {
            assert(b.contains(b[0]));
            assert(a.contains(b[0]));
        }
        assert(a =~= b);
    } else {
        assert(a.contains(a[0]));
        let k = choose|k: int| 0 <= k < b.len() && b[k] == a[0];
        assert(b.contains(b[0]));
        let l = choose|l: int| 0 <= l < a.len() && a[l] == b[0];
        if k > 0 {
            assert(ranks_before(b[0], b[k]));
            lemma_key_order(b[0].key, b[k].key);
            if l > 0 {
                assert(ranks_before(a[0], a[l]));
            }
        }
        assert(a[0] == b[0]);
        let ra = a.drop_first();
        let rb = b.drop_first();
        assert forall|x: Row| ra.contains(x) implies rb.contains(x) by {
            let i = choose|i: int| 0 <= i < ra.len() && ra[i] == x;
            assert(a[i + 1] == x);
            assert(a.contains(x));
            let j = choose|j: int| 0 <= j < b.len() && b[j] == x;
            assert(ranks_before(a[0], a[i + 1]));
            lemma_key_order(x.key, a[0].key);
            assert(j > 0);
            assert(rb[j - 1] == x);
        }
        assert forall|x: Row| rb.contains(x) implies ra.contains(x) by {
            let i = choose|i: int| 0 <= i < rb.len() && rb[i] == x;
            assert(b[i + 1] == x);
            assert(b.contains(x));
            let j = choose|j: int| 0 <= j < a.len() && a[j] == x;
            assert(ranks_before(b[0], b[i + 1]));
            lemma_key_order(x.key, b[0].key);
            assert(j > 0);
            assert(ra[j - 1] == x);
        }
        assert(ranked(ra)) by {
            assert forall|i: int, j: int| 0 <= i < j < ra.len() implies ranks_before(
                #[trigger] ra[i],
                #[trigger] ra[j],
            ) by {
                assert(ranks_before(a[i + 1], a[j + 1]));
            }
        }
        assert(ranked(rb)) by {
            assert forall|i: int, j: int| 0 <= i < j < rb.len() implies ranks_before(
                #[trigger] rb[i],
                #[trigger] rb[j],
            ) by {
                assert(ranks_before(b[i + 1], b[j + 1]));
            }
        }
        lemma_ranked_unique(ra, rb);
        assert(a =~= seq![a[0]] + ra);
        assert(b =~= seq![b[0]] + rb);
    }
}

/// The sum of the counts of some lines.
pub open spec fn total(rows: Seq<Row>) -> nat
    decreases rows.len(),
{
    if rows.len() == 0 {
        0
    } else {
        total(rows.drop_last()) + rows.last().count
    }
}

/// The counts of a breakdown add up to the number of things that were counted.
pub proof fn lemma_breakdown_adds_up(rows: Seq<Row>, keys: Seq<Key>)
    requires
        is_breakdown(rows, keys),
    ensures
        total(rows) == keys.len(),
{
    broadcast use vstd::seq_lib::group_to_multiset_ensures;

    assert forall|k: Key| #[trigger] keys.to_multiset().count(k) > 0 implies has_key(rows, k) by {
        assert(keys.contains(k));
    }
    lemma_adds_up(rows, keys.to_multiset());
}

spec fn has_key(rows: Seq<Row>, k: Key) -> bool {
    exists|i: int| 0 <= i < rows.len() && (#[trigger] rows[i]).key == k
}

proof fn lemma_adds_up(rows: Seq<Row>, keys: Multiset<Key>)
    requires
        forall|i: int|
            0 <= i < rows.len() ==> (#[trigger] rows[i]).count == keys.count(rows[i].key),
        forall|i: int, j: int|
            0 <= i < j < rows.len() ==> (#[trigger] rows[i]).key != (#[trigger] rows[j]).key,
        forall|k: Key| #[trigger] keys.count(k) > 0 ==> has_key(rows, k),
    ensures
        total(rows) == keys.len(),
    decreases rows.len(), rows.last().count,
{
    broadcast use vstd::multiset::group_multiset_axioms;

    if rows.len() == 0 {
        assert(keys =~= Multiset::empty());
    } else {
        let last = rows.last();
        let rest = rows.drop_last();
        if last.count == 0 {
            assert forall|k: Key| #[trigger] keys.count(k) > 0 implies has_key(rest, k) by {
                let i = choose|i: int| 0 <= i < rows.len() && (#[trigger] rows[i]).key == k;
                assert(rest[i].key == k);
            }
            lemma_adds_up(rest, keys);
        } else {
            let fewer = rest.push(Row { key: last.key, count: (last.count - 1) as nat });
            let left = keys.remove(last.key);
            assert(fewer.drop_last() =~= rest);
            assert forall|i: int| 0 <= i < fewer.len() implies (#[trigger] fewer[i]).count
                == left.count(fewer[i].key) by {
                assert(rows[i].count == keys.count(rows[i].key));
                if i < rest.len() {
                    assert(rows[i].key != rows[rows.len() - 1].key);
                }
            }
            assert forall|i: int, j: int| 0 <= i < j < fewer.len() implies (#[trigger] fewer[i]).key
                != (#[trigger] fewer[j]).key by {
                assert(rows[i].key != rows[j].key);
            }
            assert forall|k: Key| #[trigger] left.count(k) > 0 implies has_key(fewer, k) by {
                assert(keys.count(k) > 0);
                let i = choose|i: int| 0 <= i < rows.len() && (#[trigger] rows[i]).key == k;
                assert(fewer[i].key == k);
            }
            lemma_adds_up(fewer, left);
        }
    }
}

/// Where two keys stand.
fn key_standing(a: &Entry<'_>, b: &Entry<'_>) -> (r: Standing)
    ensures
        r == Standing::Same <==> a.key() == b.key(),
        r == Standing::Before <==> key_before(a.key(), b.key()),
        r == Standing::After <==> key_before(b.key(), a.key()),
{
    proof {
        lemma_key_order(a.key(), b.key());
        lemma_key_order(b.key(), a.key());
    }
    match standing(a.label, b.label) {
        Standing::Same => {
            let left: u8 = match a.kind {
                Kind::Added => 0,
                Kind::Removed => 1,
                Kind::Modified => 2,
            };
            let right: u8 = match b.kind {
                Kind::Added => 0,
                Kind::Removed => 1,
                Kind::Modified => 2,
            };
            if left < right {
                Standing::Before
            } else if left > right {
                Standing::After
            } else {
                match (a.now, b.now) {
                    (None, None) => Standing::Same,
                    (None, Some(_)) => Standing::Before,
                    (Some(_), None) => Standing::After,
                    (Some(x), Some(y)) => standing(x, y),
                }
            }
        },
        other => other,
    }
}

/// The entries are in the order of their keys.
spec fn keyed(entries: Seq<Entry<'_>>) -> bool {
    forall|i: int, j: int|
        0 <= i < j < entries.len() ==> key_before(
            (#[trigger] entries[i]).key(),
            (#[trigger] entries[j]).key(),
        )
}

/// Count one more of a key.
fn count_one<'a>(entries: &mut Vec<Entry<'a>>, one: Entry<'a>, Ghost(keys): Ghost<Seq<Key>>)
    requires
        keyed(old(entries)@),
        counts(rows_of(old(entries)@), keys),
        keys.len() < usize::MAX,
        one.count == 1,
    ensures
        keyed(final(entries)@),
        counts(rows_of(final(entries)@), keys.push(one.key())),
{
    broadcast use vstd::seq_lib::group_to_multiset_ensures;

    let ghost before = entries@;
    let ghost key = one.key();
    let mut low: usize = 0;
    let mut high: usize = entries.len();
    while low < high
        invariant
            low <= high <= entries.len(),
            entries@ == before,
            keyed(before),
            key == one.key(),
            keys.len() < usize::MAX,
            one.count == 1,
            counts(rows_of(before), keys),
            forall|i: int| 0 <= i < low ==> key_before((#[trigger] before[i]).key(), key),
            forall|i: int| high <= i < before.len() ==> key_before(key, (#[trigger] before[i]).key()),
        decreases high - low,
    {
        let mid: usize = low + (high - low) / 2;
        let found = entries[mid];
        match key_standing(&found, &one) {
            Standing::Same => {
                proof {
                    assert(rows_of(before)[mid as int].count == keys.to_multiset().count(
                        rows_of(before)[mid as int].key,
                    ));
                    lemma_count_at_most(keys, key);
                }
                let more = Entry { count: found.count + 1, ..found };
                entries.set(mid, more);
                proof {
                    lemma_counted_again(before, entries@, mid as int, keys, key);
                }
                return;
            },
            Standing::Before => {
                proof {
                    assert forall|i: int| 0 <= i <= mid implies key_before(
                        (#[trigger] before[i]).key(),
                        key,
                    ) by {
                        if i < mid {
                            lemma_key_transitive(before[i].key(), before[mid as int].key(), key);
                        }
                    }
                }
                low = mid + 1;
            },
            Standing::After => {
                proof {
                    assert forall|i: int| mid <= i < before.len() implies key_before(
                        key,
                        (#[trigger] before[i]).key(),
                    ) by {
                        if i > mid {
                            lemma_key_transitive(key, before[mid as int].key(), before[i].key());
                        }
                    }
                }
                high = mid;
            },
        }
    }
    entries.insert(low, one);
    proof {
        lemma_counted_first(before, entries@, low as int, keys, one);
    }
}

proof fn lemma_count_at_most(keys: Seq<Key>, key: Key)
    ensures
        keys.to_multiset().count(key) <= keys.len(),
    decreases keys.len(),
{
    broadcast use vstd::seq_lib::group_to_multiset_ensures;

    if keys.len() == 0 {
        assert(keys =~= Seq::<Key>::empty());
    } else {
        lemma_count_at_most(keys.drop_last(), key);
        assert(keys =~= keys.drop_last().push(keys.last()));
    }
}

proof fn lemma_counted_again(
    before: Seq<Entry<'_>>,
    after: Seq<Entry<'_>>,
    at: int,
    keys: Seq<Key>,
    key: Key,
)
    requires
        keyed(before),
        counts(rows_of(before), keys),
        0 <= at < before.len(),
        before[at].key() == key,
        after.len() == before.len(),
        after[at].key() == key,
        after[at].count == before[at].count + 1,
        forall|i: int| 0 <= i < before.len() && i != at ==> after[i] == before[i],
    ensures
        keyed(after),
        counts(rows_of(after), keys.push(key)),
{
    broadcast use vstd::seq_lib::group_to_multiset_ensures;

    let old_rows = rows_of(before);
    let rows = rows_of(after);
    let more = keys.push(key);
    assert(forall|i: int| 0 <= i < before.len() ==> (#[trigger] after[i]).key() == before[i].key());
    assert forall|i: int| 0 <= i < rows.len() implies (#[trigger] rows[i]).count
        == more.to_multiset().count(rows[i].key) && rows[i].count > 0 by {
        assert(old_rows[i].count == keys.to_multiset().count(old_rows[i].key));
        if i != at {
            let (a, b) = if i < at { (i, at) } else { (at, i) };
            assert(old_rows[a].key != old_rows[b].key);
        }
    }
    assert forall|i: int, j: int| 0 <= i < j < rows.len() implies (#[trigger] rows[i]).key != (
    #[trigger] rows[j]).key by {
        assert(old_rows[i].key != old_rows[j].key);
    }
    assert forall|k: Key| #[trigger] more.contains(k) implies exists|i: int|
        0 <= i < rows.len() && (#[trigger] rows[i]).key == k by {
        if k == key {
            assert(rows[at].key == k);
        } else {
            let at_more = choose|m: int| 0 <= m < more.len() && more[m] == k;
            assert(keys[at_more] == k);
            assert(keys.contains(k));
            let i = choose|i: int| 0 <= i < old_rows.len() && (#[trigger] old_rows[i]).key == k;
            assert(rows[i].key == k);
        }
    }
}

proof fn lemma_counted_first(
    before: Seq<Entry<'_>>,
    after: Seq<Entry<'_>>,
    at: int,
    keys: Seq<Key>,
    one: Entry<'_>,
)
    requires
        keyed(before),
        counts(rows_of(before), keys),
        0 <= at <= before.len(),
        one.count == 1,
        after == before.insert(at, one),
        forall|i: int| 0 <= i < at ==> key_before((#[trigger] before[i]).key(), one.key()),
        forall|i: int| at <= i < before.len() ==> key_before(one.key(), (#[trigger] before[i]).key()),
    ensures
        keyed(after),
        counts(rows_of(after), keys.push(one.key())),
{
    broadcast use vstd::seq_lib::group_to_multiset_ensures;

    let key = one.key();
    let old_rows = rows_of(before);
    let rows = rows_of(after);
    let more = keys.push(key);
    assert(forall|i: int| 0 <= i < at ==> #[trigger] after[i] == before[i]);
    assert(after[at] == one);
    assert(forall|i: int| at < i < after.len() ==> #[trigger] after[i] == before[i - 1]);
    if keys.contains(key) {
        let i = choose|i: int| 0 <= i < old_rows.len() && (#[trigger] old_rows[i]).key == key;
        assert(before[i].key() == key);
        lemma_key_order(before[i].key(), key);
        assert(false);
    }
    assert(keys.to_multiset().count(key) == 0);
    assert forall|i: int, j: int| 0 <= i < j < after.len() implies key_before(
        (#[trigger] after[i]).key(),
        (#[trigger] after[j]).key(),
    ) by {
        let bi = if i < at { i } else { i - 1 };
        let bj = if j < at { j } else { j - 1 };
        if i != at && j != at {
            assert(key_before(before[bi].key(), before[bj].key()));
        } else if i == at {
            assert(before[bj].key() == after[j].key());
        } else {
            assert(before[bi].key() == after[i].key());
        }
    }
    assert forall|i: int| 0 <= i < rows.len() implies (#[trigger] rows[i]).count
        == more.to_multiset().count(rows[i].key) && rows[i].count > 0 by {
        if i != at {
            let b = if i < at { i } else { i - 1 };
            assert(old_rows[b].count == keys.to_multiset().count(old_rows[b].key));
            assert(rows[i] == old_rows[b]);
            lemma_key_order(before[b].key(), key);
        }
    }
    assert forall|i: int, j: int| 0 <= i < j < rows.len() implies (#[trigger] rows[i]).key != (
    #[trigger] rows[j]).key by {
        assert(key_before(after[i].key(), after[j].key()));
        lemma_key_order(after[i].key(), after[j].key());
    }
    assert forall|k: Key| #[trigger] more.contains(k) implies exists|i: int|
        0 <= i < rows.len() && (#[trigger] rows[i]).key == k by {
        if k == key {
            assert(rows[at].key == k);
        } else {
            let m = choose|m: int| 0 <= m < more.len() && more[m] == k;
            assert(keys[m] == k);
            assert(keys.contains(k));
            let i = choose|i: int| 0 <= i < old_rows.len() && (#[trigger] old_rows[i]).key == k;
            if i < at {
                assert(rows[i].key == k);
            } else {
                assert(rows[i + 1].key == k);
            }
        }
    }
}

proof fn lemma_insert_to_multiset<T>(s: Seq<T>, at: int, x: T)
    requires
        0 <= at <= s.len(),
    ensures
        s.insert(at, x).to_multiset() == s.to_multiset().insert(x),
{
    broadcast use vstd::seq_lib::group_to_multiset_ensures;

    let t = s.insert(at, x);
    assert(t.remove(at) =~= s);
    assert(t[at] == x);
    assert(t.contains(x));
    assert(t.remove(at).to_multiset() == t.to_multiset().remove(x));
    assert(t.to_multiset().count(x) > 0);
    assert(t.to_multiset() =~= s.to_multiset().insert(x));
}

proof fn lemma_same_members<T>(a: Seq<T>, b: Seq<T>, i: int) -> (k: int)
    requires
        a.to_multiset() == b.to_multiset(),
        0 <= i < a.len(),
    ensures
        0 <= k < b.len(),
        b[k] == a[i],
{
    broadcast use vstd::seq_lib::group_to_multiset_ensures;

    assert(a.contains(a[i]));
    assert(a.to_multiset().count(a[i]) > 0);
    assert(b.contains(a[i]));
    choose|k: int| 0 <= k < b.len() && b[k] == a[i]
}

/// Where `one` belongs among entries that are in order.
fn rank_of(out: &Vec<Entry<'_>>, one: &Entry<'_>) -> (at: usize)
    requires
        ranked(rows_of(out@)),
        forall|i: int| 0 <= i < out@.len() ==> (#[trigger] out@[i]).key() != one.key(),
    ensures
        at <= out@.len(),
        forall|i: int| 0 <= i < at ==> ranks_before((#[trigger] out@[i]).row(), one.row()),
        forall|i: int|
            at <= i < out@.len() ==> ranks_before(one.row(), (#[trigger] out@[i]).row()),
{
    let mut low: usize = 0;
    let mut high: usize = out.len();
    while low < high
        invariant
            low <= high <= out.len(),
            ranked(rows_of(out@)),
            forall|i: int| 0 <= i < out@.len() ==> (#[trigger] out@[i]).key() != one.key(),
            forall|i: int| 0 <= i < low ==> ranks_before((#[trigger] out@[i]).row(), one.row()),
            forall|i: int|
                high <= i < out@.len() ==> ranks_before(one.row(), (#[trigger] out@[i]).row()),
        decreases high - low,
    {
        let mid: usize = low + (high - low) / 2;
        let found = out[mid];
        let first = found.count > one.count || (found.count == one.count && matches!(
            key_standing(&found, one),
            Standing::Before
        ));
        proof {
            lemma_key_order(found.key(), one.key());
            assert(rows_of(out@)[mid as int] == found.row());
        }
        if first {
            assert forall|i: int| 0 <= i <= mid implies ranks_before(
                (#[trigger] out@[i]).row(),
                one.row(),
            ) by {
                if i < mid {
                    assert(ranks_before(rows_of(out@)[i], rows_of(out@)[mid as int]));
                    lemma_rank_transitive(out@[i].row(), found.row(), one.row());
                }
            }
            low = mid + 1;
        } else {
            assert(ranks_before(one.row(), found.row()));
            assert forall|i: int| mid <= i < out@.len() implies ranks_before(
                one.row(),
                (#[trigger] out@[i]).row(),
            ) by {
                if i > mid {
                    assert(ranks_before(rows_of(out@)[mid as int], rows_of(out@)[i]));
                    lemma_rank_transitive(one.row(), found.row(), out@[i].row());
                }
            }
            high = mid;
        }
    }
    low
}

proof fn lemma_ranked_insert(before: Seq<Entry<'_>>, at: int, one: Entry<'_>)
    requires
        0 <= at <= before.len(),
        ranked(rows_of(before)),
        forall|i: int| 0 <= i < at ==> ranks_before((#[trigger] before[i]).row(), one.row()),
        forall|i: int|
            at <= i < before.len() ==> ranks_before(one.row(), (#[trigger] before[i]).row()),
    ensures
        ranked(rows_of(before.insert(at, one))),
{
    let after = before.insert(at, one);
    assert forall|i: int, j: int| 0 <= i < j < rows_of(after).len() implies ranks_before(
        #[trigger] rows_of(after)[i],
        #[trigger] rows_of(after)[j],
    ) by {
        let bi = if i < at { i } else { i - 1 };
        let bj = if j < at { j } else { j - 1 };
        if i != at && j != at {
            assert(ranks_before(rows_of(before)[bi], rows_of(before)[bj]));
        } else if i == at {
            assert(before[bj] == after[j]);
        } else {
            assert(before[bi] == after[i]);
        }
    }
}

/// Put the entries in the order in which they are printed.
fn rank<'a>(entries: &Vec<Entry<'a>>, Ghost(keys): Ghost<Seq<Key>>) -> (r: Vec<Entry<'a>>)
    requires
        keyed(entries@),
        counts(rows_of(entries@), keys),
    ensures
        is_breakdown(rows_of(r@), keys),
        r@.len() == entries@.len(),
{
    let mut out: Vec<Entry<'a>> = Vec::new();
    let mut next: usize = 0;
    assert(entries@.take(0) =~= out@);
    while next < entries.len()
        invariant
            next <= entries.len(),
            keyed(entries@),
            out@.len() == next,
            ranked(rows_of(out@)),
            out@.to_multiset() == entries@.take(next as int).to_multiset(),
        decreases entries.len() - next,
    {
        let one = entries[next];
        assert forall|i: int| 0 <= i < out@.len() implies (#[trigger] out@[i]).key()
            != one.key() by {
            let k = lemma_same_members(out@, entries@.take(next as int), i);
            assert(entries@[k] == out@[i]);
            assert(key_before(entries@[k].key(), entries@[next as int].key()));
            lemma_key_order(entries@[k].key(), one.key());
        }
        let at: usize = rank_of(&out, &one);
        proof {
            lemma_ranked_insert(out@, at as int, one);
            lemma_insert_to_multiset(out@, at as int, one);
            vstd::seq_lib::to_multiset_build(entries@.take(next as int), one);
            assert(entries@.take(next + 1) =~= entries@.take(next as int).push(one));
        }
        out.insert(at, one);
        next = next + 1;
    }
    proof {
        assert(entries@.take(next as int) =~= entries@);
        lemma_rearranged(entries@, out@, keys);
    }
    out
}

proof fn lemma_rearranged(entries: Seq<Entry<'_>>, out: Seq<Entry<'_>>, keys: Seq<Key>)
    requires
        counts(rows_of(entries), keys),
        ranked(rows_of(out)),
        entries.to_multiset() == out.to_multiset(),
    ensures
        counts(rows_of(out), keys),
{
    let from = rows_of(entries);
    let rows = rows_of(out);
    assert forall|i: int| 0 <= i < rows.len() implies (#[trigger] rows[i]).count
        == keys.to_multiset().count(rows[i].key) && rows[i].count > 0 by {
        let k = lemma_same_members(out, entries, i);
        assert(from[k].count == keys.to_multiset().count(from[k].key));
        assert(from[k] == rows[i]);
    }
    assert forall|i: int, j: int| 0 <= i < j < rows.len() implies (#[trigger] rows[i]).key != (
    #[trigger] rows[j]).key by {
        assert(ranks_before(rows[i], rows[j]));
        lemma_key_order(rows[i].key, rows[j].key);
    }
    assert forall|k: Key| #[trigger] keys.contains(k) implies exists|i: int|
        0 <= i < rows.len() && (#[trigger] rows[i]).key == k by {
        let m = choose|m: int| 0 <= m < from.len() && (#[trigger] from[m]).key == k;
        let i = lemma_same_members(entries, out, m);
        assert(rows[i].key == k);
    }
}

/// What each added or removed cell counts toward.
pub open spec fn change_keys(changes: Seq<Change>, kind: Kind) -> Seq<Key> {
    Seq::new(
        changes.len(),
        |i: int| Key { kind, label: changes[i].block.name@, now: None },
    )
}

/// What a cell with a new block in it counts toward.
pub open spec fn replacement_key(replacement: Replacement) -> Key {
    Key {
        kind: Kind::Modified,
        label: replacement.was.name@,
        now: if replacement.was.name@ == replacement.now.name@ {
            None
        } else {
            Some(replacement.now.name@)
        },
    }
}

pub open spec fn replacement_keys(replacements: Seq<Replacement>) -> Seq<Key> {
    Seq::new(replacements.len(), |i: int| replacement_key(replacements[i]))
}

/// What the cells of a difference count toward.
pub open spec fn difference_keys(changes: Changes) -> Seq<Key> {
    change_keys(changes.added@, Kind::Added) + change_keys(changes.removed@, Kind::Removed)
        + replacement_keys(changes.changed@) + replacement_keys(changes.swapped@)
}

/// What blocks of the given names count toward.
pub open spec fn name_keys(names: Seq<Seq<char>>) -> Seq<Key> {
    Seq::new(names.len(), |i: int| Key { kind: Kind::Added, label: names[i], now: None })
}

/// The number of columns that the longest count takes.
pub open spec fn widest(rows: Seq<Row>) -> nat
    decreases rows.len(),
{
    if rows.len() == 0 {
        0
    } else {
        let rest = widest(rows.drop_last());
        let last = decimal(rows.last().count).len();
        if last > rest {
            last
        } else {
            rest
        }
    }
}

/// How many of `total` lines are printed.
pub open spec fn visible(mode: StatMode, total: nat) -> nat {
    match mode {
        StatMode::Uncapped => total,
        StatMode::Capped(cap) => if total <= cap {
            total
        } else {
            cap as nat
        },
    }
}

/// The sign in front of a line's count. A list of materials, which has `prefix`
/// in its place, has the same one on every line.
pub open spec fn sign(row: Row, prefix: Option<Seq<char>>) -> Seq<char> {
    match prefix {
        Some(prefix) => prefix,
        None => match row.key.kind {
            Kind::Added => "+ "@,
            Kind::Removed => "- "@,
            Kind::Modified => "~ "@,
        },
    }
}

/// What stands behind the name on a line.
pub open spec fn outcome(row: Row, prefix: Option<Seq<char>>) -> Seq<char> {
    if prefix is None && row.key.kind == Kind::Modified {
        match row.key.now {
            None => " (state)"@,
            Some(now) => " -> "@ + now,
        }
    } else {
        Seq::empty()
    }
}

/// A printed line.
pub open spec fn line(row: Row, width: nat, prefix: Option<Seq<char>>) -> Seq<char> {
    "    "@ + sign(row, prefix) + flush_right(decimal(row.count), width) + "  "@ + row.key.label
        + outcome(row, prefix)
}

/// The line that says how many were left out.
pub open spec fn remainder(count: nat, prefix: Option<Seq<char>>) -> Seq<char> {
    "    ... and "@ + decimal(count) + match prefix {
        Some(_) => " more block types"@,
        None => " more block changes"@,
    }
}

/// The printed lines below the title.
pub open spec fn body(rows: Seq<Row>, mode: StatMode, prefix: Option<Seq<char>>) -> Seq<
    Seq<char>,
> {
    let shown = visible(mode, rows.len());
    let listed = Seq::new(shown, |i: int| line(rows[i], widest(rows), prefix));
    if shown < rows.len() {
        listed.push(remainder((rows.len() - shown) as nat, prefix))
    } else {
        listed
    }
}

/// The text of each of some lines.
pub open spec fn texts(lines: Seq<String>) -> Seq<Seq<char>> {
    Seq::new(lines.len(), |i: int| lines[i]@)
}

/// Some lines are the breakdown of a difference.
pub open spec fn tells_difference(
    lines: Seq<Seq<char>>,
    changes: Changes,
    mode: StatMode,
) -> bool {
    exists|rows: Seq<Row>| #[trigger]
        is_breakdown(rows, difference_keys(changes)) && lines == difference_lines(rows, mode)
}

/// The printed form of a difference's breakdown.
pub open spec fn difference_lines(rows: Seq<Row>, mode: StatMode) -> Seq<Seq<char>> {
    seq!["  stat"@] + (if rows.len() == 0 {
        seq!["    (no block differences)"@]
    } else {
        body(rows, mode, None)
    })
}

/// Some lines list the materials of a build that holds blocks of these names.
pub open spec fn tells_materials(
    lines: Seq<Seq<char>>,
    names: Seq<Seq<char>>,
    prefix: Seq<char>,
    mode: StatMode,
) -> bool {
    exists|rows: Seq<Row>| #[trigger]
        is_breakdown(rows, name_keys(names)) && lines == material_lines(rows, prefix, mode)
}

/// The printed form of a list of materials.
pub open spec fn material_lines(rows: Seq<Row>, prefix: Seq<char>, mode: StatMode) -> Seq<
    Seq<char>,
> {
    seq!["  stat"@] + (if rows.len() == 0 {
        seq!["    (empty schematic)"@]
    } else {
        body(rows, mode, Some(prefix))
    })
}

/// A string with the given text.
fn owned(text: &str) -> (r: String)
    ensures
        r@ == text@,
{
    let mut out = String::new();
    out.append(text);
    assert(out@ =~= text@);
    out
}

/// Print the lines below the title.
fn push_body(lines: &mut Vec<String>, entries: &Vec<Entry<'_>>, mode: StatMode, prefix: Option<&str>)
    ensures
        texts(final(lines)@) == texts(old(lines)@) + body(
            rows_of(entries@),
            mode,
            match prefix {
                Some(prefix) => Some(prefix@),
                None => None,
            },
        ),
{
    let ghost rows = rows_of(entries@);
    let ghost shown_prefix: Option<Seq<char>> = match prefix {
        Some(prefix) => Some(prefix@),
        None => None,
    };
    let ghost start = texts(lines@);
    let mut width: usize = 0;
    let mut i: usize = 0;
    while i < entries.len()
        invariant
            i <= entries.len(),
            rows == rows_of(entries@),
            width == widest(rows.take(i as int)),
        decreases entries.len() - i,
    {
        let length: usize = decimal_length(entries[i].count as u64);
        proof {
            assert(rows.take(i + 1).drop_last() =~= rows.take(i as int));
            assert(rows.take(i + 1).last() == rows[i as int]);
        }
        if length > width {
            width = length;
        }
        i = i + 1;
    }
    assert(rows.take(i as int) =~= rows);
    let shown: usize = match mode {
        StatMode::Uncapped => entries.len(),
        StatMode::Capped(cap) => if entries.len() <= cap {
            entries.len()
        } else {
            cap
        },
    };
    let mut at: usize = 0;
    while at < shown
        invariant
            at <= shown <= entries.len(),
            rows == rows_of(entries@),
            width == widest(rows),
            shown_prefix == match prefix {
                Some(prefix) => Some(prefix@),
                None => None::<Seq<char>>,
            },
            texts(lines@) == start + Seq::new(
                at as nat,
                |i: int| line(rows[i], widest(rows), shown_prefix),
            ),
        decreases shown - at,
    {
        let ghost done = texts(lines@);
        let text = entry_line(&entries[at], width, prefix);
        lines.push(text);
        proof {
            assert(rows[at as int] == entries@[at as int].row());
            assert(texts(lines@) =~= done.push(text@));
            assert(texts(lines@) =~= start + Seq::new(
                (at + 1) as nat,
                |i: int| line(rows[i], widest(rows), shown_prefix),
            ));
        }
        at = at + 1;
    }
    if shown < entries.len() {
        let ghost done = texts(lines@);
        let mut out = owned("    ... and ");
        push_decimal(&mut out, (entries.len() - shown) as u64);
        match prefix {
            Some(_) => {
                out.append(" more block types");
            },
            None => {
                out.append(" more block changes");
            },
        }
        lines.push(out);
        assert(texts(lines@) =~= done.push(out@));
    }
    assert(texts(lines@) =~= start + body(rows, mode, shown_prefix));
}

/// One printed line.
fn entry_line(entry: &Entry<'_>, width: usize, prefix: Option<&str>) -> (r: String)
    ensures
        r@ == line(
            entry.row(),
            width as nat,
            match prefix {
                Some(prefix) => Some(prefix@),
                None => None,
            },
        ),
{
    let mut out = owned("    ");
    match prefix {
        Some(prefix) => {
            out.append(prefix);
        },
        None => match entry.kind {
            Kind::Added => {
                out.append("+ ");
            },
            Kind::Removed => {
                out.append("- ");
            },
            Kind::Modified => {
                out.append("~ ");
            },
        },
    }
    let mut count = String::new();
    push_decimal(&mut count, entry.count as u64);
    let length: usize = decimal_length(entry.count as u64);
    assert(count@ =~= decimal(entry.count as nat));
    push_flush_right(&mut out, count.as_str(), length, width);
    out.append("  ");
    out.append(entry.label);
    if prefix.is_none() {
        match entry.kind {
            Kind::Modified => match entry.now {
                None => {
                    out.append(" (state)");
                },
                Some(now) => {
                    let ghost so_far = out@;
                    out.append(" -> ");
                    out.append(now);
                    assert(out@ =~= so_far + (" -> "@ + now@));
                },
            },
            _ => {},
        }
    }
    proof {
        let shown_prefix: Option<Seq<char>> = match prefix {
            Some(prefix) => Some(prefix@),
            None => None,
        };
        assert(out@ =~= line(entry.row(), width as nat, shown_prefix));
    }
    out
}

/// Count the blocks of some added or removed cells.
fn count_changes<'a>(
    entries: &mut Vec<Entry<'a>>,
    changes: &'a Vec<Change>,
    kind: Kind,
    Ghost(keys): Ghost<Seq<Key>>,
)
    requires
        keyed(old(entries)@),
        counts(rows_of(old(entries)@), keys),
        keys.len() + changes@.len() <= usize::MAX,
    ensures
        keyed(final(entries)@),
        counts(rows_of(final(entries)@), keys + change_keys(changes@, kind)),
{
    let mut i: usize = 0;
    assert(keys + change_keys(changes@, kind).take(0) =~= keys);
    while i < changes.len()
        invariant
            i <= changes.len(),
            keys.len() + changes@.len() <= usize::MAX,
            keyed(entries@),
            counts(rows_of(entries@), keys + change_keys(changes@, kind).take(i as int)),
        decreases changes.len() - i,
    {
        let one = Entry { kind, label: changes[i].block.name.as_str(), now: None, count: 1 };
        count_one(entries, one, Ghost(keys + change_keys(changes@, kind).take(i as int)));
        assert((keys + change_keys(changes@, kind).take(i as int)).push(one.key()) =~= keys
            + change_keys(changes@, kind).take(i + 1));
        i = i + 1;
    }
    assert(change_keys(changes@, kind).take(i as int) =~= change_keys(changes@, kind));
}

/// Count the blocks of some cells with new blocks in them.
fn count_replacements<'a>(
    entries: &mut Vec<Entry<'a>>,
    replacements: &'a Vec<Replacement>,
    Ghost(keys): Ghost<Seq<Key>>,
)
    requires
        keyed(old(entries)@),
        counts(rows_of(old(entries)@), keys),
        keys.len() + replacements@.len() <= usize::MAX,
    ensures
        keyed(final(entries)@),
        counts(rows_of(final(entries)@), keys + replacement_keys(replacements@)),
{
    let mut i: usize = 0;
    assert(keys + replacement_keys(replacements@).take(0) =~= keys);
    while i < replacements.len()
        invariant
            i <= replacements.len(),
            keys.len() + replacements@.len() <= usize::MAX,
            keyed(entries@),
            counts(rows_of(entries@), keys + replacement_keys(replacements@).take(i as int)),
        decreases replacements.len() - i,
    {
        let was = replacements[i].was.name.as_str();
        let now = replacements[i].now.name.as_str();
        let one = if same(was, now) {
            Entry { kind: Kind::Modified, label: was, now: None, count: 1 }
        } else {
            Entry { kind: Kind::Modified, label: was, now: Some(now), count: 1 }
        };
        assert(one.key() == replacement_key(replacements@[i as int]));
        count_one(entries, one, Ghost(keys + replacement_keys(replacements@).take(i as int)));
        assert((keys + replacement_keys(replacements@).take(i as int)).push(one.key()) =~= keys
            + replacement_keys(replacements@).take(i + 1));
        i = i + 1;
    }
    assert(replacement_keys(replacements@).take(i as int) =~= replacement_keys(replacements@));
}

/// The breakdown of a difference.
pub fn difference_stat(changes: Option<&Changes>, mode: StatMode) -> (lines: Vec<String>)
    requires
        match changes {
            Some(changes) => changes.added@.len() + changes.removed@.len() + changes.changed@.len()
                + changes.swapped@.len() <= usize::MAX,
            None => true,
        },
    ensures
        match changes {
            Some(changes) => tells_difference(texts(lines@), *changes, mode),
            None => texts(lines@) == seq!["  stat"@] + seq!["    (no changes)"@],
        },
{
    let mut lines: Vec<String> = Vec::new();
    lines.push(owned("  stat"));
    match changes {
        None => {
            lines.push(owned("    (no changes)"));
            assert(texts(lines@) =~= seq!["  stat"@] + seq!["    (no changes)"@]);
        },
        Some(changes) => {
            let ghost none = Seq::<Key>::empty();
            let mut entries: Vec<Entry<'_>> = Vec::new();
            let ghost first = change_keys(changes.added@, Kind::Added);
            let ghost second = first + change_keys(changes.removed@, Kind::Removed);
            let ghost third = second + replacement_keys(changes.changed@);
            count_changes(&mut entries, &changes.added, Kind::Added, Ghost(none));
            assert(none + first =~= first);
            count_changes(&mut entries, &changes.removed, Kind::Removed, Ghost(first));
            count_replacements(&mut entries, &changes.changed, Ghost(second));
            count_replacements(&mut entries, &changes.swapped, Ghost(third));
            let ghost keys = difference_keys(*changes);
            let ordered = rank(&entries, Ghost(keys));
            if ordered.len() == 0 {
                lines.push(owned("    (no block differences)"));
                assert(texts(lines@) =~= seq!["  stat"@] + seq!["    (no block differences)"@]);
            } else {
                let ghost title = texts(lines@);
                push_body(&mut lines, &ordered, mode, None);
                assert(title =~= seq!["  stat"@]);
            }
            assert(texts(lines@) =~= difference_lines(rows_of(ordered@), mode));
        },
    }
    lines
}

/// The list of materials of a build that holds blocks of the given names.
pub fn material_stat(names: &Vec<&str>, prefix: &str, mode: StatMode) -> (lines: Vec<String>)
    ensures
        tells_materials(
            texts(lines@),
            Seq::new(names@.len(), |i: int| names@[i]@),
            prefix@,
            mode,
        ),
{
    let ghost listed = Seq::new(names@.len(), |i: int| names@[i]@);
    let ghost keys = name_keys(listed);
    let mut entries: Vec<Entry<'_>> = Vec::new();
    let mut i: usize = 0;
    assert(keys.take(0) =~= Seq::empty());
    while i < names.len()
        invariant
            i <= names.len(),
            listed == Seq::new(names@.len(), |i: int| names@[i]@),
            keys == name_keys(listed),
            keyed(entries@),
            counts(rows_of(entries@), keys.take(i as int)),
        decreases names.len() - i,
    {
        let one = Entry { kind: Kind::Added, label: names[i], now: None, count: 1 };
        count_one(&mut entries, one, Ghost(keys.take(i as int)));
        assert(keys.take(i as int).push(one.key()) =~= keys.take(i + 1));
        i = i + 1;
    }
    assert(keys.take(i as int) =~= keys);
    let ordered = rank(&entries, Ghost(keys));
    let mut lines: Vec<String> = Vec::new();
    lines.push(owned("  stat"));
    if ordered.len() == 0 {
        lines.push(owned("    (empty schematic)"));
        assert(texts(lines@) =~= seq!["  stat"@] + seq!["    (empty schematic)"@]);
    } else {
        let ghost title = texts(lines@);
        push_body(&mut lines, &ordered, mode, Some(prefix));
        assert(title =~= seq!["  stat"@]);
    }
    assert(texts(lines@) =~= material_lines(rows_of(ordered@), prefix@, mode));
    lines
}

/// The test for blocks of a name.
pub open spec fn is_named(name: Seq<char>) -> spec_fn((Position, Seq<char>)) -> bool {
    |o: (Position, Seq<char>)| o.1 == name
}

/// How many blocks of a name a build has.
pub open spec fn tally(blocks: Multiset<(Position, Seq<char>)>, name: Seq<char>) -> nat {
    blocks.filter(is_named(name)).len()
}

/// How many blocks that are not air a build has.
pub open spec fn block_total(blocks: Multiset<(Position, Seq<char>)>) -> nat {
    blocks.filter(|o: (Position, Seq<char>)| !air(o.1)).len()
}

/// The lines are the materials of a build: each name of a block that is not air
/// once, with the number of such blocks, in order.
pub open spec fn is_material_list(
    rows: Seq<Row>,
    blocks: Multiset<(Position, Seq<char>)>,
) -> bool {
    &&& ranked(rows)
    &&& forall|i: int|
        0 <= i < rows.len() ==> {
            let row = #[trigger] rows[i];
            row.key == (Key { kind: Kind::Added, label: row.key.label, now: None }) && !air(
                row.key.label,
            ) && row.count == tally(blocks, row.key.label) && row.count > 0
        }
    &&& forall|name: Seq<char>|
        !air(name) && #[trigger] tally(blocks, name) > 0 ==> exists|i: int|
            0 <= i < rows.len() && (#[trigger] rows[i]).key.label == name
}

/// The names of those of some occupants that are not air.
pub open spec fn shown_names(all: Seq<(Position, Seq<char>)>) -> Seq<Seq<char>>
    decreases all.len(),
{
    if all.len() == 0 {
        Seq::empty()
    } else if air(all.last().1) {
        shown_names(all.drop_last())
    } else {
        shown_names(all.drop_last()).push(all.last().1)
    }
}

proof fn lemma_blocks_among_last(all: Seq<(Position, Seq<char>)>)
    requires
        all.len() > 0,
    ensures
        blocks_among(all) == if occupied(all.last().1) {
            blocks_among(all.drop_last()).insert(all.last())
        } else {
            blocks_among(all.drop_last())
        },
{
    let keep = |o: (Position, Seq<char>)| occupied(o.1);
    reveal(Seq::filter);
    if occupied(all.last().1) {
        vstd::seq_lib::to_multiset_build(all.drop_last().filter(keep), all.last());
    }
}

proof fn lemma_filter_insert(
    blocks: Multiset<(Position, Seq<char>)>,
    o: (Position, Seq<char>),
    keep: spec_fn((Position, Seq<char>)) -> bool,
)
    ensures
        blocks.insert(o).filter(keep).len() == blocks.filter(keep).len() + if keep(o) {
            1int
        } else {
            0
        },
{
    broadcast use vstd::multiset::group_multiset_axioms;

    if keep(o) {
        assert(blocks.insert(o).filter(keep) =~= blocks.filter(keep).insert(o));
    } else {
        assert(blocks.insert(o).filter(keep) =~= blocks.filter(keep));
    }
}

proof fn lemma_shown_total(all: Seq<(Position, Seq<char>)>)
    ensures
        shown_names(all).len() == block_total(blocks_among(all)),
    decreases all.len(),
{
    let keep = |o: (Position, Seq<char>)| !air(o.1);
    if all.len() == 0 {
        lemma_no_blocks(all);
        assert(blocks_among(all).filter(keep) =~= Multiset::empty()) by {
            broadcast use vstd::multiset::group_multiset_axioms;

        }
    } else {
        lemma_shown_total(all.drop_last());
        lemma_blocks_among_last(all);
        lemma_air_is_unoccupied(all.last().1);
        lemma_filter_insert(blocks_among(all.drop_last()), all.last(), keep);
    }
}

proof fn lemma_no_blocks(all: Seq<(Position, Seq<char>)>)
    requires
        all.len() == 0,
    ensures
        blocks_among(all) == Multiset::<(Position, Seq<char>)>::empty(),
{
    broadcast use vstd::seq_lib::group_to_multiset_ensures;

    reveal(Seq::filter);
    assert(blocks_among(all).len() == 0);
    assert(blocks_among(all) =~= Multiset::empty()) by {
        broadcast use vstd::multiset::group_multiset_properties;

    }
}

/// The key of a material.
pub open spec fn material(name: Seq<char>) -> Key {
    Key { kind: Kind::Added, label: name, now: None }
}

proof fn lemma_shown_tally(all: Seq<(Position, Seq<char>)>, name: Seq<char>)
    ensures
        name_keys(shown_names(all)).to_multiset().count(material(name)) == if air(name) {
            0
        } else {
            tally(blocks_among(all), name)
        },
    decreases all.len(),
{
    broadcast use vstd::multiset::group_multiset_axioms;

    let keep = is_named(name);
    if all.len() == 0 {
        broadcast use vstd::seq_lib::group_to_multiset_ensures;

        lemma_no_blocks(all);
        assert(blocks_among(all).filter(keep) =~= Multiset::empty());
        assert(!name_keys(shown_names(all)).contains(material(name)));
    } else {
        let rest = all.drop_last();
        let last = all.last();
        lemma_shown_tally(rest, name);
        lemma_blocks_among_last(all);
        lemma_air_is_unoccupied(last.1);
        lemma_filter_insert(blocks_among(rest), last, keep);
        if !air(last.1) {
            vstd::seq_lib::to_multiset_build(name_keys(shown_names(rest)), material(last.1));
            assert(name_keys(shown_names(all)) =~= name_keys(shown_names(rest)).push(
                material(last.1),
            ));
            let before = name_keys(shown_names(rest)).to_multiset();
            if last.1 == name {
                assert(before.insert(material(last.1)).count(material(name)) == before.count(
                    material(name),
                ) + 1);
            } else {
                assert(material(last.1) != material(name));
                assert(before.insert(material(last.1)).count(material(name)) == before.count(
                    material(name),
                ));
            }
            assert(tally(blocks_among(all), name) == tally(blocks_among(rest), name) + if last.1
                == name {
                1int
            } else {
                0
            });
        } else {
            assert(shown_names(all) == shown_names(rest));
        }
    }
}

/// A breakdown of the names that are shown is the list of materials.
proof fn lemma_breakdown_lists_materials(rows: Seq<Row>, all: Seq<(Position, Seq<char>)>)
    requires
        is_breakdown(rows, name_keys(shown_names(all))),
    ensures
        is_material_list(rows, blocks_among(all)),
{
    broadcast use vstd::seq_lib::group_to_multiset_ensures;

    let keys = name_keys(shown_names(all));
    let blocks = blocks_among(all);
    assert forall|i: int| 0 <= i < rows.len() implies {
        let row = #[trigger] rows[i];
        row.key == material(row.key.label) && !air(row.key.label) && row.count == tally(
            blocks,
            row.key.label,
        ) && row.count > 0
    } by {
        let row = rows[i];
        assert(keys.to_multiset().count(row.key) > 0);
        assert(keys.contains(row.key));
        let k = choose|k: int| 0 <= k < keys.len() && keys[k] == row.key;
        assert(row.key == material(row.key.label));
        lemma_shown_tally(all, row.key.label);
    }
    assert forall|name: Seq<char>|
        !air(name) && #[trigger] tally(blocks, name) > 0 implies exists|i: int|
        0 <= i < rows.len() && (#[trigger] rows[i]).key.label == name by {
        lemma_shown_tally(all, name);
        assert(keys.contains(material(name)));
        let i = choose|i: int| 0 <= i < rows.len() && (#[trigger] rows[i]).key == material(name);
        assert(rows[i].key.label == name);
    }
}

/// A build has one list of materials only.
pub proof fn lemma_material_list_is_unique(
    a: Seq<Row>,
    b: Seq<Row>,
    blocks: Multiset<(Position, Seq<char>)>,
)
    requires
        is_material_list(a, blocks),
        is_material_list(b, blocks),
    ensures
        a == b,
{
    assert forall|x: Row| a.contains(x) implies b.contains(x) by {
        lemma_material_carries_over(x, a, b, blocks);
    }
    assert forall|x: Row| b.contains(x) implies a.contains(x) by {
        lemma_material_carries_over(x, b, a, blocks);
    }
    lemma_ranked_unique(a, b);
}

proof fn lemma_material_carries_over(
    x: Row,
    a: Seq<Row>,
    b: Seq<Row>,
    blocks: Multiset<(Position, Seq<char>)>,
)
    requires
        is_material_list(a, blocks),
        is_material_list(b, blocks),
        a.contains(x),
    ensures
        b.contains(x),
{
    let i = choose|i: int| 0 <= i < a.len() && a[i] == x;
    assert(a[i].count == tally(blocks, a[i].key.label));
    let j = choose|j: int| 0 <= j < b.len() && (#[trigger] b[j]).key.label == x.key.label;
    assert(b[j] == x);
}

/// The counts of a list of materials add up to the number of blocks of the build.
pub proof fn lemma_materials_add_up(rows: Seq<Row>, blocks: Multiset<(Position, Seq<char>)>)
    requires
        is_material_list(rows, blocks),
    ensures
        total(rows) == block_total(blocks),
{
    assert forall|i: int, j: int| 0 <= i < j < rows.len() implies (#[trigger] rows[i]).key.label
        != (#[trigger] rows[j]).key.label by {
        assert(ranks_before(rows[i], rows[j]));
        lemma_key_order(rows[i].key, rows[j].key);
    }
    assert forall|name: Seq<char>|
        !air(name) && #[trigger] tally(blocks, name) > 0 implies has_label(rows, name) by {}
    lemma_tallies_add_up(rows, blocks);
}

spec fn has_label(rows: Seq<Row>, name: Seq<char>) -> bool {
    exists|i: int| 0 <= i < rows.len() && (#[trigger] rows[i]).key.label == name
}

proof fn lemma_tallies_add_up(rows: Seq<Row>, blocks: Multiset<(Position, Seq<char>)>)
    requires
        forall|i: int|
            0 <= i < rows.len() ==> (#[trigger] rows[i]).count == tally(blocks, rows[i].key.label)
                && !air(rows[i].key.label),
        forall|i: int, j: int|
            0 <= i < j < rows.len() ==> (#[trigger] rows[i]).key.label != (
            #[trigger] rows[j]).key.label,
        forall|name: Seq<char>|
            !air(name) && #[trigger] tally(blocks, name) > 0 ==> has_label(rows, name),
    ensures
        total(rows) == block_total(blocks),
    decreases rows.len(), rows.last().count,
{
    broadcast use vstd::multiset::group_multiset_axioms;

    let keep = |o: (Position, Seq<char>)| !air(o.1);
    if rows.len() == 0 {
        let shown = blocks.filter(keep);
        if shown.len() > 0 {
            let o = shown.choose();
            assert(shown.count(o) > 0);
            assert(blocks.filter(is_named(o.1)).count(o) > 0);
            assert(tally(blocks, o.1) > 0);
        }
    } else {
        let last = rows.last();
        let rest = rows.drop_last();
        if last.count == 0 {
            assert forall|name: Seq<char>|
                !air(name) && #[trigger] tally(blocks, name) > 0 implies has_label(rest, name) by {
                let i = choose|i: int| 0 <= i < rows.len() && (#[trigger] rows[i]).key.label == name;
                assert(rest[i].key.label == name);
            }
            lemma_tallies_add_up(rest, blocks);
        } else {
            let label = last.key.label;
            assert(rows[rows.len() - 1].count == tally(blocks, label));
            let o = blocks.filter(is_named(label)).choose();
            let left = blocks.remove(o);
            let fewer = rest.push(Row { key: last.key, count: (last.count - 1) as nat });
            assert(blocks.filter(is_named(label)).count(o) > 0);
            assert(left.insert(o) =~= blocks);
            lemma_filter_insert(left, o, keep);
            assert(fewer.drop_last() =~= rest);
            assert forall|name: Seq<char>| #[trigger] tally(blocks, name) == tally(left, name) + if name
                == label {
                1int
            } else {
                0
            } by {
                lemma_filter_insert(left, o, is_named(name));
            }
            assert forall|i: int| 0 <= i < fewer.len() implies (#[trigger] fewer[i]).count == tally(
                left,
                fewer[i].key.label,
            ) && !air(fewer[i].key.label) by {
                assert(rows[i].count == tally(blocks, rows[i].key.label));
                if i < rest.len() {
                    assert(rows[i].key.label != rows[rows.len() - 1].key.label);
                }
            }
            assert forall|i: int, j: int| 0 <= i < j < fewer.len() implies (
            #[trigger] fewer[i]).key.label != (#[trigger] fewer[j]).key.label by {
                assert(rows[i].key.label != rows[j].key.label);
            }
            assert forall|name: Seq<char>|
                !air(name) && #[trigger] tally(left, name) > 0 implies has_label(fewer, name) by {
                assert(tally(blocks, name) > 0);
                let i = choose|i: int| 0 <= i < rows.len() && (#[trigger] rows[i]).key.label == name;
                assert(fewer[i].key.label == name);
            }
            lemma_tallies_add_up(fewer, left);
        }
    }
}

/// The names of those of some cells that are not air.
fn list_names<'a>(all: &Vec<Cell<'a>>) -> (r: Vec<&'a str>)
    ensures
        Seq::new(r@.len(), |i: int| r@[i]@) == shown_names(occupants(all@)),
{
    let ghost occ = occupants(all@);
    let mut names: Vec<&'a str> = Vec::new();
    let mut i: usize = 0;
    assert(Seq::new(names@.len(), |i: int| names@[i]@) =~= shown_names(occ.take(0)));
    while i < all.len()
        invariant
            i <= all.len(),
            occ == occupants(all@),
            Seq::new(names@.len(), |i: int| names@[i]@) == shown_names(occ.take(i as int)),
        decreases all.len() - i,
    {
        let ghost so_far = Seq::new(names@.len(), |i: int| names@[i]@);
        let name = all[i].name;
        proof {
            assert(occ.take(i + 1).drop_last() =~= occ.take(i as int));
            assert(occ.take(i + 1).last().1 == name@);
        }
        if !is_air_name(name) {
            names.push(name);
            assert(Seq::new(names@.len(), |i: int| names@[i]@) =~= so_far.push(name@));
        }
        i = i + 1;
    }
    assert(occ.take(i as int) =~= occ);
    names
}

/// How many blocks that are not air a build has.
pub fn count_blocks(schematic: &nucleation::UniversalSchematic) -> (r: usize)
    requires
        walkable(*schematic),
    ensures
        r == block_total(built(*schematic)),
{
    let all = cells(schematic);
    let names = list_names(&all);
    proof {
        lemma_shown_total(occupants(all@));
        assert(names@.len() == shown_names(occupants(all@)).len());
    }
    names.len()
}

/// Some lines list the materials of a build.
pub open spec fn tells_build(
    lines: Seq<Seq<char>>,
    blocks: Multiset<(Position, Seq<char>)>,
    prefix: Seq<char>,
    mode: StatMode,
) -> bool {
    exists|rows: Seq<Row>| #[trigger]
        is_material_list(rows, blocks) && lines == material_lines(rows, prefix, mode)
}

/// The list of materials of a build.
pub fn format_palette_stat(loaded: &Loaded, prefix: &str, mode: StatMode) -> (lines: Vec<String>)
    requires
        loaded.wf(),
    ensures
        tells_build(texts(lines@), built(loaded.schematic), prefix@, mode),
{
    let all = cells(&loaded.schematic);
    let names = list_names(&all);
    let lines = material_stat(&names, prefix, mode);
    proof {
        let listed = Seq::new(names@.len(), |i: int| names@[i]@);
        let rows = choose|rows: Seq<Row>| #[trigger]
            is_breakdown(rows, name_keys(listed)) && texts(lines@) == material_lines(
                rows,
                prefix@,
                mode,
            );
        lemma_breakdown_lists_materials(rows, occupants(all@));
    }
    lines
}

/// The sign in front of each material of a build that only one side has.
pub open spec fn one_sided_prefix(standalone: bool, added: bool) -> Seq<char> {
    if standalone {
        Seq::empty()
    } else if added {
        "+ "@
    } else {
        "- "@
    }
}

/// Block-level breakdown of materials or changes.
pub fn format_stat(
    before: &Option<Loaded>,
    after: &Option<Loaded>,
    changes: Option<&Changes>,
    standalone: bool,
    mode: StatMode,
) -> (lines: Vec<String>)
    requires
        is_sound_side(*before),
        is_sound_side(*after),
        match changes {
            Some(changes) => changes.added@.len() + changes.removed@.len() + changes.changed@.len()
                + changes.swapped@.len() <= usize::MAX,
            None => true,
        },
    ensures
        match (*before, *after) {
            (Some(_), Some(_)) => match changes {
                Some(changes) => tells_difference(texts(lines@), *changes, mode),
                None => texts(lines@) == seq!["  stat"@] + seq!["    (no changes)"@],
            },
            (None, Some(after)) => tells_build(
                texts(lines@),
                built(after.schematic),
                one_sided_prefix(standalone, true),
                mode,
            ),
            (Some(before), None) => tells_build(
                texts(lines@),
                built(before.schematic),
                one_sided_prefix(standalone, false),
                mode,
            ),
            (None, None) => lines@.len() == 0,
        },
{
    match (before, after) {
        (Some(_), Some(_)) => difference_stat(changes, mode),
        (None, Some(after)) => {
            let prefix = if standalone {
                ""
            } else {
                "+ "
            };
            proof {
                reveal_strlit("");
                assert(prefix@ =~= one_sided_prefix(standalone, true));
            }
            format_palette_stat(after, prefix, mode)
        },
        (Some(before), None) => {
            let prefix = if standalone {
                ""
            } else {
                "- "
            };
            proof {
                reveal_strlit("");
                assert(prefix@ =~= one_sided_prefix(standalone, false));
            }
            format_palette_stat(before, prefix, mode)
        },
        (None, None) => Vec::new(),
    }
}

/// A line tells a count: behind some spaces and a sign stand the number, set flush right,
/// and what was counted.
pub open spec fn is_count_line(
    text: Seq<char>,
    sign: Seq<char>,
    count: nat,
    counted: Seq<char>,
) -> bool {
    exists|pad: nat|
        text == "    "@ + sign + #[trigger] spaces(pad) + decimal(count) + "  "@ + counted
}

/// So many spaces.
pub open spec fn spaces(n: nat) -> Seq<char> {
    Seq::new(n, |i: int| ' ')
}

/// Some lines tell a count somewhere below the first.
pub open spec fn tell_count(
    lines: Seq<String>,
    sign: Seq<char>,
    count: nat,
    counted: Seq<char>,
) -> bool {
    exists|j: int| 1 <= j < lines.len() && is_count_line(#[trigger] lines[j]@, sign, count, counted)
}

/// How many lone cells hold a block of a name.
pub open spec fn lone_count(list: Seq<Change>, name: Seq<char>) -> nat {
    list.filter(|change: Change| change.block.name@ == name).len()
}

/// How many cells held a block of one name and hold one of another now.
pub open spec fn turned_count(list: Seq<Replacement>, was: Seq<char>, now: Seq<char>) -> nat {
    list.filter(|change: Replacement| change.was.name@ == was && change.now.name@ == now).len()
}

proof fn lemma_lone_keys(list: Seq<Change>, kind: Kind, key: Key)
    ensures
        change_keys(list, kind).to_multiset().count(key) == if key.kind == kind && key.now is None {
            lone_count(list, key.label)
        } else {
            0
        },
    decreases list.len(),
{
    broadcast use vstd::seq_lib::group_to_multiset_ensures;

    reveal(Seq::filter);
    let keys = change_keys(list, kind);
    if list.len() == 0 {
        assert(keys =~= Seq::<Key>::empty());
    } else {
        let fewer = list.drop_last();
        lemma_lone_keys(fewer, kind, key);
        let last = Key { kind, label: list.last().block.name@, now: None };
        assert(keys =~= change_keys(fewer, kind).push(last));
        assert(key == last <==> key.kind == kind && key.now is None && key.label == last.label);
    }
}

proof fn lemma_turned_keys(list: Seq<Replacement>, key: Key)
    ensures
        replacement_keys(list).to_multiset().count(key) == if key.kind == Kind::Modified
            && key.now != Some(key.label) {
            turned_count(
                list,
                key.label,
                match key.now {
                    Some(now) => now,
                    None => key.label,
                },
            )
        } else {
            0
        },
    decreases list.len(),
{
    broadcast use vstd::seq_lib::group_to_multiset_ensures;

    reveal(Seq::filter);
    let keys = replacement_keys(list);
    if list.len() == 0 {
        assert(keys =~= Seq::<Key>::empty());
    } else {
        let fewer = list.drop_last();
        lemma_turned_keys(fewer, key);
        let last = replacement_key(list.last());
        assert(keys =~= replacement_keys(fewer).push(last));
    }
}

/// How often a key counts in a difference.
proof fn lemma_difference_count(changes: Changes, key: Key)
    ensures
        difference_keys(changes).to_multiset().count(key) == change_keys(
            changes.added@,
            Kind::Added,
        ).to_multiset().count(key) + change_keys(
            changes.removed@,
            Kind::Removed,
        ).to_multiset().count(key) + replacement_keys(changes.changed@).to_multiset().count(key)
            + replacement_keys(changes.swapped@).to_multiset().count(key),
{
    let a = change_keys(changes.added@, Kind::Added);
    let b = change_keys(changes.removed@, Kind::Removed);
    let c = replacement_keys(changes.changed@);
    let d = replacement_keys(changes.swapped@);
    vstd::seq_lib::lemma_multiset_commutative(a, b);
    vstd::seq_lib::lemma_multiset_commutative(a + b, c);
    vstd::seq_lib::lemma_multiset_commutative(a + b + c, d);
}

/// A row of a breakdown is a line that tells its count.
proof fn lemma_row_is_told(row: Row, width: nat, prefix: Option<Seq<char>>)
    ensures
        is_count_line(
            line(row, width, prefix),
            sign(row, prefix),
            row.count,
            row.key.label + outcome(row, prefix),
        ),
{
    let number = decimal(row.count);
    let pad: nat = if number.len() >= width {
        0
    } else {
        (width - number.len()) as nat
    };
    assert(line(row, width, prefix) =~= "    "@ + sign(row, prefix) + spaces(pad) + number + "  "@
        + (row.key.label + outcome(row, prefix)));
}

/// The lines below the title of an uncapped breakdown are its rows, one for one.
proof fn lemma_body_is_its_rows(
    lines: Seq<Seq<char>>,
    rows: Seq<Row>,
    prefix: Option<Seq<char>>,
    j: int,
)
    requires
        rows.len() > 0,
        lines == seq!["  stat"@] + body(rows, StatMode::Uncapped, prefix),
        0 <= j < rows.len(),
    ensures
        lines.len() == rows.len() + 1,
        is_count_line(
            lines[j + 1],
            sign(rows[j], prefix),
            rows[j].count,
            rows[j].key.label + outcome(rows[j], prefix),
        ),
{
    lemma_row_is_told(rows[j], widest(rows), prefix);
}

/// Where some key counts in a difference, there is a line on it.
proof fn lemma_key_is_told(lines: Vec<String>, changes: Changes, key: Key)
    requires
        tells_difference(texts(lines@), changes, StatMode::Uncapped),
        difference_keys(changes).to_multiset().count(key) > 0,
    ensures
        ({
            let row = Row { key, count: difference_keys(changes).to_multiset().count(key) };
            tell_count(
                lines@,
                sign(row, None),
                row.count,
                row.key.label + outcome(row, None),
            )
        }),
{
    broadcast use vstd::seq_lib::group_to_multiset_ensures;

    let keys = difference_keys(changes);
    let rows = choose|rows: Seq<Row>| #[trigger]
        is_breakdown(rows, keys) && texts(lines@) == difference_lines(rows, StatMode::Uncapped);
    assert(keys.contains(key));
    let j = choose|j: int| 0 <= j < rows.len() && (#[trigger] rows[j]).key == key;
    assert(rows[j].count == keys.to_multiset().count(rows[j].key));
    lemma_body_is_its_rows(texts(lines@), rows, None, j);
    assert(texts(lines@)[j + 1] == lines@[j + 1]@);
    assert(rows[j] == (Row { key, count: keys.to_multiset().count(key) }));
}

/// A full breakdown tells of every kind of change how many there are: a line with a plus and
/// the number of cells for each name of an added block, one with a minus for each name of a
/// removed block, and one with a tilde for each two names that a block had and has now, or
/// for each name that a block kept while it changed otherwise, re-paletted or not.
#[verifier::rlimit(60)]
pub proof fn lemma_breakdown_tells_every_change(
    changes: &Changes,
    lines: Vec<String>,
    name: Seq<char>,
    now: Seq<char>,
)
    requires
        call_ensures(difference_stat, (Some(changes), StatMode::Uncapped), lines),
    ensures
        lone_count(changes.added@, name) > 0 ==> tell_count(
            lines@,
            "+ "@,
            lone_count(changes.added@, name),
            name,
        ),
        lone_count(changes.removed@, name) > 0 ==> tell_count(
            lines@,
            "- "@,
            lone_count(changes.removed@, name),
            name,
        ),
        ({
            let turned = turned_count(changes.changed@, name, now) + turned_count(
                changes.swapped@,
                name,
                now,
            );
            turned > 0 ==> tell_count(
                lines@,
                "~ "@,
                turned,
                if name == now {
                    name + " (state)"@
                } else {
                    name + (" -> "@ + now)
                },
            )
        }),
{
    let none: Seq<char> = Seq::empty();
    assert(name + none =~= name);
    let plus = Key { kind: Kind::Added, label: name, now: None };
    let minus = Key { kind: Kind::Removed, label: name, now: None };
    let tilde = Key {
        kind: Kind::Modified,
        label: name,
        now: if name == now {
            None
        } else {
            Some(now)
        },
    };
    lemma_difference_count(*changes, plus);
    lemma_difference_count(*changes, minus);
    lemma_difference_count(*changes, tilde);
    lemma_all_keys(*changes, plus);
    lemma_all_keys(*changes, minus);
    lemma_all_keys(*changes, tilde);
    if lone_count(changes.added@, name) > 0 {
        lemma_key_is_told(lines, *changes, plus);
    }
    if lone_count(changes.removed@, name) > 0 {
        lemma_key_is_told(lines, *changes, minus);
    }
    if turned_count(changes.changed@, name, now) + turned_count(changes.swapped@, name, now) > 0 {
        lemma_key_is_told(lines, *changes, tilde);
    }
}

proof fn lemma_all_keys(changes: Changes, key: Key)
    ensures
        change_keys(changes.added@, Kind::Added).to_multiset().count(key) == if key.kind
            == Kind::Added && key.now is None {
            lone_count(changes.added@, key.label)
        } else {
            0
        },
        change_keys(changes.removed@, Kind::Removed).to_multiset().count(key) == if key.kind
            == Kind::Removed && key.now is None {
            lone_count(changes.removed@, key.label)
        } else {
            0
        },
        replacement_keys(changes.changed@).to_multiset().count(key) == if key.kind
            == Kind::Modified && key.now != Some(key.label) {
            turned_count(
                changes.changed@,
                key.label,
                match key.now {
                    Some(now) => now,
                    None => key.label,
                },
            )
        } else {
            0
        },
        replacement_keys(changes.swapped@).to_multiset().count(key) == if key.kind
            == Kind::Modified && key.now != Some(key.label) {
            turned_count(
                changes.swapped@,
                key.label,
                match key.now {
                    Some(now) => now,
                    None => key.label,
                },
            )
        } else {
            0
        },
{
    lemma_lone_keys(changes.added@, Kind::Added, key);
    lemma_lone_keys(changes.removed@, Kind::Removed, key);
    lemma_turned_keys(changes.changed@, key);
    lemma_turned_keys(changes.swapped@, key);
}

/// A line of a full breakdown is on cells of the difference with blocks of a name.
pub open spec fn is_change_line(
    text: Seq<char>,
    changes: Changes,
    count: nat,
    name: Seq<char>,
) -> bool {
    ||| count == lone_count(changes.added@, name) && is_count_line(text, "+ "@, count, name)
    ||| count == lone_count(changes.removed@, name) && is_count_line(text, "- "@, count, name)
    ||| exists|now: Seq<char>|
        count == #[trigger] turned_count(changes.changed@, name, now) + turned_count(
            changes.swapped@,
            name,
            now,
        ) && is_count_line(
            text,
            "~ "@,
            count,
            if name == now {
                name + " (state)"@
            } else {
                name + (" -> "@ + now)
            },
        )
}

/// Lines that count the same number of blocks of the same name are in order: what was added
/// comes first, what was removed next, and what was turned into something last, by its new
/// name, after what only changed its state.
pub open spec fn are_signed_in_order(
    told: Seq<(nat, Seq<char>)>,
    signs: Seq<(Seq<char>, Option<Seq<char>>)>,
) -> bool {
    forall|i: int, j: int|
        0 <= i < j < told.len() && #[trigger] told[i] == #[trigger] told[j] ==> {
            &&& signs[j].0 == "+ "@ ==> false
            &&& signs[j].0 == "- "@ ==> signs[i].0 == "+ "@
            &&& signs[i].0 == "~ "@ ==> signs[j].0 == "~ "@ && (match (signs[i].1, signs[j].1) {
                (None, Some(_)) => true,
                (Some(a), Some(b)) => precedes(a, b),
                _ => false,
            })
        }
}

/// The lines of a full breakdown that tie are in order by what happened to the blocks.
#[verifier::rlimit(60)]
pub proof fn lemma_ties_go_by_what_happened(changes: &Changes, lines: Vec<String>) -> (told: (
    Seq<(nat, Seq<char>)>,
    Seq<(Seq<char>, Option<Seq<char>>)>,
))
    requires
        call_ensures(difference_stat, (Some(changes), StatMode::Uncapped), lines),
        changes.added@.len() + changes.removed@.len() + changes.changed@.len()
            + changes.swapped@.len() > 0,
    ensures
        told.0.len() == lines@.len() - 1,
        told.1.len() == told.0.len(),
        forall|j: int|
            0 <= j < told.0.len() ==> {
                let (sign, now) = told.1[j];
                &&& is_count_line(
                    (#[trigger] lines@[j + 1])@,
                    sign,
                    told.0[j].0,
                    told.0[j].1 + (if sign == "~ "@ {
                        match now {
                            None => " (state)"@,
                            Some(now) => " -> "@ + now,
                        }
                    } else {
                        Seq::empty()
                    }),
                )
                &&& sign == "+ "@ || sign == "- "@ || sign == "~ "@
            },
        are_told_in_order(told.0),
        are_signed_in_order(told.0, told.1),
{
    broadcast use vstd::seq_lib::group_to_multiset_ensures;

    let keys = difference_keys(*changes);
    let rows = choose|rows: Seq<Row>| #[trigger]
        is_breakdown(rows, keys) && texts(lines@) == difference_lines(rows, StatMode::Uncapped);
    assert(keys.contains(keys[0]));
    assert(rows.len() > 0);
    let told = Seq::new(rows.len(), |j: int| (rows[j].count, rows[j].key.label));
    let signs = Seq::new(rows.len(), |j: int| (sign(rows[j], None), rows[j].key.now));
    lemma_body_is_its_rows(texts(lines@), rows, None, 0);
    assert(texts(lines@).len() == lines@.len());
    assert("+ "@ != "- "@ && "+ "@ != "~ "@ && "- "@ != "~ "@) by {
        reveal_strlit("+ ");
        reveal_strlit("- ");
        reveal_strlit("~ ");
        assert("+ "@[0] == '+' && "- "@[0] == '-' && "~ "@[0] == '~');
    }
    assert forall|j: int| 0 <= j < told.len() implies {
        let (sign, now) = signs[j];
        &&& is_count_line(
            (#[trigger] lines@[j + 1])@,
            sign,
            told[j].0,
            told[j].1 + (if sign == "~ "@ {
                match now {
                    None => " (state)"@,
                    Some(now) => " -> "@ + now,
                }
            } else {
                Seq::empty()
            }),
        )
        &&& sign == "+ "@ || sign == "- "@ || sign == "~ "@
    } by {
        lemma_body_is_its_rows(texts(lines@), rows, None, j);
        assert(texts(lines@)[j + 1] == lines@[j + 1]@);
    }
    lemma_rows_are_in_order(rows);
    assert forall|i: int, j: int|
        0 <= i < j < told.len() && #[trigger] told[i] == #[trigger] told[j] implies {
        &&& signs[j].0 == "+ "@ ==> false
        &&& signs[j].0 == "- "@ ==> signs[i].0 == "+ "@
        &&& signs[i].0 == "~ "@ ==> signs[j].0 == "~ "@ && (match (signs[i].1, signs[j].1) {
            (None, Some(_)) => true,
            (Some(a), Some(b)) => precedes(a, b),
            _ => false,
        })
    } by {
        assert(ranks_before(rows[i], rows[j]));
        assert(rows[i].key != rows[j].key);
        lemma_plain_keys(rows[i], keys, *changes);
        lemma_plain_keys(rows[j], keys, *changes);
    }
    (told, signs)
}

/// What was only added or removed has no new name.
proof fn lemma_plain_keys(row: Row, keys: Seq<Key>, changes: Changes)
    requires
        keys == difference_keys(changes),
        row.count == keys.to_multiset().count(row.key),
        row.count > 0,
    ensures
        row.key.kind != Kind::Modified ==> row.key.now is None,
{
    lemma_difference_count(changes, row.key);
    lemma_all_keys(changes, row.key);
}

/// Some counts with their names are in order: no count is larger than the one before it, and
/// where two are equal the names are in the order of the alphabet.
pub open spec fn are_told_in_order(told: Seq<(nat, Seq<char>)>) -> bool {
    forall|i: int, j: int|
        0 <= i < j < told.len() ==> {
            &&& (#[trigger] told[i]).0 >= (#[trigger] told[j]).0
            &&& told[i].0 == told[j].0 ==> told[i].1 == told[j].1 || precedes(
                told[i].1,
                told[j].1,
            )
        }
}

/// Below its title a full breakdown of a difference holds nothing but lines on its cells, the
/// larger counts first and equal ones by name; where nothing differs it says so.
#[verifier::rlimit(60)]
pub proof fn lemma_breakdown_tells_changes_only(
    changes: &Changes,
    lines: Vec<String>,
) -> (told: Seq<(nat, Seq<char>)>)
    requires
        call_ensures(difference_stat, (Some(changes), StatMode::Uncapped), lines),
    ensures
        lines@.len() > 0,
        lines@[0]@ == "  stat"@,
        changes.added@.len() + changes.removed@.len() + changes.changed@.len()
            + changes.swapped@.len() == 0 ==> lines@.len() == 2 && lines@[1]@
            == "    (no block differences)"@ && told.len() == 0,
        changes.added@.len() + changes.removed@.len() + changes.changed@.len()
            + changes.swapped@.len() > 0 ==> told.len() == lines@.len() - 1,
        forall|j: int|
            0 <= j < told.len() ==> told[j].0 > 0 && is_change_line(
                (#[trigger] lines@[j + 1])@,
                *changes,
                told[j].0,
                told[j].1,
            ),
        are_told_in_order(told),
{
    broadcast use vstd::seq_lib::group_to_multiset_ensures;

    let keys = difference_keys(*changes);
    let rows = choose|rows: Seq<Row>| #[trigger]
        is_breakdown(rows, keys) && texts(lines@) == difference_lines(rows, StatMode::Uncapped);
    let told = Seq::new(rows.len(), |j: int| (rows[j].count, rows[j].key.label));
    assert(texts(lines@).len() == lines@.len());
    assert(difference_lines(rows, StatMode::Uncapped).len() >= 1);
    assert(texts(lines@)[0] == lines@[0]@);
    if keys.len() == 0 {
        if rows.len() > 0 {
            assert(rows[0].count == keys.to_multiset().count(rows[0].key));
            assert(keys =~= Seq::<Key>::empty());
        }
        assert(difference_lines(rows, StatMode::Uncapped).len() == 2);
        assert(texts(lines@)[1] == lines@[1]@);
    } else {
        assert(keys.contains(keys[0]));
        assert(rows.len() > 0);
        lemma_body_is_its_rows(texts(lines@), rows, None, 0);
    }
    assert forall|j: int| 0 <= j < told.len() implies told[j].0 > 0 && is_change_line(
        (#[trigger] lines@[j + 1])@,
        *changes,
        told[j].0,
        told[j].1,
    ) by {
        let row = rows[j];
        lemma_body_is_its_rows(texts(lines@), rows, None, j);
        assert(texts(lines@)[j + 1] == lines@[j + 1]@);
        assert(row.count == keys.to_multiset().count(row.key));
        lemma_difference_count(*changes, row.key);
        lemma_all_keys(*changes, row.key);
        let name = row.key.label;
        let none: Seq<char> = Seq::empty();
        assert(name + none =~= name);
        if row.key.kind == Kind::Added {
            assert(row.count == lone_count(changes.added@, name));
        } else if row.key.kind == Kind::Removed {
            assert(row.count == lone_count(changes.removed@, name));
        } else {
            let now = match row.key.now {
                Some(now) => now,
                None => name,
            };
            assert(row.count == turned_count(changes.changed@, name, now) + turned_count(
                changes.swapped@,
                name,
                now,
            ));
        }
    }
    lemma_rows_are_in_order(rows);
    told
}

proof fn lemma_rows_are_in_order(rows: Seq<Row>)
    requires
        ranked(rows),
    ensures
        are_told_in_order(Seq::new(rows.len(), |j: int| (rows[j].count, rows[j].key.label))),
{
    let told = Seq::new(rows.len(), |j: int| (rows[j].count, rows[j].key.label));
    assert forall|i: int, j: int| 0 <= i < j < told.len() implies {
        &&& (#[trigger] told[i]).0 >= (#[trigger] told[j]).0
        &&& told[i].0 == told[j].0 ==> told[i].1 == told[j].1 || precedes(told[i].1, told[j].1)
    } by {
        assert(ranks_before(rows[i], rows[j]));
    }
}

/// Below its title a full list of materials holds nothing but lines on blocks that are not
/// air, each with the number of such blocks, the larger counts first and equal ones by name;
/// and a build without such blocks is said to be empty.
#[verifier::rlimit(60)]
pub proof fn lemma_materials_are_all_that_is_told(
    loaded: &Loaded,
    prefix: &str,
    lines: Vec<String>,
) -> (told: Seq<(nat, Seq<char>)>)
    requires
        call_ensures(format_palette_stat, (loaded, prefix, StatMode::Uncapped), lines),
    ensures
        lines@.len() > 1,
        lines@[0]@ == "  stat"@,
        told.len() == 0 ==> lines@.len() == 2 && lines@[1]@ == "    (empty schematic)"@,
        told.len() > 0 ==> told.len() == lines@.len() - 1,
        forall|j: int|
            0 <= j < told.len() ==> {
                &&& is_count_line((#[trigger] lines@[j + 1])@, prefix@, told[j].0, told[j].1)
                &&& !air(told[j].1)
                &&& told[j].0 > 0
                &&& told[j].0 == built(loaded.schematic).filter(
                    |o: (Position, Seq<char>)| o.1 == told[j].1,
                ).len()
            },
        are_told_in_order(told),
{
    let blocks = built(loaded.schematic);
    let rows = choose|rows: Seq<Row>| #[trigger]
        is_material_list(rows, blocks) && texts(lines@) == material_lines(
            rows,
            prefix@,
            StatMode::Uncapped,
        );
    let told = Seq::new(rows.len(), |j: int| (rows[j].count, rows[j].key.label));
    assert(texts(lines@).len() == lines@.len());
    assert(material_lines(rows, prefix@, StatMode::Uncapped).len() >= 2);
    assert(texts(lines@)[0] == lines@[0]@);
    assert(texts(lines@)[1] == lines@[1]@);
    if rows.len() > 0 {
        lemma_body_is_its_rows(texts(lines@), rows, Some(prefix@), 0);
    }
    assert forall|j: int| 0 <= j < told.len() implies {
        &&& is_count_line((#[trigger] lines@[j + 1])@, prefix@, told[j].0, told[j].1)
        &&& !air(told[j].1)
        &&& told[j].0 > 0
        &&& told[j].0 == blocks.filter(|o: (Position, Seq<char>)| o.1 == told[j].1).len()
    } by {
        lemma_body_is_its_rows(texts(lines@), rows, Some(prefix@), j);
        assert(texts(lines@)[j + 1] == lines@[j + 1]@);
        let name = told[j].1;
        let none: Seq<char> = Seq::empty();
        assert(name + none =~= name);
        assert(is_named(name) =~= |o: (Position, Seq<char>)| o.1 == name);
        assert(rows[j].count == tally(blocks, rows[j].key.label));
    }
    lemma_rows_are_in_order(rows);
    told
}

/// A cap cuts a list of materials off in the same way as a breakdown of changes.
pub proof fn lemma_cap_cuts_materials_off(
    loaded: &Loaded,
    prefix: &str,
    cap: usize,
    lines: Vec<String>,
    full: Vec<String>,
)
    requires
        call_ensures(format_palette_stat, (loaded, prefix, StatMode::Capped(cap)), lines),
        call_ensures(format_palette_stat, (loaded, prefix, StatMode::Uncapped), full),
        full@.len() > 2 || full@[1]@ != "    (empty schematic)"@,
    ensures
        forall|j: int| 0 <= j <= cap && j < full@.len() ==> (#[trigger] lines@[j])@ == full@[j]@,
        full@.len() - 1 <= cap ==> lines@.len() == full@.len(),
        full@.len() - 1 > cap ==> lines@.len() == cap + 2 && tells_number(
            lines@[cap + 1]@,
            (full@.len() - 1 - cap) as nat,
            " more block types"@,
        ),
{
    let blocks = built(loaded.schematic);
    let rows = choose|rows: Seq<Row>| #[trigger]
        is_material_list(rows, blocks) && texts(full@) == material_lines(
            rows,
            prefix@,
            StatMode::Uncapped,
        );
    let other = choose|rows: Seq<Row>| #[trigger]
        is_material_list(rows, blocks) && texts(lines@) == material_lines(
            rows,
            prefix@,
            StatMode::Capped(cap),
        );
    lemma_material_list_is_unique(rows, other, blocks);
    assert(texts(full@).len() == full@.len());
    if rows.len() == 0 {
        assert(texts(full@).len() == 2);
        assert(texts(full@)[1] == full@[1]@);
    }
    lemma_cut_off(texts(lines@), texts(full@), rows, cap, Some(prefix@));
    assert forall|j: int| 0 <= j <= cap && j < full@.len() implies (#[trigger] lines@[j])@
        == full@[j]@ by {
        assert(texts(lines@)[j] == lines@[j]@ && texts(full@)[j] == full@[j]@);
    }
    if full@.len() - 1 > cap {
        assert(texts(lines@)[cap + 1] == lines@[cap + 1]@);
    }
}

/// The blocks of a build are counted without its air, each of them once.
pub proof fn lemma_blocks_are_counted(schematic: &nucleation::UniversalSchematic, r: usize)
    requires
        call_ensures(count_blocks, (schematic,), r),
    ensures
        r == built(*schematic).filter(|o: (Position, Seq<char>)| !air(o.1)).len(),
{
}

/// A cap cuts a breakdown off and changes nothing else: the lines up to the cap are those of
/// the full breakdown, and where lines are left out one more line tells how many.
pub proof fn lemma_cap_cuts_off(
    changes: &Changes,
    cap: usize,
    lines: Vec<String>,
    full: Vec<String>,
)
    requires
        call_ensures(difference_stat, (Some(changes), StatMode::Capped(cap)), lines),
        call_ensures(difference_stat, (Some(changes), StatMode::Uncapped), full),
        changes.added@.len() + changes.removed@.len() + changes.changed@.len()
            + changes.swapped@.len() > 0,
    ensures
        forall|j: int| 0 <= j <= cap && j < full@.len() ==> (#[trigger] lines@[j])@ == full@[j]@,
        full@.len() - 1 <= cap ==> lines@.len() == full@.len(),
        full@.len() - 1 > cap ==> lines@.len() == cap + 2 && tells_number(
            lines@[cap + 1]@,
            (full@.len() - 1 - cap) as nat,
            " more block changes"@,
        ),
{
    broadcast use vstd::seq_lib::group_to_multiset_ensures;

    let keys = difference_keys(*changes);
    let rows = choose|rows: Seq<Row>| #[trigger]
        is_breakdown(rows, keys) && texts(full@) == difference_lines(rows, StatMode::Uncapped);
    let other = choose|rows: Seq<Row>| #[trigger]
        is_breakdown(rows, keys) && texts(lines@) == difference_lines(rows, StatMode::Capped(cap));
    lemma_breakdown_is_unique(rows, other, keys, keys);
    assert(keys.contains(keys[0]));
    assert(rows.len() > 0);
    lemma_cut_off(texts(lines@), texts(full@), rows, cap, None);
    assert forall|j: int| 0 <= j <= cap && j < full@.len() implies (#[trigger] lines@[j])@
        == full@[j]@ by {
        assert(texts(lines@)[j] == lines@[j]@ && texts(full@)[j] == full@[j]@);
    }
    if full@.len() - 1 > cap {
        assert(texts(lines@)[cap + 1] == lines@[cap + 1]@);
    }
}

proof fn lemma_cut_off(
    lines: Seq<Seq<char>>,
    full: Seq<Seq<char>>,
    rows: Seq<Row>,
    cap: usize,
    prefix: Option<Seq<char>>,
)
    requires
        rows.len() > 0,
        lines == seq!["  stat"@] + body(rows, StatMode::Capped(cap), prefix),
        full == seq!["  stat"@] + body(rows, StatMode::Uncapped, prefix),
    ensures
        full.len() == rows.len() + 1,
        forall|j: int| 0 <= j <= cap && j < full.len() ==> #[trigger] lines[j] == full[j],
        full.len() - 1 <= cap ==> lines.len() == full.len(),
        full.len() - 1 > cap ==> lines.len() == cap + 2 && tells_number(
            lines[cap + 1],
            (full.len() - 1 - cap) as nat,
            if prefix is Some {
                " more block types"@
            } else {
                " more block changes"@
            },
        ),
{
    if rows.len() > cap {
        let n = (rows.len() - cap) as nat;
        let word = if prefix is Some {
            " more block types"@
        } else {
            " more block changes"@
        };
        assert(lines[cap + 1] == remainder(n, prefix));
        assert("    ... and "@.last() == ' ') by {
            reveal_strlit("    ... and ");
        }
        assert(word.is_prefix_of(word)) by {
            assert(word.subrange(0, word.len() as int) =~= word);
        }
        lemma_number_goes_before("    ... and "@, n, word, word);
        assert(lines[cap + 1] =~= "    ... and "@ + decimal(n) + word);
    }
}

/// A full list of materials tells of each name of a block that is not air how many such
/// blocks the build has, behind the sign that it was asked for.
pub proof fn lemma_materials_are_told(
    loaded: &Loaded,
    prefix: &str,
    lines: Vec<String>,
    name: Seq<char>,
)
    requires
        call_ensures(format_palette_stat, (loaded, prefix, StatMode::Uncapped), lines),
        !air(name),
        built(loaded.schematic).filter(|o: (Position, Seq<char>)| o.1 == name).len() > 0,
    ensures
        tell_count(
            lines@,
            prefix@,
            built(loaded.schematic).filter(|o: (Position, Seq<char>)| o.1 == name).len(),
            name,
        ),
{
    lemma_build_is_told(lines, built(loaded.schematic), prefix@, name);
}

proof fn lemma_build_is_told(
    lines: Vec<String>,
    blocks: Multiset<(Position, Seq<char>)>,
    prefix: Seq<char>,
    name: Seq<char>,
)
    requires
        tells_build(texts(lines@), blocks, prefix, StatMode::Uncapped),
        !air(name),
        blocks.filter(|o: (Position, Seq<char>)| o.1 == name).len() > 0,
    ensures
        tell_count(
            lines@,
            prefix,
            blocks.filter(|o: (Position, Seq<char>)| o.1 == name).len(),
            name,
        ),
{
    let rows = choose|rows: Seq<Row>| #[trigger]
        is_material_list(rows, blocks) && texts(lines@) == material_lines(
            rows,
            prefix,
            StatMode::Uncapped,
        );
    assert(is_named(name) =~= |o: (Position, Seq<char>)| o.1 == name);
    assert(tally(blocks, name) > 0);
    let j = choose|j: int| 0 <= j < rows.len() && (#[trigger] rows[j]).key.label == name;
    lemma_body_is_its_rows(texts(lines@), rows, Some(prefix), j);
    assert(texts(lines@)[j + 1] == lines@[j + 1]@);
    let none: Seq<char> = Seq::empty();
    assert(name + none =~= name);
}

/// The breakdown goes by the sides that there are. Of two it is that of their difference; of
/// one it lists its materials, behind a plus where the build is new, a minus where it is gone,
/// and nothing where it is looked at by itself.
pub proof fn lemma_breakdown_goes_by_the_sides(
    before: &Option<Loaded>,
    after: &Option<Loaded>,
    changes: Option<&Changes>,
    standalone: bool,
    lines: Vec<String>,
    name: Seq<char>,
)
    requires
        call_ensures(
            format_stat,
            (before, after, changes, standalone, StatMode::Uncapped),
            lines,
        ),
        !air(name),
    ensures
        before is None && after is Some ==> {
            let count = built(after->0.schematic).filter(
                |o: (Position, Seq<char>)| o.1 == name,
            ).len();
            count > 0 ==> tell_count(
                lines@,
                if standalone {
                    Seq::empty()
                } else {
                    "+ "@
                },
                count,
                name,
            )
        },
        before is Some && after is None ==> {
            let count = built(before->0.schematic).filter(
                |o: (Position, Seq<char>)| o.1 == name,
            ).len();
            count > 0 ==> tell_count(
                lines@,
                if standalone {
                    Seq::empty()
                } else {
                    "- "@
                },
                count,
                name,
            )
        },
        before is Some && after is Some && changes is Some ==> {
            let count = lone_count(changes->0.added@, name);
            count > 0 ==> tell_count(lines@, "+ "@, count, name)
        },
{
    if before is None && after is Some {
        let blocks = built(after->0.schematic);
        if blocks.filter(|o: (Position, Seq<char>)| o.1 == name).len() > 0 {
            lemma_build_is_told(lines, blocks, one_sided_prefix(standalone, true), name);
        }
    }
    if before is Some && after is None {
        let blocks = built(before->0.schematic);
        if blocks.filter(|o: (Position, Seq<char>)| o.1 == name).len() > 0 {
            lemma_build_is_told(lines, blocks, one_sided_prefix(standalone, false), name);
        }
    }
    if before is Some && after is Some && changes is Some {
        let plus = Key { kind: Kind::Added, label: name, now: None };
        lemma_difference_count(*changes->0, plus);
        lemma_all_keys(*changes->0, plus);
        let none: Seq<char> = Seq::empty();
        assert(name + none =~= name);
        if lone_count(changes->0.added@, name) > 0 {
            lemma_key_is_told(lines, *changes->0, plus);
        }
    }
}

/// The counts of a full breakdown stand in one column: each is set flush right in as many
/// columns as the longest of them takes.
#[verifier::rlimit(60)]
pub proof fn lemma_counts_stand_in_one_column(
    changes: &Changes,
    lines: Vec<String>,
) -> (told: (Seq<(Seq<char>, nat, Seq<char>)>, nat))
    requires
        call_ensures(difference_stat, (Some(changes), StatMode::Uncapped), lines),
        changes.added@.len() + changes.removed@.len() + changes.changed@.len()
            + changes.swapped@.len() > 0,
    ensures
        told.0.len() == lines@.len() - 1,
        told.0.len() > 0,
        forall|j: int|
            0 <= j < told.0.len() ==> {
                let (sign, count, counted) = told.0[j];
                &&& (#[trigger] lines@[j + 1])@ == "    "@ + sign + flush_right(
                    decimal(count),
                    told.1,
                ) + "  "@ + counted
                &&& sign == "+ "@ || sign == "- "@ || sign == "~ "@
                &&& decimal(count).len() <= told.1
            },
        exists|j: int|
            0 <= j < told.0.len() && decimal((#[trigger] told.0[j]).1).len() == told.1,
{
    broadcast use vstd::seq_lib::group_to_multiset_ensures;

    let keys = difference_keys(*changes);
    let rows = choose|rows: Seq<Row>| #[trigger]
        is_breakdown(rows, keys) && texts(lines@) == difference_lines(rows, StatMode::Uncapped);
    assert(keys.contains(keys[0]));
    assert(rows.len() > 0);
    lemma_body_is_its_rows(texts(lines@), rows, None, 0);
    assert(texts(lines@).len() == lines@.len());
    let parts = Seq::new(
        rows.len(),
        |j: int|
            (
                sign(rows[j], None),
                rows[j].count,
                rows[j].key.label + outcome(rows[j], None),
            ),
    );
    let width = widest(rows);
    lemma_widest_is_the_longest(rows);
    assert forall|j: int| 0 <= j < parts.len() implies {
        let (sign, count, counted) = parts[j];
        &&& (#[trigger] lines@[j + 1])@ == "    "@ + sign + flush_right(decimal(count), width)
            + "  "@ + counted
        &&& sign == "+ "@ || sign == "- "@ || sign == "~ "@
        &&& decimal(count).len() <= width
    } by {
        assert(texts(lines@)[j + 1] == lines@[j + 1]@);
        let row = rows[j];
        assert(texts(lines@)[j + 1] == line(row, width, None));
        assert(line(row, width, None) =~= "    "@ + sign(row, None) + flush_right(
            decimal(row.count),
            width,
        ) + "  "@ + (row.key.label + outcome(row, None)));
    }
    let k = choose|k: int| 0 <= k < rows.len() && decimal((#[trigger] rows[k]).count).len() == width;
    assert(parts[k].1 == rows[k].count);
    assert(decimal(parts[k].1).len() == width);
    let told = (parts, width);
    assert(0 <= k < told.0.len() && decimal(told.0[k].1).len() == told.1);
    told
}

proof fn lemma_widest_is_the_longest(rows: Seq<Row>)
    ensures
        forall|j: int|
            0 <= j < rows.len() ==> decimal((#[trigger] rows[j]).count).len() <= widest(rows),
        rows.len() > 0 ==> exists|j: int|
            0 <= j < rows.len() && decimal((#[trigger] rows[j]).count).len() == widest(rows),
    decreases rows.len(),
{
    if rows.len() > 0 {
        let fewer = rows.drop_last();
        lemma_widest_is_the_longest(fewer);
        let last = rows.len() - 1;
        let own = decimal(rows.last().count).len();
        assert(decimal(rows[last].count).len() == own);
        if own > widest(fewer) {
            assert(widest(rows) == own);
        } else if fewer.len() > 0 {
            let j = choose|j: int|
                0 <= j < fewer.len() && decimal((#[trigger] fewer[j]).count).len() == widest(fewer);
            assert(decimal(rows[j].count).len() == widest(rows));
        } else {
            lemma_decimal_grows(0, rows.last().count);
        }
        assert forall|j: int| 0 <= j < rows.len() implies decimal((#[trigger] rows[j]).count).len()
            <= widest(rows) by {
            if j < last {
                assert(decimal(fewer[j].count).len() <= widest(fewer));
            }
        }
    }
}

} // verus!
