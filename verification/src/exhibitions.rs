//! The exhibition lists that the site keeps pre-rendered: all exhibitions
//! grouped by year for the biography page, and the current ones, with
//! readable dates, for the sidebar. An exhibition record holds the columns
//! title, from (`YYYYMMDD`), till (`YYYYMMDD`), link, id.

use vstd::prelude::*;
use vstd::utf8::*;
use crate::text::{boundary, byte_range, byte_suffix, format_date, split_at_byte, utf8};
use crate::dates::{
    Date, compact_date, date_le, date_number, in_calendar_range, parse_compact_date, today_utc,
};

verus! {

broadcast use {encode_utf8_valid_utf8, encode_utf8_decode_utf8};

/// `a` and `b` agree on their first `k` bytes.
pub open spec fn agree_upto(a: Seq<u8>, b: Seq<u8>, k: int) -> bool {
    forall|j: int| 0 <= j < k ==> a[j] == b[j]
}

/// Byte-wise lexicographic order, the order of `String` keys: `a` is a
/// proper prefix of `b`, or at the first byte where they differ `a`'s is smaller.
pub open spec fn bytes_lt(a: Seq<u8>, b: Seq<u8>) -> bool {
    exists|k: int|
        0 <= k <= a.len() && k <= b.len() && #[trigger] agree_upto(a, b, k) && ((k == a.len() && k
            < b.len()) || (k < a.len() && k < b.len() && a[k] < b[k]))
}

pub proof fn lemma_bytes_lt_asym(a: Seq<u8>, b: Seq<u8>)
    requires
        bytes_lt(a, b),
    ensures
        !bytes_lt(b, a),
        a != b,
{
    let k1 = choose|k: int|
        0 <= k <= a.len() && k <= b.len() && #[trigger] agree_upto(a, b, k) && ((k == a.len() && k
            < b.len()) || (k < a.len() && k < b.len() && a[k] < b[k]));
    if bytes_lt(b, a) {
        let k2 = choose|k: int|
            0 <= k <= b.len() && k <= a.len() && #[trigger] agree_upto(b, a, k) && ((k == b.len() && k
                < a.len()) || (k < b.len() && k < a.len() && b[k] < a[k]));
        if k1 < k2 {
            assert(b[k1] == a[k1]);
        } else if k2 < k1 {
            assert(a[k2] == b[k2]);
        }
    }
}

pub proof fn lemma_bytes_lt_trans(a: Seq<u8>, b: Seq<u8>, c: Seq<u8>)
    requires
        bytes_lt(a, b),
        bytes_lt(b, c),
    ensures
        bytes_lt(a, c),
{
    let k1 = choose|k: int|
        0 <= k <= a.len() && k <= b.len() && #[trigger] agree_upto(a, b, k) && ((k == a.len() && k
            < b.len()) || (k < a.len() && k < b.len() && a[k] < b[k]));
    let k2 = choose|k: int|
        0 <= k <= b.len() && k <= c.len() && #[trigger] agree_upto(b, c, k) && ((k == b.len() && k
            < c.len()) || (k < b.len() && k < c.len() && b[k] < c[k]));
    let k = if k1 < k2 { k1 } else { k2 };
    assert(agree_upto(a, c, k)) by {
        assert forall|j: int| 0 <= j < k implies a[j] == c[j] by {
            assert(a[j] == b[j]);
            assert(b[j] == c[j]);
        }
    }
    if k1 < k2 {
        assert(b[k1] == c[k1]);
    } else if k2 < k1 {
        assert(a[k2] == b[k2]);
    }
}

/// Where two byte strings stand to each other.
pub enum ByteOrder {
    Before,
    Same,
    After,
}

/// Compares two byte strings lexicographically.
pub fn order_bytes(a: &[u8], b: &[u8]) -> (res: ByteOrder)
    ensures
        res is Before <==> bytes_lt(a@, b@),
        res is Same <==> a@ == b@,
        res is After <==> bytes_lt(b@, a@),
{
    let mut k: usize = 0;
    while k < a.len() && k < b.len()
        invariant
            k <= a@.len(),
            k <= b@.len(),
            agree_upto(a@, b@, k as int),
        decreases a@.len() - k,
    {
        if a[k] != b[k] {
            if a[k] < b[k] {
                proof {
                    assert(agree_upto(a@, b@, k as int));
                    lemma_bytes_lt_asym(a@, b@);
                }
                return ByteOrder::Before;
            } else {
                proof {
                    assert(agree_upto(b@, a@, k as int));
                    lemma_bytes_lt_asym(b@, a@);
                }
                return ByteOrder::After;
            }
        }
        k = k + 1;
    }
    if a.len() < b.len() {
        proof {
            assert(agree_upto(a@, b@, k as int));
            lemma_bytes_lt_asym(a@, b@);
        }
        ByteOrder::Before
    } else if b.len() < a.len() {
        proof {
            assert(agree_upto(b@, a@, k as int));
            lemma_bytes_lt_asym(b@, a@);
        }
        ByteOrder::After
    } else {
        proof {
            assert(a@ =~= b@);
            if bytes_lt(a@, b@) {
                lemma_bytes_lt_asym(a@, b@);
            }
        }
        ByteOrder::Same
    }
}

/// The year of an exhibition: the first four bytes of its start date.
pub open spec fn year_key(row: Seq<Seq<char>>) -> Seq<u8> {
    utf8(row[1]).subrange(0, 4)
}

/// The record has a start date whose first four bytes can be sliced off.
pub open spec fn has_year(row: Seq<Seq<char>>) -> bool {
    row.len() >= 2 && boundary(row[1], 4)
}

/// The records of one year, in the order given.
pub open spec fn with_year(rows: Seq<Seq<Seq<char>>>, y: Seq<u8>) -> Seq<Seq<Seq<char>>>
    decreases rows.len(),
{
    if rows.len() == 0 {
        Seq::empty()
    } else {
        let init = with_year(rows.drop_last(), y);
        if year_key(rows.last()) == y {
            init.push(rows.last())
        } else {
            init
        }
    }
}

/// Two records of the same year.
pub open spec fn same_year(a: Seq<Seq<char>>, b: Seq<Seq<char>>) -> bool {
    year_key(a) == year_key(b)
}

/// Some group holds records of the record's year.
pub open spec fn year_has_group(groups: Seq<Seq<Seq<Seq<char>>>>, row: Seq<Seq<char>>) -> bool {
    exists|k: int| 0 <= k < groups.len() && same_year(#[trigger] groups[k][0], row)
}

/// A non-empty group that holds exactly the records of its year, in order.
pub open spec fn is_year_group(rows: Seq<Seq<Seq<char>>>, g: Seq<Seq<Seq<char>>>) -> bool {
    g.len() > 0 && g == with_year(rows, year_key(g[0]))
}

/// `groups` holds the records grouped by year: one non-empty group per year
/// that occurs, latest year first, each with all the records of its year in
/// their original order.
pub open spec fn grouped_by_year(
    rows: Seq<Seq<Seq<char>>>,
    groups: Seq<Seq<Seq<Seq<char>>>>,
) -> bool {
    &&& forall|k: int| 0 <= k < groups.len() ==> is_year_group(rows, #[trigger] groups[k])
    &&& forall|k1: int, k2: int|
        0 <= k1 < k2 < groups.len() ==> bytes_lt(
            year_key((#[trigger] groups[k2])[0]),
            year_key((#[trigger] groups[k1])[0]),
        )
    &&& forall|i: int| 0 <= i < rows.len() ==> year_has_group(groups, #[trigger] rows[i])
}

pub proof fn lemma_with_year_members(rows: Seq<Seq<Seq<char>>>, y: Seq<u8>)
    ensures
        forall|j: int|
            0 <= j < with_year(rows, y).len() ==> year_key(#[trigger] with_year(rows, y)[j]) == y,
    decreases rows.len(),
{
    if rows.len() > 0 {
        lemma_with_year_members(rows.drop_last(), y);
        let init = with_year(rows.drop_last(), y);
        assert forall|j: int| 0 <= j < with_year(rows, y).len() implies year_key(
            #[trigger] with_year(rows, y)[j],
        ) == y by {
            if j < init.len() {
                assert(with_year(rows, y)[j] == init[j]);
            }
        }
    }
}

pub proof fn lemma_with_year_none(rows: Seq<Seq<Seq<char>>>, y: Seq<u8>)
    requires
        forall|j: int| 0 <= j < rows.len() ==> year_key(#[trigger] rows[j]) != y,
    ensures
        with_year(rows, y) == Seq::<Seq<Seq<char>>>::empty(),
    decreases rows.len(),
{
    if rows.len() > 0 {
        assert forall|j: int| 0 <= j < rows.drop_last().len() implies year_key(
            #[trigger] rows.drop_last()[j],
        ) != y by {
            assert(rows.drop_last()[j] == rows[j]);
        }
        lemma_with_year_none(rows.drop_last(), y);
        assert(year_key(rows[rows.len() - 1]) != y);
    }
}

/// Keys in strictly descending order.
pub open spec fn descending(keys: Seq<Seq<u8>>) -> bool {
    forall|k1: int, k2: int|
        0 <= k1 < k2 < keys.len() ==> bytes_lt(#[trigger] keys[k2], #[trigger] keys[k1])
}

/// The state of the grouping after the records `done`: group `k` holds the
/// records of year `keys[k]`, keys descending, every year seen has a group.
pub open spec fn grouping_state(
    done: Seq<Seq<Seq<char>>>,
    keys: Seq<Seq<u8>>,
    groups: Seq<Seq<Seq<Seq<char>>>>,
) -> bool {
    &&& keys.len() == groups.len()
    &&& forall|k: int|
        0 <= k < groups.len() ==> (#[trigger] groups[k]) == with_year(done, keys[k]) && groups[k].len()
            > 0
    &&& descending(keys)
    &&& forall|j: int|
        0 <= j < done.len() ==> exists|k: int|
            0 <= k < keys.len() && #[trigger] keys[k] == year_key(#[trigger] done[j])
}

proof fn lemma_push_onto_group(
    done: Seq<Seq<Seq<char>>>,
    keys: Seq<Seq<u8>>,
    groups: Seq<Seq<Seq<Seq<char>>>>,
    r: Seq<Seq<char>>,
    p: int,
)
    requires
        grouping_state(done, keys, groups),
        0 <= p < keys.len(),
        keys[p] == year_key(r),
    ensures
        grouping_state(done.push(r), keys, groups.update(p, groups[p].push(r))),
{
    let next = done.push(r);
    let g2 = groups.update(p, groups[p].push(r));
    assert(next.drop_last() =~= done);
    assert forall|k: int| 0 <= k < g2.len() implies (#[trigger] g2[k]) == with_year(next, keys[k])
        && g2[k].len() > 0 by {
        if k != p {
            if k < p {
                lemma_bytes_lt_asym(keys[p], keys[k]);
            } else {
                lemma_bytes_lt_asym(keys[k], keys[p]);
            }
        }
    }
    assert forall|j: int| 0 <= j < next.len() implies exists|k: int|
        0 <= k < keys.len() && #[trigger] keys[k] == year_key(#[trigger] next[j]) by {
        if j == done.len() {
            assert(keys[p] == year_key(next[j]));
        } else {
            assert(next[j] == done[j]);
        }
    }
}

proof fn lemma_new_group(
    done: Seq<Seq<Seq<char>>>,
    keys: Seq<Seq<u8>>,
    groups: Seq<Seq<Seq<Seq<char>>>>,
    r: Seq<Seq<char>>,
    p: int,
)
    requires
        grouping_state(done, keys, groups),
        0 <= p <= keys.len(),
        forall|q: int| 0 <= q < p ==> bytes_lt(year_key(r), #[trigger] keys[q]),
        p < keys.len() ==> bytes_lt(keys[p], year_key(r)),
    ensures
        grouping_state(
            done.push(r),
            keys.insert(p, year_key(r)),
            groups.insert(p, seq![r]),
        ),
{
    let y = year_key(r);
    let next = done.push(r);
    let k2s = keys.insert(p, y);
    let g2 = groups.insert(p, seq![r]);
    assert(next.drop_last() =~= done);
    assert forall|q: int| p < q < keys.len() implies bytes_lt(#[trigger] keys[q], y) by {
        lemma_bytes_lt_trans(keys[q], keys[p], y);
    }
    assert forall|j: int| 0 <= j < done.len() implies year_key(#[trigger] done[j]) != y by {
        let k = choose|k: int| 0 <= k < keys.len() && #[trigger] keys[k] == year_key(done[j]);
        if k < p {
            lemma_bytes_lt_asym(y, keys[k]);
        } else {
            lemma_bytes_lt_asym(keys[k], y);
        }
    }
    lemma_with_year_none(done, y);
    assert forall|k: int| 0 <= k < g2.len() implies (#[trigger] g2[k]) == with_year(next, k2s[k])
        && g2[k].len() > 0 by {
        if k == p {
            assert(with_year(next, y) =~= seq![r]);
        } else if k < p {
            assert(g2[k] == groups[k] && k2s[k] == keys[k]);
            lemma_bytes_lt_asym(y, keys[k]);
        } else {
            assert(g2[k] == groups[k - 1] && k2s[k] == keys[k - 1]);
            lemma_bytes_lt_asym(keys[k - 1], y);
        }
    }
    assert forall|k1: int, k2: int| 0 <= k1 < k2 < k2s.len() implies bytes_lt(
        #[trigger] k2s[k2],
        #[trigger] k2s[k1],
    ) by {
        let o1 = if k1 < p { k1 } else { k1 - 1 };
        let o2 = if k2 < p { k2 } else { k2 - 1 };
        if k1 != p && k2 != p {
            assert(k2s[k1] == keys[o1] && k2s[k2] == keys[o2]);
        } else if k1 == p {
            assert(k2s[k2] == keys[o2]);
        } else {
            assert(k2s[k1] == keys[o1]);
        }
    }
    assert forall|j: int| 0 <= j < next.len() implies exists|k: int|
        0 <= k < k2s.len() && #[trigger] k2s[k] == year_key(#[trigger] next[j]) by {
        if j == done.len() {
            assert(k2s[p] == year_key(next[j]));
        } else {
            assert(next[j] == done[j]);
            let k = choose|k: int| 0 <= k < keys.len() && #[trigger] keys[k] == year_key(done[j]);
            if k < p {
                assert(k2s[k] == keys[k]);
            } else {
                assert(k2s[k + 1] == keys[k]);
            }
        }
    }
}

proof fn lemma_state_gives_grouping(
    rows: Seq<Seq<Seq<char>>>,
    keys: Seq<Seq<u8>>,
    groups: Seq<Seq<Seq<Seq<char>>>>,
)
    requires
        grouping_state(rows, keys, groups),
    ensures
        grouped_by_year(rows, groups),
{
    assert forall|k: int| 0 <= k < groups.len() implies year_key((#[trigger] groups[k])[0])
        == keys[k] by {
        lemma_with_year_members(rows, keys[k]);
    }
    assert forall|k: int| 0 <= k < groups.len() implies is_year_group(rows, #[trigger] groups[k]) by {
        assert(year_key(groups[k][0]) == keys[k]);
    }
    assert forall|k1: int, k2: int| 0 <= k1 < k2 < groups.len() implies bytes_lt(
        year_key((#[trigger] groups[k2])[0]),
        year_key((#[trigger] groups[k1])[0]),
    ) by {
        assert(year_key(groups[k1][0]) == keys[k1]);
        assert(year_key(groups[k2][0]) == keys[k2]);
    }
    assert forall|i: int| 0 <= i < rows.len() implies year_has_group(groups, #[trigger] rows[i]) by {
        let k = choose|k: int| 0 <= k < keys.len() && #[trigger] keys[k] == year_key(rows[i]);
        assert(year_key(groups[k][0]) == keys[k]);
        assert(0 <= k < groups.len() && same_year(groups[k][0], rows[i]));
    }
}

/// The byte texts of the keys.
pub open spec fn key_bytes(keys: Seq<String>) -> Seq<Seq<u8>> {
    keys.map_values(|s: String| utf8(s@))
}

/// Where a year belongs among descending keys: after all larger keys; and
/// whether it is already there.
fn find_year_slot(keys: &Vec<String>, yb: &[u8]) -> (res: (usize, bool))
    requires
        descending(key_bytes(keys@)),
    ensures
        res.0 <= keys@.len(),
        forall|q: int| 0 <= q < res.0 ==> bytes_lt(yb@, #[trigger] key_bytes(keys@)[q]),
        res.1 ==> res.0 < keys@.len() && key_bytes(keys@)[res.0 as int] == yb@,
        !res.1 ==> res.0 == keys@.len() || bytes_lt(key_bytes(keys@)[res.0 as int], yb@),
{
    let mut p: usize = 0;
    while p < keys.len()
        invariant
            p <= keys@.len(),
            forall|q: int| 0 <= q < p ==> bytes_lt(yb@, #[trigger] key_bytes(keys@)[q]),
        decreases keys@.len() - p,
    {
        let kb = keys[p].as_str().as_bytes();
        proof {
            assert(kb@ == key_bytes(keys@)[p as int]);
        }
        match order_bytes(yb, kb) {
            ByteOrder::Before => {
                p = p + 1;
            },
            ByteOrder::Same => {
                return (p, true);
            },
            ByteOrder::After => {
                return (p, false);
            },
        }
    }
    (p, false)
}

/// Groups exhibition records by year, latest year first, keeping their order
/// within a year, as the biography page lists them.
pub fn group_exhibitions_by_year(exhibitions: &Vec<Vec<String>>) -> (res: Vec<Vec<Vec<String>>>)
    requires
        forall|i: int|
            0 <= i < exhibitions@.len() ==> has_year(#[trigger] exhibitions.deep_view()[i]),
    ensures
        grouped_by_year(exhibitions.deep_view(), res.deep_view()),
{
    let ghost rows = exhibitions.deep_view();
    let mut keys: Vec<String> = Vec::new();
    let mut groups: Vec<Vec<Vec<String>>> = Vec::new();
    let mut i: usize = 0;
    proof {
        assert(rows.take(0) =~= Seq::<Seq<Seq<char>>>::empty());
        assert(key_bytes(keys@) =~= Seq::<Seq<u8>>::empty());
        assert(groups.deep_view() =~= Seq::<Seq<Seq<Seq<char>>>>::empty());
    }
    while i < exhibitions.len()
        invariant
            rows == exhibitions.deep_view(),
            i <= rows.len(),
            forall|j: int| 0 <= j < rows.len() ==> has_year(#[trigger] rows[j]),
            grouping_state(rows.take(i as int), key_bytes(keys@), groups.deep_view()),
        decreases rows.len() - i,
    {
        let row = &exhibitions[i];
        let ghost r = rows[i as int];
        proof {
            assert(r == row.deep_view());
            assert(has_year(r));
        }
        let (year, _) = split_at_byte(row[1].as_str(), 4);
        let yb = year.as_bytes();
        let (p, found) = find_year_slot(&keys, yb);
        let ghost old_keys = key_bytes(keys@);
        let ghost old_groups = groups.deep_view();
        let ghost prefix = rows.take(i as int);
        proof {
            assert(rows.take(i + 1) =~= prefix.push(r));
        }
        let copy = row.clone();
        proof {
            assert(copy@ =~= row@);
            assert(copy.deep_view() == r);
        }
        let ghost og = groups@;
        if found {
            let mut g = groups.remove(p);
            proof {
                assert(g.deep_view() == old_groups[p as int]);
            }
            g.push(copy);
            proof {
                assert(g.deep_view() =~= old_groups[p as int].push(r));
            }
            let ghost gv = g;
            groups.insert(p, g);
            proof {
                lemma_push_onto_group(prefix, old_keys, old_groups, r, p as int);
                assert(groups@ =~= og.update(p as int, gv));
                assert forall|k: int| 0 <= k < groups@.len() implies groups.deep_view()[k]
                    == old_groups.update(p as int, old_groups[p as int].push(r))[k] by {
                    if k != p {
                        assert(groups@[k] == og[k]);
                    }
                }
                assert(groups.deep_view() =~= old_groups.update(p as int, old_groups[p as int].push(r)));
            }
        } else {
            let key = year.to_owned();
            let mut g: Vec<Vec<String>> = Vec::new();
            g.push(copy);
            proof {
                assert(g.deep_view() =~= seq![r]);
            }
            let ghost gv = g;
            keys.insert(p, key);
            groups.insert(p, g);
            proof {
                lemma_new_group(prefix, old_keys, old_groups, r, p as int);
                assert(groups@ =~= og.insert(p as int, gv));
                assert forall|k: int| 0 <= k < groups@.len() implies groups.deep_view()[k]
                    == old_groups.insert(p as int, seq![r])[k] by {
                    if k < p {
                        assert(groups@[k] == og[k]);
                    } else if k > p {
                        assert(groups@[k] == og[k - 1]);
                    }
                }
                assert(key_bytes(keys@) =~= old_keys.insert(p as int, year_key(r)));
                assert(groups.deep_view() =~= old_groups.insert(p as int, seq![r]));
            }
        }
        i = i + 1;
    }
    proof {
        assert(rows.take(i as int) =~= rows);
        lemma_state_gives_grouping(rows, key_bytes(keys@), groups.deep_view());
    }
    groups
}

/// The number of records over all groups.
pub open spec fn group_sizes(groups: Seq<Seq<Seq<Seq<char>>>>) -> int
    decreases groups.len(),
{
    if groups.len() == 0 {
        0
    } else {
        group_sizes(groups.drop_last()) + groups.last().len()
    }
}

/// The number of records of the given years.
pub open spec fn year_counts(rows: Seq<Seq<Seq<char>>>, keys: Seq<Seq<u8>>) -> int
    decreases keys.len(),
{
    if keys.len() == 0 {
        0
    } else {
        year_counts(rows, keys.drop_last()) + with_year(rows, keys.last()).len()
    }
}

pub open spec fn distinct_keys(keys: Seq<Seq<u8>>) -> bool {
    forall|a: int, b: int| 0 <= a < b < keys.len() ==> #[trigger] keys[a] != #[trigger] keys[b]
}

proof fn lemma_year_counts_empty(keys: Seq<Seq<u8>>)
    ensures
        year_counts(Seq::<Seq<Seq<char>>>::empty(), keys) == 0,
    decreases keys.len(),
{
    if keys.len() > 0 {
        lemma_year_counts_empty(keys.drop_last());
    }
}

proof fn lemma_year_counts_step(rows: Seq<Seq<Seq<char>>>, keys: Seq<Seq<u8>>)
    requires
        rows.len() > 0,
        distinct_keys(keys),
    ensures
        year_counts(rows, keys) == year_counts(rows.drop_last(), keys) + (if keys.contains(
            year_key(rows.last()),
        ) {
            1int
        } else {
            0int
        }),
    decreases keys.len(),
{
    if keys.len() > 0 {
        let ks = keys.drop_last();
        let k = keys.last();
        let y = year_key(rows.last());
        assert(distinct_keys(ks)) by {
            assert forall|a: int, b: int| 0 <= a < b < ks.len() implies #[trigger] ks[a] != #[trigger] ks[b] by {
                assert(ks[a] == keys[a] && ks[b] == keys[b]);
            }
        }
        lemma_year_counts_step(rows, ks);
        if k == y {
            assert(!ks.contains(y)) by {
                if ks.contains(y) {
                    let a = choose|a: int| 0 <= a < ks.len() && ks[a] == y;
                    assert(keys[a] == ks[a]);
                    assert(keys[keys.len() - 1] == k);
                }
            }
        }
        assert(keys.contains(y) == (ks.contains(y) || k == y)) by {
            if keys.contains(y) {
                let a = choose|a: int| 0 <= a < keys.len() && keys[a] == y;
                if a < ks.len() {
                    assert(ks[a] == keys[a]);
                }
            }
            if ks.contains(y) {
                let a = choose|a: int| 0 <= a < ks.len() && ks[a] == y;
                assert(keys[a] == ks[a]);
            }
            if k == y {
                assert(keys[keys.len() - 1] == k);
            }
        }
    }
}

proof fn lemma_year_counts_all(rows: Seq<Seq<Seq<char>>>, keys: Seq<Seq<u8>>)
    requires
        distinct_keys(keys),
        forall|i: int| 0 <= i < rows.len() ==> keys.contains(year_key(#[trigger] rows[i])),
    ensures
        year_counts(rows, keys) == rows.len(),
    decreases rows.len(),
{
    if rows.len() == 0 {
        assert(rows =~= Seq::<Seq<Seq<char>>>::empty());
        lemma_year_counts_empty(keys);
    } else {
        let init = rows.drop_last();
        assert forall|i: int| 0 <= i < init.len() implies keys.contains(year_key(#[trigger] init[i])) by {
            assert(init[i] == rows[i]);
        }
        lemma_year_counts_all(init, keys);
        lemma_year_counts_step(rows, keys);
        assert(keys.contains(year_key(rows[rows.len() - 1])));
    }
}

proof fn lemma_group_sizes(rows: Seq<Seq<Seq<char>>>, groups: Seq<Seq<Seq<Seq<char>>>>)
    requires
        forall|k: int| 0 <= k < groups.len() ==> is_year_group(rows, #[trigger] groups[k]),
    ensures
        group_sizes(groups) == year_counts(rows, groups.map_values(|g: Seq<Seq<Seq<char>>>| year_key(g[0]))),
    decreases groups.len(),
{
    if groups.len() > 0 {
        let init = groups.drop_last();
        assert forall|k: int| 0 <= k < init.len() implies is_year_group(rows, #[trigger] init[k]) by {
            assert(init[k] == groups[k]);
        }
        lemma_group_sizes(rows, init);
        let keys = groups.map_values(|g: Seq<Seq<Seq<char>>>| year_key(g[0]));
        assert(keys.drop_last() =~= init.map_values(|g: Seq<Seq<Seq<char>>>| year_key(g[0])));
        assert(is_year_group(rows, groups[groups.len() - 1]));
    }
}

/// Grouping by year lists every exhibition exactly once: the groups hold as
/// many records as there are exhibitions, each in the group of its year.
pub proof fn law_grouping_keeps_every_exhibition(
    rows: Seq<Seq<Seq<char>>>,
    groups: Seq<Seq<Seq<Seq<char>>>>,
)
    requires
        grouped_by_year(rows, groups),
    ensures
        group_sizes(groups) == rows.len(),
{
    let keys = groups.map_values(|g: Seq<Seq<Seq<char>>>| year_key(g[0]));
    assert(distinct_keys(keys)) by {
        assert forall|a: int, b: int| 0 <= a < b < keys.len() implies #[trigger] keys[a] != #[trigger] keys[b] by {
            assert(bytes_lt(year_key(groups[b][0]), year_key(groups[a][0])));
            lemma_bytes_lt_asym(year_key(groups[b][0]), year_key(groups[a][0]));
        }
    }
    assert forall|i: int| 0 <= i < rows.len() implies keys.contains(year_key(#[trigger] rows[i])) by {
        assert(year_has_group(groups, rows[i]));
        let k = choose|k: int| 0 <= k < groups.len() && same_year(#[trigger] groups[k][0], rows[i]);
        assert(keys[k] == year_key(rows[i]));
    }
    lemma_year_counts_all(rows, keys);
    lemma_group_sizes(rows, groups);
}

/// A compact date whose first six bytes can be sliced as `YYYY` and `MM`.
pub open spec fn formattable(s: Seq<char>) -> bool {
    boundary(s, 4) && boundary(s, 6)
}

/// The readable form of a compact date, `YYYY.MM.DD`, as `format_date` writes it.
pub open spec fn readable_date(s: Seq<char>) -> Seq<char> {
    byte_range(s, 0, 4) + seq!['.'] + byte_range(s, 4, 6) + seq!['.'] + byte_suffix(s, 6)
}

/// A record with its start and end dates in readable form.
pub open spec fn with_readable_dates(row: Seq<Seq<char>>) -> Seq<Seq<char>> {
    row.update(1, readable_date(row[1])).update(2, readable_date(row[2]))
}

/// The records whose end date is today or later, in order, with readable dates.
pub open spec fn current_rows(rows: Seq<Seq<Seq<char>>>, tills: Seq<Date>, today: Date) -> Seq<
    Seq<Seq<char>>,
>
    decreases rows.len(),
{
    if rows.len() == 0 {
        Seq::empty()
    } else {
        let init = current_rows(rows.drop_last(), tills.drop_last(), today);
        if date_le(today, tills.last()) {
            init.push(with_readable_dates(rows.last()))
        } else {
            init
        }
    }
}

/// The current records are exactly the readable forms of those whose end
/// date is not before `today`: each listed record comes from a record that
/// ends today or later, every such record is listed, and a record that
/// ended earlier, even earlier in the same month, is not.
pub proof fn law_current_rows_have_not_ended(
    rows: Seq<Seq<Seq<char>>>,
    tills: Seq<Date>,
    today: Date,
)
    requires
        tills.len() == rows.len(),
        in_calendar_range(today),
        forall|i: int| 0 <= i < tills.len() ==> in_calendar_range(#[trigger] tills[i]),
    ensures
        forall|k: int|
            0 <= k < current_rows(rows, tills, today).len() ==> exists|i: int|
                0 <= i < rows.len() && date_number(today) <= date_number(tills[i])
                    && #[trigger] current_rows(rows, tills, today)[k] == with_readable_dates(
                    rows[i],
                ),
        forall|i: int|
            0 <= i < rows.len() && date_number(today) <= date_number(#[trigger] tills[i])
                ==> current_rows(rows, tills, today).contains(with_readable_dates(rows[i])),
        current_rows(rows, tills, today).len() <= rows.len(),
    decreases rows.len(),
{
    if rows.len() > 0 {
        let ri = rows.drop_last();
        let ti = tills.drop_last();
        assert forall|i: int| 0 <= i < ti.len() implies in_calendar_range(#[trigger] ti[i]) by {
            assert(ti[i] == tills[i]);
        }
        law_current_rows_have_not_ended(ri, ti, today);
        let init = current_rows(ri, ti, today);
        let res = current_rows(rows, tills, today);
        let n = rows.len() - 1;
        assert(tills.last() == tills[n]);
        crate::dates::law_date_order_is_calendar_order(today, tills[n]);
        assert forall|k: int| 0 <= k < res.len() implies exists|i: int|
            0 <= i < rows.len() && date_number(today) <= date_number(tills[i])
                && #[trigger] res[k] == with_readable_dates(rows[i]) by {
            if k < init.len() {
                assert(res[k] == init[k]);
                let i = choose|i: int|
                    0 <= i < ri.len() && date_number(today) <= date_number(ti[i])
                        && #[trigger] init[k] == with_readable_dates(ri[i]);
                assert(ri[i] == rows[i] && ti[i] == tills[i]);
            } else {
                assert(res[k] == with_readable_dates(rows[n]));
            }
        }
        assert forall|i: int|
            0 <= i < rows.len() && date_number(today) <= date_number(#[trigger] tills[i])
            implies res.contains(with_readable_dates(rows[i])) by {
            if i < n {
                assert(ri[i] == rows[i] && ti[i] == tills[i]);
                assert(init.contains(with_readable_dates(ri[i])));
                let k = choose|k: int| 0 <= k < init.len() && init[k] == with_readable_dates(ri[i]);
                assert(res[k] == init[k]);
            } else {
                assert(res[init.len() as int] == with_readable_dates(rows[n]));
            }
        }
    }
}

/// The record has an end date, and if it is current its dates can be formatted.
pub open spec fn displayable(row: Seq<Seq<char>>, till: Date, today: Date) -> bool {
    row.len() >= 3 && (date_le(today, till) ==> formattable(row[1]) && formattable(row[2]))
}

/// The records that are still running on `today`, given the end date of each,
/// with their start and end dates made readable.
pub fn select_current_exhibitions(
    exhibitions: &Vec<Vec<String>>,
    tills: &Vec<Date>,
    today: Date,
) -> (res: Vec<Vec<String>>)
    requires
        tills@.len() == exhibitions@.len(),
        forall|i: int|
            0 <= i < exhibitions@.len() ==> displayable(
                #[trigger] exhibitions.deep_view()[i],
                tills@[i],
                today,
            ),
    ensures
        res.deep_view() == current_rows(exhibitions.deep_view(), tills@, today),
{
    let ghost rows = exhibitions.deep_view();
    let mut out: Vec<Vec<String>> = Vec::new();
    let mut i: usize = 0;
    proof {
        assert(rows.take(0) =~= Seq::<Seq<Seq<char>>>::empty());
    }
    while i < exhibitions.len()
        invariant
            rows == exhibitions.deep_view(),
            tills@.len() == rows.len(),
            i <= rows.len(),
            forall|j: int| 0 <= j < rows.len() ==> displayable(#[trigger] rows[j], tills@[j], today),
            out.deep_view() == current_rows(rows.take(i as int), tills@.take(i as int), today),
        decreases rows.len() - i,
    {
        let ghost r = rows[i as int];
        let ghost before = out.deep_view();
        proof {
            assert(rows.take(i + 1).drop_last() =~= rows.take(i as int));
            assert(tills@.take(i + 1).drop_last() =~= tills@.take(i as int));
            assert(rows.take(i + 1).last() == r);
            assert(tills@.take(i + 1).last() == tills@[i as int]);
            assert(displayable(r, tills@[i as int], today));
        }
        if today.is_on_or_before(&tills[i]) {
            let row = &exhibitions[i];
            proof {
                assert(row.deep_view() == r);
            }
            let from = format_date(&row[1]);
            let till = format_date(&row[2]);
            let mut copy = row.clone();
            proof {
                assert(copy@ =~= row@);
            }
            copy.set(1, from);
            copy.set(2, till);
            proof {
                assert(copy.deep_view() =~= with_readable_dates(r));
            }
            out.push(copy);
            proof {
                assert(out.deep_view() =~= before.push(with_readable_dates(r)));
            }
        }
        i = i + 1;
    }
    proof {
        assert(rows.take(i as int) =~= rows);
        assert(tills@.take(i as int) =~= tills@);
    }
    out
}

/// The end dates of the records, as `chrono` reads them.
pub open spec fn till_dates(rows: Seq<Seq<Seq<char>>>) -> Seq<Date> {
    Seq::new(rows.len(), |i: int| compact_date(rows[i][2])->0)
}

/// Every record has an end date that `chrono` reads, and the current ones
/// have dates that can be formatted.
pub open spec fn sidebar_ready(rows: Seq<Seq<Seq<char>>>, today: Date) -> bool {
    forall|i: int|
        0 <= i < rows.len() ==> (#[trigger] rows[i]).len() >= 3 && compact_date(rows[i][2]) is Some
            && displayable(rows[i], compact_date(rows[i][2])->0, today)
}

/// The exhibitions still running on `today`, with readable dates, as the
/// sidebar shows them; `None` where a record lacks an end date `chrono`
/// reads, or a current record has a date that cannot be formatted.
pub fn current_exhibitions(exhibitions: &Vec<Vec<String>>, today: Date) -> (res: Option<
    Vec<Vec<String>>,
>)
    ensures
        res is Some <==> sidebar_ready(exhibitions.deep_view(), today),
        res matches Some(v) ==> v.deep_view() == current_rows(
            exhibitions.deep_view(),
            till_dates(exhibitions.deep_view()),
            today,
        ),
{
    let ghost rows = exhibitions.deep_view();
    let mut tills: Vec<Date> = Vec::new();
    let mut i: usize = 0;
    while i < exhibitions.len()
        invariant
            rows == exhibitions.deep_view(),
            i <= rows.len(),
            tills@.len() == i,
            forall|j: int|
                0 <= j < i ==> (#[trigger] rows[j]).len() >= 3 && compact_date(rows[j][2]) is Some
                    && tills@[j] == compact_date(rows[j][2])->0 && displayable(
                    rows[j],
                    tills@[j],
                    today,
                ),
        decreases rows.len() - i,
    {
        let row = &exhibitions[i];
        proof {
            assert(row.deep_view() == rows[i as int]);
        }
        if row.len() < 3 {
            return None;
        }
        let parsed = parse_compact_date(row[2].as_str());
        let till = match parsed {
            Some(d) => d,
            None => {
                return None;
            },
        };
        if today.is_on_or_before(&till) {
            let from_ok = row[1].as_str().is_char_boundary(4) && row[1].as_str().is_char_boundary(6);
            let till_ok = row[2].as_str().is_char_boundary(4) && row[2].as_str().is_char_boundary(6);
            if !(from_ok && till_ok) {
                return None;
            }
        }
        tills.push(till);
        i = i + 1;
    }
    proof {
        assert(tills@ =~= till_dates(rows));
        assert forall|j: int| 0 <= j < rows.len() implies displayable(
            #[trigger] exhibitions.deep_view()[j],
            tills@[j],
            today,
        ) by {
            assert(rows[j].len() >= 3);
        }
    }
    Some(select_current_exhibitions(exhibitions, &tills, today))
}

/// The exhibitions still running today (UTC), as `current_exhibitions` selects
/// them for the date the clock gives, a date whose month and day are in range.
pub fn current_exhibitions_now(exhibitions: &Vec<Vec<String>>) -> (res: Option<Vec<Vec<String>>>)
    ensures
        exists|today: Date|
            in_calendar_range(today) && (res is Some <==> sidebar_ready(exhibitions.deep_view(), today)) && (res matches Some(v)
                ==> v.deep_view() == current_rows(
                exhibitions.deep_view(),
                till_dates(exhibitions.deep_view()),
                today,
            )),
{
    let today = today_utc();
    current_exhibitions(exhibitions, today)
}

} // verus!
