//! Database records as the site reads them: rows of named text columns,
//! the text of its queries, and the allocation of fresh record ids.

use vstd::prelude::*;
use crate::numbers::{decimal, law_integer_text_reads_back, parse_i32, parse_i32_spec};
use crate::text::text_eq;

verus! {

/// One result row: its columns as (name, text value) pairs, in query order.
pub struct Row {
    pub columns: Vec<(String, String)>,
}

impl View for Row {
    type V = Seq<(Seq<char>, Seq<char>)>;

    open spec fn view(&self) -> Self::V {
        self.columns@.map_values(|c: (String, String)| (c.0@, c.1@))
    }
}

/// Whether the row has a column of that name.
pub open spec fn has_column(row: Seq<(Seq<char>, Seq<char>)>, key: Seq<char>) -> bool {
    exists|i: int| 0 <= i < row.len() && (#[trigger] row[i]).0 == key
}

/// The value of the first column of that name.
pub open spec fn column_value(row: Seq<(Seq<char>, Seq<char>)>, key: Seq<char>) -> Seq<char>
    decreases row.len(),
{
    if row.len() == 0 {
        Seq::empty()
    } else if row[0].0 == key {
        row[0].1
    } else {
        column_value(row.drop_first(), key)
    }
}

impl Row {
    /// The value of the column named `key`, as `row.get(key)` reads it.
    pub fn get(&self, key: &str) -> (res: &String)
        requires
            has_column(self@, key@),
        ensures
            res@ == column_value(self@, key@),
    {
        let mut i: usize = 0;
        proof {
            assert(self@.skip(0) =~= self@);
        }
        while i < self.columns.len()
            invariant
                i <= self.columns@.len(),
                has_column(self@.skip(i as int), key@),
                column_value(self@, key@) == column_value(self@.skip(i as int), key@),
            decreases self.columns@.len() - i,
        {
            let ghost rest = self@.skip(i as int);
            proof {
                let w = choose|j: int| 0 <= j < rest.len() && (#[trigger] rest[j]).0 == key@;
                assert(rest[w] == self@[i + w]);
                assert(rest[0] == self@[i as int]);
            }
            if text_eq(self.columns[i].0.as_str(), key) {
                return &self.columns[i].1;
            }
            proof {
                assert(rest.drop_first() =~= self@.skip(i + 1));
                let w = choose|j: int| 0 <= j < rest.len() && (#[trigger] rest[j]).0 == key@;
                assert(w != 0);
                assert(rest.drop_first()[w - 1] == rest[w]);
            }
            i = i + 1;
        }
        proof {
            // The column is among those not yet scanned, and none are left.
            let rest = self@.skip(i as int);
            let w = choose|j: int| 0 <= j < rest.len() && (#[trigger] rest[j]).0 == key@;
            assert(rest.len() == 0);
            assert(false);
        }
        &self.columns[0].1
    }
}

/// The values of the named columns of one row, in the order of `keys`.
pub open spec fn row_values(row: Seq<(Seq<char>, Seq<char>)>, keys: Seq<Seq<char>>) -> Seq<Seq<char>> {
    keys.map_values(|k: Seq<char>| column_value(row, k))
}

/// Picks the named columns out of one row, as `row.get(key)` for each key.
pub fn extract_row(raw_data: Row, keys: Vec<&str>) -> (res: Vec<String>)
    requires
        forall|k: int| 0 <= k < keys.len() ==> has_column(raw_data@, (#[trigger] keys@[k])@),
    ensures
        res.deep_view() == row_values(raw_data@, keys@.map_values(|k: &str| k@)),
{
    let mut out: Vec<String> = Vec::new();
    let mut k: usize = 0;
    while k < keys.len()
        invariant
            k <= keys@.len(),
            forall|j: int| 0 <= j < keys.len() ==> has_column(raw_data@, (#[trigger] keys@[j])@),
            out@.len() == k,
            forall|j: int| 0 <= j < k ==> (#[trigger] out@[j])@ == column_value(raw_data@, keys@[j]@),
        decreases keys@.len() - k,
    {
        let v = raw_data.get(keys[k]).clone();
        out.push(v);
        k = k + 1;
    }
    proof {
        assert(out.deep_view() =~= row_values(raw_data@, keys@.map_values(|k: &str| k@)));
    }
    out
}

/// Picks the named columns out of every row, as `extract_row` does for each.
pub fn extract_rows(raw_data: Vec<Row>, keys: Vec<&str>) -> (res: Vec<Vec<String>>)
    requires
        forall|i: int, k: int|
            0 <= i < raw_data.len() && 0 <= k < keys.len() ==> has_column(
                (#[trigger] raw_data@[i])@,
                (#[trigger] keys@[k])@,
            ),
    ensures
        res.len() == raw_data.len(),
        forall|i: int|
            0 <= i < raw_data.len() ==> (#[trigger] res@[i]).deep_view() == row_values(
                raw_data@[i]@,
                keys@.map_values(|k: &str| k@),
            ),
{
    let mut out: Vec<Vec<String>> = Vec::new();
    let mut rows = raw_data;
    let ghost all = rows@;
    let mut i: usize = 0;
    while i < rows.len()
        invariant
            rows@ == all,
            i <= all.len(),
            out.len() == i,
            forall|a: int, k: int|
                0 <= a < all.len() && 0 <= k < keys.len() ==> has_column(
                    (#[trigger] all[a])@,
                    (#[trigger] keys@[k])@,
                ),
            forall|a: int|
                0 <= a < i ==> (#[trigger] out@[a]).deep_view() == row_values(
                    all[a]@,
                    keys@.map_values(|k: &str| k@),
                ),
        decreases all.len() - i,
    {
        let mut vals: Vec<String> = Vec::new();
        let mut k: usize = 0;
        while k < keys.len()
            invariant
                rows@ == all,
                i < all.len(),
                k <= keys@.len(),
                forall|a: int, j: int|
                    0 <= a < all.len() && 0 <= j < keys.len() ==> has_column(
                        (#[trigger] all[a])@,
                        (#[trigger] keys@[j])@,
                    ),
                vals@.len() == k,
                forall|j: int|
                    0 <= j < k ==> (#[trigger] vals@[j])@ == column_value(all[i as int]@, keys@[j]@),
            decreases keys@.len() - k,
        {
            let v = rows[i].get(keys[k]).clone();
            vals.push(v);
            k = k + 1;
        }
        proof {
            assert(vals.deep_view() =~= row_values(all[i as int]@, keys@.map_values(|k: &str| k@)));
        }
        out.push(vals);
        i = i + 1;
    }
    out
}

/// The largest stored id that reads as an `i32`, if any does.
pub open spec fn max_id(ids: Seq<Seq<char>>) -> Option<int>
    decreases ids.len(),
{
    if ids.len() == 0 {
        None
    } else {
        let rest = max_id(ids.drop_last());
        match parse_i32_spec(ids.last()) {
            None => rest,
            Some(v) => match rest {
                None => Some(v),
                Some(m) => Some(if v > m { v } else { m }),
            },
        }
    }
}

proof fn lemma_max_id(ids: Seq<Seq<char>>)
    ensures
        forall|i: int|
            0 <= i < ids.len() && (#[trigger] parse_i32_spec(ids[i])) is Some ==> max_id(ids) is Some
                && parse_i32_spec(ids[i])->0 <= max_id(ids)->0,
        max_id(ids) is Some ==> exists|i: int|
            0 <= i < ids.len() && #[trigger] parse_i32_spec(ids[i]) == max_id(ids),
        max_id(ids) is None ==> forall|i: int|
            0 <= i < ids.len() ==> (#[trigger] parse_i32_spec(ids[i])) is None,
    decreases ids.len(),
{
    if ids.len() > 0 {
        let init = ids.drop_last();
        lemma_max_id(init);
        assert forall|i: int| 0 <= i < init.len() implies init[i] == ids[i] by {}
        if max_id(init) is Some {
            let w = choose|i: int| 0 <= i < init.len() && #[trigger] parse_i32_spec(init[i]) == max_id(init);
            assert(parse_i32_spec(ids[w]) == max_id(init));
        }
        assert(ids.last() == ids[ids.len() - 1]);
    }
}

/// The id for a new record, from the ids already stored: one more than the
/// largest id that reads as an `i32`, or 0 when none does.
pub fn next_id(ids: &Vec<String>) -> (res: i32)
    requires
        forall|i: int| 0 <= i < ids.len() ==> parse_i32_spec((#[trigger] ids@[i])@) != Some(
            i32::MAX as int,
        ),
    ensures
        forall|i: int|
            0 <= i < ids.len() && (#[trigger] parse_i32_spec(ids@[i]@)) is Some ==> parse_i32_spec(
                ids@[i]@,
            )->0 < res,
        (exists|i: int| 0 <= i < ids.len() && #[trigger] parse_i32_spec(ids@[i]@) == Some(res - 1))
            || (res == 0 && forall|i: int|
            0 <= i < ids.len() ==> (#[trigger] parse_i32_spec(ids@[i]@)) is None),
        res == next_id_spec(ids.deep_view()),
{
    let ghost dv = ids.deep_view();
    let mut best: Option<i32> = None;
    let mut i: usize = 0;
    while i < ids.len()
        invariant
            i <= ids@.len(),
            dv == ids.deep_view(),
            forall|j: int| 0 <= j < ids.len() ==> parse_i32_spec((#[trigger] ids@[j])@) != Some(
                i32::MAX as int,
            ),
            best matches Some(b) ==> max_id(dv.take(i as int)) == Some(b as int),
            best is None ==> max_id(dv.take(i as int)) is None,
        decreases ids@.len() - i,
    {
        let parsed = parse_i32(ids[i].as_str());
        proof {
            assert(dv.take(i + 1).drop_last() =~= dv.take(i as int));
            assert(dv.take(i + 1).last() == ids@[i as int]@);
        }
        match parsed {
            Some(v) => {
                match best {
                    None => { best = Some(v); },
                    Some(b) => {
                        if v > b {
                            best = Some(v);
                        }
                    },
                }
            },
            None => {},
        }
        i = i + 1;
    }
    proof {
        assert(dv.take(i as int) =~= dv);
        lemma_max_id(dv);
        assert forall|j: int| 0 <= j < ids.len() implies dv[j] == ids@[j]@ by {}
    }
    match best {
        Some(b) => {
            proof {
                let w = choose|j: int| 0 <= j < dv.len() && #[trigger] parse_i32_spec(dv[j]) == max_id(dv);
                assert(parse_i32_spec(ids@[w]@) == Some(b as int));
                assert forall|j: int|
                    0 <= j < ids.len() && (#[trigger] parse_i32_spec(ids@[j]@)) is Some implies parse_i32_spec(
                    ids@[j]@,
                )->0 < b + 1 by {
                    assert(dv[j] == ids@[j]@);
                }
            }
            b + 1
        },
        None => {
            proof {
                assert forall|j: int|
                    0 <= j < ids.len() implies (#[trigger] parse_i32_spec(ids@[j]@)) is None by {
                    assert(dv[j] == ids@[j]@);
                }
            }
            0
        },
    }
}

/// The id the next record gets: one more than the largest stored id.
pub open spec fn next_id_spec(ids: Seq<Seq<char>>) -> int {
    match max_id(ids) {
        Some(m) => m + 1,
        None => 0,
    }
}

/// Once a record is stored under the id given out (written as decimal
/// text), the next record gets the following id: ids are handed out in
/// increasing order and never twice.
pub proof fn law_ids_increase(ids: Seq<Seq<char>>)
    requires
        next_id_spec(ids) <= i32::MAX,
    ensures
        next_id_spec(ids.push(decimal(next_id_spec(ids)))) == next_id_spec(ids) + 1,
{
    let n = next_id_spec(ids);
    let more = ids.push(decimal(n));
    assert(more.drop_last() =~= ids);
    assert(more.last() == decimal(n));
    match max_id(ids) {
        Some(m) => {
            lemma_max_id(ids);
            let w = choose|i: int| 0 <= i < ids.len() && #[trigger] parse_i32_spec(ids[i]) == max_id(ids);
            assert(i32::MIN <= m);
        },
        None => {},
    }
    law_integer_text_reads_back(n as i32);
}

/// The query that lists the ids of a table.
pub fn ids_query(table: &str) -> (res: String)
    ensures
        res@ == "SELECT id FROM "@ + table@,
{
    let mut q = "SELECT id FROM ".to_owned();
    q.append(table);
    q
}

/// The query that deletes the record with a given id from a table.
pub fn delete_query(table: &str) -> (res: String)
    ensures
        res@ == "DELETE FROM "@ + table@ + " WHERE id = ?"@,
{
    let mut q = "DELETE FROM ".to_owned();
    q.append(table);
    q.append(" WHERE id = ?");
    q
}

} // verus!
