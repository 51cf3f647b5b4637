use crate::aggregate::{Agg, Data, single, union};
use crate::decode::{
    DELIMITER, NEWLINE, is_value, is_value_text, last_of, lemma_last_of_bounds, parse_scaled,
    scaled_value, split_line, split_spec,
};
use crate::table::{Table, table_contents};
use vstd::prelude::*;
use vstd::slice::{slice_subrange, slice_to_vec};

verus! {

/// Why a batch could not be aggregated.
#[derive(Clone, Copy, Debug, PartialEq, Eq, Structural)]
pub enum BatchError {
    /// A line holds no delimiter.
    MissingDelimiter,
    /// The text after the last delimiter of a line is no value.
    MalformedValue,
}

/// Capacity reserved for the table of one batch.
pub const LOCAL_CAPACITY: usize = 10_000;

#[via_fn]
proof fn lines_decreases(s: Seq<u8>) {
    lemma_last_of_bounds(s, NEWLINE);
}

/// The lines of `s`: the pieces between newline bytes.
pub open spec fn lines(s: Seq<u8>) -> Seq<Seq<u8>>
    decreases s.len(),
    via lines_decreases
{
    let i = last_of(s, NEWLINE);
    if i < 0 {
        seq![s]
    } else {
        lines(s.subrange(0, i)).push(s.subrange(i + 1, s.len() as int))
    }
}

/// A batch without its final newline, if it ends with one.
pub open spec fn trim_newline(b: Seq<u8>) -> Seq<u8> {
    if b.len() > 0 && b.last() == NEWLINE {
        b.drop_last()
    } else {
        b
    }
}

/// The key and scaled value of one line.
pub open spec fn record_of(l: Seq<u8>) -> Result<(Seq<u8>, int), BatchError> {
    match split_spec(l) {
        None => Err(BatchError::MissingDelimiter),
        Some(kv) => if is_value_text(kv.1) {
            Ok((kv.0, scaled_value(kv.1)))
        } else {
            Err(BatchError::MalformedValue)
        },
    }
}

/// A table with one more observation of `v` under `k`.
pub open spec fn add_value(m: Map<Seq<u8>, Agg>, k: Seq<u8>, v: int) -> Map<Seq<u8>, Agg> {
    if m.contains_key(k) {
        m.insert(k, union(m[k], single(v)))
    } else {
        m.insert(k, single(v))
    }
}

/// The table of a sequence of lines, or the error of its first bad line.
pub open spec fn fold_lines(ls: Seq<Seq<u8>>) -> Result<Map<Seq<u8>, Agg>, BatchError>
    decreases ls.len(),
{
    if ls.len() == 0 {
        Ok(Map::empty())
    } else {
        match fold_lines(ls.drop_last()) {
            Err(e) => Err(e),
            Ok(m) => match record_of(ls.last()) {
                Err(e) => Err(e),
                Ok(kv) => Ok(add_value(m, kv.0, kv.1)),
            },
        }
    }
}

/// The table of a batch: every line of it, the final newline dropped.
pub open spec fn batch_table(b: Seq<u8>) -> Result<Map<Seq<u8>, Agg>, BatchError> {
    fold_lines(lines(trim_newline(b)))
}

/// Last occurrence in a concatenation.
pub proof fn lemma_last_of_concat(a: Seq<u8>, b: Seq<u8>, c: u8)
    ensures
        last_of(a + b, c) == if last_of(b, c) >= 0 {
            a.len() + last_of(b, c)
        } else {
            last_of(a, c)
        },
    decreases b.len(),
{
    if b.len() == 0 {
        assert(a + b =~= a);
    } else {
        assert((a + b).drop_last() =~= a + b.drop_last());
        lemma_last_of_concat(a, b.drop_last(), c);
    }
}

proof fn lemma_last_of_none(s: Seq<u8>, c: u8)
    requires
        forall|j: int| 0 <= j < s.len() ==> s[j] != c,
    ensures
        last_of(s, c) == -1,
    decreases s.len(),
{
    if s.len() > 0 {
        lemma_last_of_none(s.drop_last(), c);
    }
}

/// Lines of two pieces joined by a newline are the lines of each piece.
pub proof fn lemma_lines_concat(x: Seq<u8>, y: Seq<u8>)
    ensures
        lines(x + seq![NEWLINE] + y) == lines(x) + lines(y),
    decreases y.len(),
{
    let s = x + seq![NEWLINE] + y;
    let xn = x + seq![NEWLINE];
    assert(s =~= xn + y);
    lemma_last_of_concat(xn, y, NEWLINE);
    lemma_last_of_bounds(y, NEWLINE);
    let ly = last_of(y, NEWLINE);
    if ly >= 0 {
        let y0 = y.subrange(0, ly);
        lemma_lines_concat(x, y0);
        assert(s.subrange(0, xn.len() + ly) =~= x + seq![NEWLINE] + y0);
        assert(s.subrange(xn.len() + ly + 1, s.len() as int) =~= y.subrange(ly + 1, y.len() as int));
        assert(lines(x) + lines(y) =~= (lines(x) + lines(y0)).push(y.subrange(ly + 1, y.len() as int)));
    } else {
        assert(last_of(xn, NEWLINE) == x.len());
        assert(s.subrange(0, x.len() as int) =~= x);
        assert(s.subrange(x.len() as int + 1, s.len() as int) =~= y);
        assert(lines(x) + lines(y) =~= lines(x).push(y));
    }
}

/// The lines that end before position `start` of `t`.
pub open spec fn prior_lines(t: Seq<u8>, start: int) -> Seq<Seq<u8>> {
    if start == 0 {
        seq![]
    } else {
        lines(t.subrange(0, start - 1))
    }
}

proof fn lemma_lines_step(t: Seq<u8>, start: int, k: int)
    requires
        0 <= start <= k <= t.len(),
        start == 0 || t[start - 1] == NEWLINE,
        forall|j: int| start <= j < k ==> t[j] != NEWLINE,
    ensures
        lines(t.subrange(0, k)) == prior_lines(t, start).push(t.subrange(start, k)),
{
    let s = t.subrange(0, k);
    if start == 0 {
        lemma_last_of_none(s, NEWLINE);
        assert(s =~= t.subrange(start, k));
        assert(seq![s] =~= Seq::<Seq<u8>>::empty().push(s));
    } else {
        let a = t.subrange(0, start);
        let b = t.subrange(start, k);
        assert(s =~= a + b);
        lemma_last_of_none(b, NEWLINE);
        lemma_last_of_concat(a, b, NEWLINE);
        assert(a.drop_last() =~= t.subrange(0, start - 1));
        assert(last_of(a, NEWLINE) == start - 1);
        assert(s.subrange(0, start - 1) =~= t.subrange(0, start - 1));
        assert(s.subrange(start, k) =~= b);
    }
}

/// An error in a prefix of the lines is the error of all of them.
pub proof fn lemma_fold_err_prefix(a: Seq<Seq<u8>>, b: Seq<Seq<u8>>)
    requires
        fold_lines(a) is Err,
    ensures
        fold_lines(a + b) == fold_lines(a),
    decreases b.len(),
{
    if b.len() == 0 {
        assert(a + b =~= a);
    } else {
        assert((a + b).drop_last() =~= a + b.drop_last());
        lemma_fold_err_prefix(a, b.drop_last());
    }
}

/// Some line of `ls` records value `v` under key `k`.
pub open spec fn has_value(ls: Seq<Seq<u8>>, k: Seq<u8>, v: int) -> bool {
    exists|i: int|
        0 <= i < ls.len() && #[trigger] record_of(ls[i]) == Ok::<(Seq<u8>, int), BatchError>((k, v))
}

/// The table of a run of lines holds exactly the keys that its lines
/// record, and the minimum and maximum of a key are the least and the
/// greatest value recorded for it.
pub proof fn lemma_min_max_fidelity(ls: Seq<Seq<u8>>, k: Seq<u8>)
    requires
        fold_lines(ls) is Ok,
    ensures
        fold_lines(ls)->Ok_0.contains_key(k) <==> exists|v: int| has_value(ls, k, v),
        fold_lines(ls)->Ok_0.contains_key(k) ==> {
            let a = fold_lines(ls)->Ok_0[k];
            &&& has_value(ls, k, a.min)
            &&& has_value(ls, k, a.max)
            &&& forall|v: int| has_value(ls, k, v) ==> a.min <= v <= a.max
        },
    decreases ls.len(),
{
    if ls.len() > 0 {
        let p = ls.drop_last();
        let l = ls.last();
        lemma_min_max_fidelity(p, k);
        let mp = fold_lines(p)->Ok_0;
        let kv = record_of(l)->Ok_0;
        let m = fold_lines(ls)->Ok_0;
        assert(m == add_value(mp, kv.0, kv.1));
        assert(record_of(ls[ls.len() - 1]) == Ok::<(Seq<u8>, int), BatchError>(kv));
        assert forall|v: int| has_value(p, k, v) implies has_value(ls, k, v) by {
            let i = choose|i: int|
                0 <= i < p.len() && #[trigger] record_of(p[i]) == Ok::<(Seq<u8>, int), BatchError>((k, v));
            assert(ls[i] == p[i]);
        }
        assert forall|v: int| has_value(ls, k, v) implies has_value(p, k, v) || (kv.0 == k && kv.1 == v) by {
            let i = choose|i: int|
                0 <= i < ls.len() && #[trigger] record_of(ls[i]) == Ok::<(Seq<u8>, int), BatchError>((k, v));
            if i < ls.len() - 1 {
                assert(ls[i] == p[i]);
            }
        }
        if kv.0 == k {
            assert(has_value(ls, k, kv.1));
        }
    }
}

/// Aggregates one batch: splits it into lines, the final newline dropped,
/// and folds the key and decoded value of each line into a fresh table.
pub fn process_batch(batch: &[u8]) -> (r: Result<Table, BatchError>)
    ensures
        match r {
            Ok(t) => batch_table(batch@) == Ok::<Map<Seq<u8>, Agg>, BatchError>(t@) && t.wf(),
            Err(e) => batch_table(batch@) == Err::<Map<Seq<u8>, Agg>, BatchError>(e),
        },
{
    let len = batch.len();
    let n: usize = if len > 0 && batch[len - 1] == NEWLINE {
        len - 1
    } else {
        len
    };
    let ghost t = batch@.subrange(0, n as int);
    assert(t =~= trim_newline(batch@));
    let mut table = Table::with_capacity(LOCAL_CAPACITY);
    assert(table@ =~= Map::<Seq<u8>, Agg>::empty());
    let mut start: usize = 0;
    loop
        invariant
            start <= n <= batch@.len(),
            t == batch@.subrange(0, n as int),
            t == trim_newline(batch@),
            start == 0 || t[start - 1] == NEWLINE,
            fold_lines(prior_lines(t, start as int)) == Ok::<Map<Seq<u8>, Agg>, BatchError>(table@),
            table.wf(),
            forall|k: Seq<u8>| #[trigger]
                table_contents(table).contains_key(k) ==> table_contents(table)[k]@.count <= start,
        decreases n - start,
    {
        let mut end: usize = start;
        while end < n && batch[end] != NEWLINE
            invariant
                start <= end <= n <= batch@.len(),
                t == batch@.subrange(0, n as int),
                forall|j: int| start <= j < end ==> t[j] != NEWLINE,
            decreases n - end,
        {
            end = end + 1;
        }
        let line = slice_subrange(batch, start, end);
        let ghost ls = prior_lines(t, start as int).push(t.subrange(start as int, end as int));
        assert(line@ =~= t.subrange(start as int, end as int));
        proof {
            lemma_lines_step(t, start as int, end as int);
            assert(ls.drop_last() =~= prior_lines(t, start as int));
            if end < n {
                lemma_lines_concat(t.subrange(0, end as int), t.subrange(end + 1, n as int));
                assert(t =~= t.subrange(0, end as int) + seq![NEWLINE] + t.subrange(end + 1, n as int));
            } else {
                assert(t.subrange(0, end as int) =~= t);
            }
        }
        let ghost rest = if end < n {
            lines(t.subrange(end + 1, n as int))
        } else {
            Seq::<Seq<u8>>::empty()
        };
        assert(lines(t) =~= ls + rest);
        match split_line(line) {
            None => {
                proof {
                    lemma_fold_err_prefix(ls, rest);
                }
                return Err(BatchError::MissingDelimiter);
            },
            Some((key, text)) => {
                if !is_value(text) {
                    proof {
                        lemma_fold_err_prefix(ls, rest);
                    }
                    return Err(BatchError::MalformedValue);
                }
                let value = parse_scaled(text);
                proof {
                    lemma_last_of_bounds(line@, DELIMITER);
                }
                let ghost old_table = table;
                match table.get(key) {
                    Some(d) => {
                        let mut d = d;
                        d.update(value);
                        table.insert(slice_to_vec(key), d);
                    },
                    None => {
                        table.insert(slice_to_vec(key), Data::new(value));
                    },
                }
                assert(table@ =~= add_value(old_table@, key@, value as int));
                assert(fold_lines(ls) == Ok::<Map<Seq<u8>, Agg>, BatchError>(table@));
                if end == n {
                    assert(ls + rest =~= ls);
                    return Ok(table);
                }
                start = end + 1;
                assert(prior_lines(t, start as int) == ls) by {
                    assert(t.subrange(0, end as int) == t.subrange(0, start - 1));
                }
            },
        }
    }
}

} // verus!
