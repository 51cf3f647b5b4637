use crate::aggregate::{Agg, Data, lemma_union_associative_commutative, single, union};
use crate::batch::{
    BatchError, add_value, batch_table, fold_lines, lemma_fold_err_prefix, lemma_lines_concat, lines,
    record_of, trim_newline,
};
use crate::decode::NEWLINE;
use crate::table::{Table, table_contents};
use vstd::prelude::*;
use vstd::slice::slice_to_vec;

verus! {

/// Why tables could not be merged.
#[derive(Clone, Copy, Debug, PartialEq, Eq, Structural)]
pub enum MergeError {
    /// The number of observations of a key does not fit a `u64`.
    CountOverflow,
}

/// Capacity reserved for the merged table: the expected number of keys.
pub const MAX_UNIQUE_KEYS: usize = 10_000;

/// Two tables taken together: the union of the statistics of a key found
/// in both, the statistic of a key found in one.
pub open spec fn merge(m1: Map<Seq<u8>, Agg>, m2: Map<Seq<u8>, Agg>) -> Map<Seq<u8>, Agg> {
    Map::new(
        |k: Seq<u8>| m1.contains_key(k) || m2.contains_key(k),
        |k: Seq<u8>|
            if m1.contains_key(k) && m2.contains_key(k) {
                union(m1[k], m2[k])
            } else if m1.contains_key(k) {
                m1[k]
            } else {
                m2[k]
            },
    )
}

/// Some key of both tables has more observations in all than a `u64` holds.
pub open spec fn merge_overflows(m1: Map<Seq<u8>, Agg>, m2: Map<Seq<u8>, Agg>) -> bool {
    exists|k: Seq<u8>| #[trigger]
        m1.contains_key(k) && m2.contains_key(k) && m1[k].count + m2[k].count > u64::MAX
}

/// The merge of a sequence of tables, the first one folded in last.
pub open spec fn merge_all_spec(s: Seq<Map<Seq<u8>, Agg>>) -> Map<Seq<u8>, Agg>
    decreases s.len(),
{
    if s.len() == 0 {
        Map::empty()
    } else {
        merge(merge_all_spec(s.drop_first()), s[0])
    }
}

/// Folding the tables in the order of `merge_all_spec` overflows a count
/// at some step.
pub open spec fn merge_all_overflows(s: Seq<Map<Seq<u8>, Agg>>) -> bool {
    exists|k: int|
        0 <= k < s.len() && #[trigger] merge_overflows(merge_all_spec(s.subrange(k + 1, s.len() as int)), s[k])
}

/// The table of a sequence of entries, later entries winning.
pub open spec fn entries_map(es: Seq<(Vec<u8>, Data)>) -> Map<Seq<u8>, Agg>
    decreases es.len(),
{
    if es.len() == 0 {
        Map::empty()
    } else {
        entries_map(es.drop_last()).insert(es.last().0@, es.last().1@)
    }
}

proof fn lemma_entries_map(es: Seq<(Vec<u8>, Data)>)
    requires
        forall|i: int, j: int| 0 <= i < j < es.len() ==> (#[trigger] es[i]).0@ != (#[trigger] es[j]).0@,
    ensures
        forall|k: Seq<u8>|
            #[trigger] entries_map(es).contains_key(k) <==> exists|i: int| 0 <= i < es.len() && (#[trigger] es[i]).0@ == k,
        forall|i: int| 0 <= i < es.len() ==> entries_map(es)[(#[trigger] es[i]).0@] == es[i].1@,
    decreases es.len(),
{
    if es.len() > 0 {
        let p = es.drop_last();
        assert forall|i: int, j: int| 0 <= i < j < p.len() implies (#[trigger] p[i]).0@ != (#[trigger] p[j]).0@ by {
            assert(p[i] == es[i] && p[j] == es[j]);
        }
        lemma_entries_map(p);
        assert forall|k: Seq<u8>|
            #[trigger] entries_map(es).contains_key(k) implies exists|i: int| 0 <= i < es.len() && (#[trigger] es[i]).0@ == k by {
            if k != es.last().0@ {
                assert(entries_map(p).contains_key(k));
                let i = choose|i: int| 0 <= i < p.len() && (#[trigger] p[i]).0@ == k;
                assert(es[i] == p[i]);
            } else {
                assert(es[es.len() - 1].0@ == k);
            }
        }
        assert forall|k: Seq<u8>|
            (exists|i: int| 0 <= i < es.len() && (#[trigger] es[i]).0@ == k) implies #[trigger] entries_map(es).contains_key(k) by {
            let i = choose|i: int| 0 <= i < es.len() && (#[trigger] es[i]).0@ == k;
            if i < es.len() - 1 {
                assert(p[i] == es[i]);
            }
        }
        assert forall|i: int| 0 <= i < es.len() implies entries_map(es)[(#[trigger] es[i]).0@] == es[i].1@ by {
            if i < es.len() - 1 {
                assert(p[i] == es[i]);
            }
        }
    }
}

/// Folds a local table into the master table, key by key.
pub fn merge_into(master: &mut Table, local: Table) -> (r: Result<(), MergeError>)
    requires
        old(master).wf(),
        local.wf(),
    ensures
        r is Ok <==> !merge_overflows(old(master)@, local@),
        r is Ok ==> final(master)@ == merge(old(master)@, local@) && final(master).wf(),
{
    let ghost m0 = (*master)@;
    let ghost lv = local@;
    let ghost lc = table_contents(local);
    let entries = local.into_entries();
    let ghost es = entries@;
    proof {
        lemma_entries_map(es);
    }
    let mut i: usize = 0;
    assert(master@ =~= merge(m0, entries_map(es.subrange(0, 0))));
    while i < entries.len()
        invariant
            i <= entries@.len(),
            es == entries@,
            m0 == old(master)@,
            lv == local@,
            master.wf(),
            master@ == merge(m0, entries_map(es.subrange(0, i as int))),
            forall|i: int, j: int| 0 <= i < j < es.len() ==> (#[trigger] es[i]).0@ != (#[trigger] es[j]).0@,
            forall|j: int| 0 <= j < es.len() ==> lc.contains_key((#[trigger] es[j]).0@) && lc[es[j].0@] == es[j].1,
            forall|k: Seq<u8>| #[trigger] lc.contains_key(k) ==> lv.contains_key(k) && lv[k] == lc[k]@,
            forall|k: Seq<u8>| #[trigger] lc.contains_key(k) ==> lc[k].wf(),
            forall|j: int| 0 <= j < i && #[trigger] m0.contains_key(es[j].0@) ==> m0[es[j].0@].count + es[j].1@.count <= u64::MAX,
        decreases entries@.len() - i,
    {
        let ghost pre = es.subrange(0, i as int);
        let ghost post = es.subrange(0, i + 1);
        assert(post.drop_last() =~= pre);
        proof {
            lemma_entries_map(pre);
            assert forall|i2: int, j2: int| 0 <= i2 < j2 < pre.len() implies (#[trigger] pre[i2]).0@ != (#[trigger] pre[j2]).0@ by {
                assert(pre[i2] == es[i2] && pre[j2] == es[j2]);
            }
            lemma_entries_map(pre);
        }
        let key = &entries[i].0;
        let d = entries[i].1;
        let ghost k = key@;
        assert(!entries_map(pre).contains_key(k)) by {
            if entries_map(pre).contains_key(k) {
                let j = choose|j: int| 0 <= j < pre.len() && (#[trigger] pre[j]).0@ == k;
                assert(pre[j] == es[j]);
            }
        }
        let ghost before = *master;
        match master.get(key.as_slice()) {
            Some(m) => {
                assert(lc.contains_key(es[i as int].0@));
                assert(master@.contains_key(k));
                assert(m0.contains_key(k));
                assert(table_contents(before)[k] == m);
                assert(before@[k] == m@);
                assert(merge(m0, entries_map(pre))[k] == m0[k]);
                assert(m@ == m0[k]);
                assert(lv[k] == d@);
                if !m.can_union(&d) {
                    assert(m0.contains_key(k) && lv.contains_key(k));
                    assert(m0[k].count + lv[k].count > u64::MAX);
                    assert(merge_overflows(m0, lv));
                    return Err(MergeError::CountOverflow);
                }
                let mut m = m;
                m.union(&d);
                master.insert(slice_to_vec(key.as_slice()), m);
                assert(table_contents(*master)[k] == m);
                assert(m@ == union(m0[k], d@));
            },
            None => {
                assert(!before@.contains_key(k));
                assert(!m0.contains_key(k));
                master.insert(slice_to_vec(key.as_slice()), d);
                assert(table_contents(*master)[k] == d);
            },
        }
        assert(post.last() == es[i as int]);
        assert(entries_map(post) == entries_map(pre).insert(k, d@));
        let ghost target = merge(m0, entries_map(post));
        assert forall|x: Seq<u8>| #[trigger] master@.contains_key(x) == target.contains_key(x) by {
            if x != k {
                assert(table_contents(*master).contains_key(x) == table_contents(before).contains_key(x));
                assert(before@.contains_key(x) == table_contents(before).contains_key(x));
                assert(entries_map(post).contains_key(x) == entries_map(pre).contains_key(x));
                assert(master@.contains_key(x) == table_contents(*master).contains_key(x));
            } else {
                assert(entries_map(post).contains_key(x));
                assert(table_contents(*master).contains_key(x));
            }
        }
        assert forall|x: Seq<u8>| #[trigger] master@.contains_key(x) implies master@[x] == target[x] by {
            if x != k {
                assert(table_contents(*master)[x] == table_contents(before)[x]);
                assert(before@.contains_key(x));
                assert(master@[x] == before@[x]);
                if entries_map(pre).contains_key(x) {
                    assert(entries_map(post)[x] == entries_map(pre)[x]);
                }
            } else {
                assert(entries_map(post)[k] == d@);
                assert(master@[k] == table_contents(*master)[k]@);
            }
        }
        assert(master@ =~= merge(m0, entries_map(post)));
        i = i + 1;
    }
    assert(es.subrange(0, es.len() as int) =~= es);
    assert(entries_map(es) =~= lv) by {
        assert forall|k: Seq<u8>| lv.contains_key(k) implies #[trigger] entries_map(es).contains_key(k) by {
            assert(lc.contains_key(k));
        }
    }
    assert(!merge_overflows(m0, lv)) by {
        if merge_overflows(m0, lv) {
            let k = choose|k: Seq<u8>|
                #[trigger] m0.contains_key(k) && lv.contains_key(k) && m0[k].count + lv[k].count > u64::MAX;
            assert(lc.contains_key(k));
            let j = choose|j: int| 0 <= j < es.len() && (#[trigger] es[j]).0@ == k;
        }
    }
    Ok(())
}

/// Merges every local table into one table.
pub fn merge_all(tables: Vec<Table>) -> (r: Result<Table, MergeError>)
    requires
        forall|i: int| 0 <= i < tables@.len() ==> (#[trigger] tables@[i]).wf(),
    ensures
        r is Ok ==> r.unwrap()@ == merge_all_spec(tables@.map_values(|t: Table| t@)) && r.unwrap().wf(),
        r is Err <==> merge_all_overflows(tables@.map_values(|t: Table| t@)),
{
    let ghost views = tables@.map_values(|t: Table| t@);
    let ghost n = tables@.len();
    let mut pending = tables;
    let mut master = Table::with_capacity(MAX_UNIQUE_KEYS);
    assert(views.subrange(n as int, n as int) =~= Seq::<Map<Seq<u8>, Agg>>::empty());
    assert(master@ =~= Map::<Seq<u8>, Agg>::empty());
    while pending.len() > 0
        invariant
            pending@.len() <= n,
            views.len() == n,
            views == tables@.map_values(|t: Table| t@),
            forall|i: int| 0 <= i < pending@.len() ==> (#[trigger] pending@[i]).wf(),
            forall|i: int| 0 <= i < pending@.len() ==> views[i] == (#[trigger] pending@[i])@,
            master.wf(),
            master@ == merge_all_spec(views.subrange(pending@.len() as int, n as int)),
            forall|j: int|
                pending@.len() <= j < n ==> !#[trigger] merge_overflows(
                    merge_all_spec(views.subrange(j + 1, n as int)),
                    views[j],
                ),
        decreases pending@.len(),
    {
        let ghost k = pending@.len();
        let local = pending.pop().unwrap();
        assert(views.subrange(k as int, n as int) == views.subrange(k - 1 + 1, n as int));
        match merge_into(&mut master, local) {
            Ok(()) => {},
            Err(e) => {
                assert(merge_overflows(merge_all_spec(views.subrange(k - 1 + 1, n as int)), views[k - 1]));
                assert(merge_all_overflows(views));
                return Err(e);
            },
        }
        let ghost s = views.subrange(k - 1, n as int);
        assert(s.drop_first() =~= views.subrange(k as int, n as int));
    }
    assert(views.subrange(0, n as int) =~= views);
    assert(!merge_all_overflows(views));
    Ok(master)
}

/// The result of aggregating two consecutive parts: the first error, or
/// the merge of both tables.
pub open spec fn combine(
    r1: Result<Map<Seq<u8>, Agg>, BatchError>,
    r2: Result<Map<Seq<u8>, Agg>, BatchError>,
) -> Result<Map<Seq<u8>, Agg>, BatchError> {
    match r1 {
        Err(e) => Err(e),
        Ok(m1) => match r2 {
            Err(e) => Err(e),
            Ok(m2) => Ok(merge(m1, m2)),
        },
    }
}

proof fn lemma_merge_add_value(m1: Map<Seq<u8>, Agg>, m2: Map<Seq<u8>, Agg>, k: Seq<u8>, v: int)
    ensures
        merge(m1, add_value(m2, k, v)) == add_value(merge(m1, m2), k, v),
{
    if m1.contains_key(k) && m2.contains_key(k) {
        lemma_union_associative_commutative(m1[k], m2[k], single(v));
    }
    assert(merge(m1, add_value(m2, k, v)) =~= add_value(merge(m1, m2), k, v));
}

/// Folding two runs of lines one after the other gives the merge of the
/// tables of each run.
pub proof fn lemma_fold_lines_concat(a: Seq<Seq<u8>>, b: Seq<Seq<u8>>)
    ensures
        fold_lines(a + b) == combine(fold_lines(a), fold_lines(b)),
    decreases b.len(),
{
    if fold_lines(a) is Err {
        lemma_fold_err_prefix(a, b);
    } else if b.len() == 0 {
        assert(a + b =~= a);
        assert(merge(fold_lines(a)->Ok_0, Map::empty()) =~= fold_lines(a)->Ok_0);
    } else {
        assert((a + b).drop_last() =~= a + b.drop_last());
        assert((a + b).last() == b.last());
        lemma_fold_lines_concat(a, b.drop_last());
        match fold_lines(b.drop_last()) {
            Err(e) => {},
            Ok(m2) => match record_of(b.last()) {
                Err(e) => {},
                Ok(kv) => {
                    lemma_merge_add_value(fold_lines(a)->Ok_0, m2, kv.0, kv.1);
                },
            },
        }
    }
}

/// Batch boundaries do not matter: a part that ends with a newline,
/// followed by another part, aggregates to the merge of the tables of the
/// two parts (or to the first error of either).
pub proof fn lemma_batch_split(a: Seq<u8>, b: Seq<u8>)
    requires
        a.len() > 0,
        a.last() == NEWLINE,
        b.len() > 0,
    ensures
        batch_table(a + b) == combine(batch_table(a), batch_table(b)),
{
    let x = a.drop_last();
    let y = trim_newline(b);
    assert(trim_newline(a + b) =~= x + seq![NEWLINE] + y);
    assert(trim_newline(a) == x);
    lemma_lines_concat(x, y);
    lemma_fold_lines_concat(lines(x), lines(y));
}

/// Merging tables is commutative and associative, so local tables can be
/// folded into the master table in any order.
pub proof fn lemma_merge_order(m1: Map<Seq<u8>, Agg>, m2: Map<Seq<u8>, Agg>, m3: Map<Seq<u8>, Agg>)
    ensures
        merge(m1, m2) == merge(m2, m1),
        merge(merge(m1, m2), m3) == merge(m1, merge(m2, m3)),
{
    assert forall|k: Seq<u8>| m1.contains_key(k) && m2.contains_key(k) implies union(m1[k], m2[k])
        == union(m2[k], m1[k]) by {
        lemma_union_associative_commutative(m1[k], m2[k], m2[k]);
    }
    assert forall|k: Seq<u8>| m1.contains_key(k) && m2.contains_key(k) && m3.contains_key(k) implies union(
        union(m1[k], m2[k]),
        m3[k],
    ) == union(m1[k], union(m2[k], m3[k])) by {
        lemma_union_associative_commutative(m1[k], m2[k], m3[k]);
    }
    assert(merge(m1, m2) =~= merge(m2, m1));
    assert(merge(merge(m1, m2), m3) =~= merge(m1, merge(m2, m3)));
}

} // verus!
