use crate::aggregate::{Agg, Data};
use crate::decode::{MINUS, NEWLINE, POINT};
use crate::table::{Table, table_contents};
use vstd::arithmetic::div_mod::{
    lemma_fundamental_div_mod, lemma_fundamental_div_mod_converse, lemma_mod_pos_bound,
};
use vstd::prelude::*;

verus! {

/// Strict lexicographic order on byte strings.
pub open spec fn lex_lt(a: Seq<u8>, b: Seq<u8>) -> bool
    decreases a.len(),
{
    if a.len() == 0 {
        b.len() > 0
    } else if b.len() == 0 {
        false
    } else if a[0] != b[0] {
        a[0] < b[0]
    } else {
        lex_lt(a.drop_first(), b.drop_first())
    }
}

pub proof fn lemma_lex_transitive(a: Seq<u8>, b: Seq<u8>, c: Seq<u8>)
    requires
        lex_lt(a, b),
        lex_lt(b, c),
    ensures
        lex_lt(a, c),
    decreases a.len(),
{
    if a.len() > 0 && b.len() > 0 && c.len() > 0 && a[0] == b[0] && b[0] == c[0] {
        lemma_lex_transitive(a.drop_first(), b.drop_first(), c.drop_first());
    }
}

pub proof fn lemma_lex_total(a: Seq<u8>, b: Seq<u8>)
    requires
        a != b,
    ensures
        lex_lt(a, b) || lex_lt(b, a),
    decreases a.len(),
{
    if a.len() == 0 && b.len() == 0 {
        assert(a =~= b);
    } else if a.len() > 0 && b.len() > 0 && a[0] == b[0] {
        if a.drop_first() == b.drop_first() {
            assert(a.drop_first().len() == b.drop_first().len());
            assert(a.len() == b.len());
            assert forall|i: int| 0 <= i < a.len() implies a[i] == b[i] by {
                if i > 0 {
                    assert(a[i] == a.drop_first()[i - 1]);
                    assert(b[i] == b.drop_first()[i - 1]);
                }
            }
            assert(a =~= b);
        }
        lemma_lex_total(a.drop_first(), b.drop_first());
    }
}

pub proof fn lemma_lex_irreflexive(a: Seq<u8>)
    ensures
        !lex_lt(a, a),
    decreases a.len(),
{
    if a.len() > 0 {
        lemma_lex_irreflexive(a.drop_first());
    }
}

/// Whether `a` comes strictly before `b` in byte order.
pub fn key_less(a: &[u8], b: &[u8]) -> (r: bool)
    ensures
        r == lex_lt(a@, b@),
{
    let mut i: usize = 0;
    assert(a@.subrange(0, a@.len() as int) =~= a@);
    assert(b@.subrange(0, b@.len() as int) =~= b@);
    while i < a.len() && i < b.len() && a[i] == b[i]
        invariant
            i <= a@.len(),
            i <= b@.len(),
            lex_lt(a@.subrange(i as int, a@.len() as int), b@.subrange(i as int, b@.len() as int))
                == lex_lt(a@, b@),
        decreases a@.len() - i,
    {
        assert(a@.subrange(i as int, a@.len() as int).drop_first() =~= a@.subrange(i + 1, a@.len() as int));
        assert(b@.subrange(i as int, b@.len() as int).drop_first() =~= b@.subrange(i + 1, b@.len() as int));
        i = i + 1;
    }
    let ghost sa = a@.subrange(i as int, a@.len() as int);
    let ghost sb = b@.subrange(i as int, b@.len() as int);
    if i == a.len() {
        i < b.len()
    } else if i == b.len() {
        false
    } else {
        assert(sa[0] == a@[i as int] && sb[0] == b@[i as int]);
        a[i] < b[i]
    }
}

/// Listing `s` holds each entry of `m` once, in strictly increasing key order.
pub open spec fn is_sorted_listing(s: Seq<(Seq<u8>, Agg)>, m: Map<Seq<u8>, Agg>) -> bool {
    &&& forall|i: int, j: int| 0 <= i < j < s.len() ==> lex_lt((#[trigger] s[i]).0, (#[trigger] s[j]).0)
    &&& forall|i: int| 0 <= i < s.len() ==> m.contains_key((#[trigger] s[i]).0) && m[s[i].0] == s[i].1
    &&& forall|k: Seq<u8>| #[trigger] m.contains_key(k) ==> exists|i: int| 0 <= i < s.len() && (#[trigger] s[i]).0 == k
}

/// A map has one sorted listing only.
pub proof fn lemma_sorted_listing_unique(
    s1: Seq<(Seq<u8>, Agg)>,
    s2: Seq<(Seq<u8>, Agg)>,
    m: Map<Seq<u8>, Agg>,
)
    requires
        is_sorted_listing(s1, m),
        is_sorted_listing(s2, m),
    ensures
        s1 == s2,
    decreases s1.len(),
{
    if s1.len() == 0 {
        if s2.len() > 0 {
            assert(m.contains_key(s2[0].0));
        }
        assert(s1 =~= s2);
    } else if s2.len() == 0 {
        assert(m.contains_key(s1[0].0));
    } else {
        let k1 = s1[0].0;
        let k2 = s2[0].0;
        if k1 != k2 {
            assert(m.contains_key(k2));
            let j1 = choose|i: int| 0 <= i < s1.len() && (#[trigger] s1[i]).0 == k2;
            assert(m.contains_key(k1));
            let j2 = choose|i: int| 0 <= i < s2.len() && (#[trigger] s2[i]).0 == k1;
            assert(lex_lt(k1, k2));
            assert(lex_lt(k2, k1));
            lemma_lex_transitive(k1, k2, k1);
            lemma_lex_irreflexive(k1);
        }
        let m2 = m.remove(k1);
        let t1 = s1.drop_first();
        let t2 = s2.drop_first();
        assert forall|i: int| 0 <= i < t1.len() implies m2.contains_key((#[trigger] t1[i]).0) && m2[t1[i].0]
            == t1[i].1 by {
            assert(t1[i] == s1[i + 1]);
            assert(lex_lt(s1[0].0, s1[i + 1].0));
            lemma_lex_irreflexive(k1);
        }
        assert forall|i: int| 0 <= i < t2.len() implies m2.contains_key((#[trigger] t2[i]).0) && m2[t2[i].0]
            == t2[i].1 by {
            assert(t2[i] == s2[i + 1]);
            assert(lex_lt(s2[0].0, s2[i + 1].0));
            lemma_lex_irreflexive(k1);
        }
        assert forall|k: Seq<u8>| #[trigger] m2.contains_key(k) implies exists|i: int|
            0 <= i < t1.len() && (#[trigger] t1[i]).0 == k by {
            let i = choose|i: int| 0 <= i < s1.len() && (#[trigger] s1[i]).0 == k;
            assert(t1[i - 1] == s1[i]);
        }
        assert forall|k: Seq<u8>| #[trigger] m2.contains_key(k) implies exists|i: int|
            0 <= i < t2.len() && (#[trigger] t2[i]).0 == k by {
            let i = choose|i: int| 0 <= i < s2.len() && (#[trigger] s2[i]).0 == k;
            assert(t2[i - 1] == s2[i]);
        }
        assert forall|i: int, j: int| 0 <= i < j < t1.len() implies lex_lt((#[trigger] t1[i]).0, (#[trigger] t1[j]).0) by {
            assert(t1[i] == s1[i + 1] && t1[j] == s1[j + 1]);
        }
        assert forall|i: int, j: int| 0 <= i < j < t2.len() implies lex_lt((#[trigger] t2[i]).0, (#[trigger] t2[j]).0) by {
            assert(t2[i] == s2[i + 1] && t2[j] == s2[j + 1]);
        }
        lemma_sorted_listing_unique(t1, t2, m2);
        assert(s1[0] == s2[0]);
        assert(s1 =~= s2) by {
            assert forall|i: int| 0 <= i < s1.len() implies s1[i] == s2[i] by {
                if i > 0 {
                    assert(s1[i] == t1[i - 1]);
                    assert(s2[i] == t2[i - 1]);
                }
            }
        }
    }
}

pub open spec fn entry_views(es: Seq<(Vec<u8>, Data)>) -> Seq<(Seq<u8>, Agg)> {
    es.map_values(|e: (Vec<u8>, Data)| (e.0@, e.1@))
}


pub open spec fn strictly_sorted(s: Seq<(Vec<u8>, Data)>) -> bool {
    forall|i: int, j: int| 0 <= i < j < s.len() ==> lex_lt((#[trigger] s[i]).0@, (#[trigger] s[j]).0@)
}

/// Inserts an entry whose key is new at its place in a strictly sorted vector.
fn insert_sorted(sorted: &mut Vec<(Vec<u8>, Data)>, e: (Vec<u8>, Data)) -> (p: usize)
    requires
        strictly_sorted(old(sorted)@),
        forall|j: int| 0 <= j < old(sorted)@.len() ==> (#[trigger] old(sorted)@[j]).0@ != e.0@,
    ensures
        p <= old(sorted)@.len(),
        final(sorted)@ == old(sorted)@.insert(p as int, e),
        strictly_sorted(final(sorted)@),
{
    let mut p: usize = 0;
    while p < sorted.len() && key_less(sorted[p].0.as_slice(), e.0.as_slice())
        invariant
            p <= sorted@.len(),
            forall|j: int| 0 <= j < p ==> lex_lt((#[trigger] sorted@[j]).0@, e.0@),
        decreases sorted@.len() - p,
    {
        p = p + 1;
    }
    proof {
        if p < sorted@.len() {
            lemma_lex_total(e.0@, sorted@[p as int].0@);
        }
    }
    let ghost old_sorted = sorted@;
    sorted.insert(p, e);
    assert(sorted@ == old_sorted.insert(p as int, e));
    assert forall|i: int, j: int| 0 <= i < j < sorted@.len() implies lex_lt(
        (#[trigger] sorted@[i]).0@,
        (#[trigger] sorted@[j]).0@,
    ) by {
        if j < p {
            assert(sorted@[i] == old_sorted[i]);
            assert(sorted@[j] == old_sorted[j]);
        } else if i < p && j == p {
            assert(sorted@[i] == old_sorted[i]);
        } else if i < p && j > p {
            assert(sorted@[i] == old_sorted[i]);
            assert(sorted@[j] == old_sorted[j - 1]);
            assert(lex_lt(old_sorted[i].0@, old_sorted[j - 1].0@));
        } else if i == p {
            assert(sorted@[j] == old_sorted[j - 1]);
            if j - 1 > p {
                assert(lex_lt(old_sorted[p as int].0@, old_sorted[j - 1].0@));
                lemma_lex_transitive(e.0@, old_sorted[p as int].0@, old_sorted[j - 1].0@);
            }
        } else {
            assert(sorted@[i] == old_sorted[i - 1]);
            assert(sorted@[j] == old_sorted[j - 1]);
            assert(lex_lt(old_sorted[i - 1].0@, old_sorted[j - 1].0@));
        }
    }
    p
}

/// The entries of a table, in strictly increasing byte order of their keys.
#[verifier::rlimit(50)]
pub fn sorted_entries(table: Table) -> (r: Vec<(Vec<u8>, Data)>)
    requires
        table.wf(),
    ensures
        is_sorted_listing(entry_views(r@), table@),
        forall|i: int| 0 <= i < r@.len() ==> (#[trigger] r@[i]).1.wf(),
{
    let ghost tv = table@;
    let ghost tc = table_contents(table);
    let mut entries = table.into_entries();
    let ghost es = entries@;
    let ghost n = es.len();
    let mut sorted: Vec<(Vec<u8>, Data)> = Vec::new();
    while entries.len() > 0
        invariant
            entries@.len() <= n == es.len(),
            entries@ == es.subrange(0, entries@.len() as int),
            forall|i: int, j: int| 0 <= i < j < es.len() ==> (#[trigger] es[i]).0@ != (#[trigger] es[j]).0@,
            forall|i: int| 0 <= i < es.len() ==> tc.contains_key((#[trigger] es[i]).0@) && tc[es[i].0@] == es[i].1,
            forall|k: Seq<u8>| #[trigger] tc.contains_key(k) ==> tv.contains_key(k) && tv[k] == tc[k]@ && tc[k].wf(),
            strictly_sorted(sorted@),
            forall|j: int| 0 <= j < sorted@.len() ==> exists|i: int|
                entries@.len() <= i < n && (#[trigger] es[i]) == #[trigger] sorted@[j],
            forall|i: int| entries@.len() <= i < n ==> exists|j: int|
                0 <= j < sorted@.len() && (#[trigger] sorted@[j]).0@ == (#[trigger] es[i]).0@,
        decreases entries@.len(),
    {
        let ghost m = entries@.len();
        let e = entries.pop().unwrap();
        assert(e == es[m - 1]);
        let ghost old_sorted = sorted@;
        proof {
            assert forall|j: int| 0 <= j < old_sorted.len() implies (#[trigger] old_sorted[j]).0@ != e.0@ by {
                let i0 = choose|i: int| m <= i < n && (#[trigger] es[i]) == old_sorted[j];
                assert(es[i0].0@ != es[m - 1].0@);
            }
        }
        let p = insert_sorted(&mut sorted, e);
        assert forall|j: int| 0 <= j < sorted@.len() implies exists|i: int|
            m - 1 <= i < n && (#[trigger] es[i]) == #[trigger] sorted@[j] by {
            if j < p {
                assert(sorted@[j] == old_sorted[j]);
                let i = choose|i: int| m <= i < n && (#[trigger] es[i]) == old_sorted[j];
            } else if j == p {
                assert(es[m - 1] == sorted@[j]);
            } else {
                assert(sorted@[j] == old_sorted[j - 1]);
                let i = choose|i: int| m <= i < n && (#[trigger] es[i]) == old_sorted[j - 1];
            }
        }
        assert forall|i: int| m - 1 <= i < n implies exists|j: int|
            0 <= j < sorted@.len() && (#[trigger] sorted@[j]).0@ == (#[trigger] es[i]).0@ by {
            if i == m - 1 {
                assert(sorted@[p as int] == e);
            } else {
                let j = choose|j: int| 0 <= j < old_sorted.len() && (#[trigger] old_sorted[j]).0@ == es[i].0@;
                if j < p {
                    assert(sorted@[j] == old_sorted[j]);
                } else {
                    assert(sorted@[j + 1] == old_sorted[j]);
                }
            }
        }
        assert(entries@ =~= es.subrange(0, m - 1));
    }
    let ghost sv = entry_views(sorted@);
    assert forall|i: int| 0 <= i < sv.len() implies tv.contains_key((#[trigger] sv[i]).0) && tv[sv[i].0] == sv[i].1 by {
        let i0 = choose|i0: int| 0 <= i0 < n && (#[trigger] es[i0]) == sorted@[i];
    }
    assert forall|k: Seq<u8>| #[trigger] tv.contains_key(k) implies exists|i: int| 0 <= i < sv.len() && (#[trigger] sv[i]).0 == k by {
        assert(tc.contains_key(k));
        let i0 = choose|i0: int| 0 <= i0 < es.len() && (#[trigger] es[i0]).0@ == k;
        let j = choose|j: int| 0 <= j < sorted@.len() && (#[trigger] sorted@[j]).0@ == es[i0].0@;
        assert(sv[j].0 == k);
    }
    assert forall|i: int| 0 <= i < sorted@.len() implies (#[trigger] sorted@[i]).1.wf() by {
        let i0 = choose|i0: int| 0 <= i0 < n && (#[trigger] es[i0]) == sorted@[i];
    }
    sorted
}

pub const EQUALS: u8 = 61;

pub const SLASH: u8 = 47;

pub const COMMA: u8 = 44;

pub const SPACE: u8 = 32;

pub const OPEN_BRACE: u8 = 123;

pub const CLOSE_BRACE: u8 = 125;

/// Decimal digits of `n`, most significant first.
pub open spec fn nat_digits(n: nat) -> Seq<u8>
    decreases n,
{
    if n < 10 {
        seq![(48 + n) as u8]
    } else {
        nat_digits(n / 10).push((48 + n % 10) as u8)
    }
}

pub open spec fn abs(v: int) -> nat {
    if v < 0 {
        (-v) as nat
    } else {
        v as nat
    }
}

/// Text of a scaled value with one fractional digit: `-2.5` for -25.
pub open spec fn decimal_text(v: int) -> Seq<u8> {
    let a = abs(v);
    (if v < 0 {
        seq![MINUS]
    } else {
        Seq::<u8>::empty()
    }) + nat_digits(a / 10) + seq![POINT, (48 + a % 10) as u8]
}

/// The mean of a statistic in scaled units, rounded to the nearest
/// integer, halves rounded up.
pub open spec fn mean_scaled(a: Agg) -> int {
    (2 * a.sum + a.count) / (2 * a.count)
}

/// `key=min/mean/max` of one entry.
pub open spec fn entry_text(k: Seq<u8>, a: Agg) -> Seq<u8> {
    k + seq![EQUALS] + decimal_text(a.min) + seq![SLASH] + decimal_text(mean_scaled(a)) + seq![SLASH]
        + decimal_text(a.max)
}

/// The entries' texts, separated by a comma and a space.
pub open spec fn listing_text(s: Seq<(Seq<u8>, Agg)>) -> Seq<u8>
    decreases s.len(),
{
    if s.len() == 0 {
        Seq::<u8>::empty()
    } else if s.len() == 1 {
        entry_text(s[0].0, s[0].1)
    } else {
        listing_text(s.drop_last()) + seq![COMMA, SPACE] + entry_text(s.last().0, s.last().1)
    }
}

/// The whole report: the listing in braces, then a newline.
pub open spec fn report_text(s: Seq<(Seq<u8>, Agg)>) -> Seq<u8> {
    seq![OPEN_BRACE] + listing_text(s) + seq![CLOSE_BRACE, NEWLINE]
}

fn push_digits(out: &mut Vec<u8>, n: u128)
    ensures
        final(out)@ == old(out)@ + nat_digits(n as nat),
    decreases n,
{
    if n >= 10 {
        push_digits(out, n / 10);
    }
    out.push((48 + n % 10) as u8);
    proof {
        if n < 10 {
            assert(old(out)@ + nat_digits(n as nat) =~= old(out)@.push((48 + n) as u8));
        } else {
            assert(old(out)@ + nat_digits(n as nat) =~= (old(out)@ + nat_digits((n / 10) as nat)).push(
                (48 + n % 10) as u8,
            ));
        }
    }
}

fn push_decimal(out: &mut Vec<u8>, v: i128)
    requires
        v > i128::MIN,
    ensures
        final(out)@ == old(out)@ + decimal_text(v as int),
{
    let a: u128 = if v < 0 {
        (-v) as u128
    } else {
        v as u128
    };
    if v < 0 {
        out.push(MINUS);
    }
    push_digits(out, a / 10);
    out.push(POINT);
    out.push((48 + a % 10) as u8);
    assert(out@ =~= old(out)@ + decimal_text(v as int));
}

/// Rounded mean of a statistic, as `mean_scaled` states it.
fn mean_of(d: &Data) -> (r: i128)
    requires
        d.wf(),
    ensures
        r == mean_scaled(d@),
        -2_000_000_001 <= r <= 2_000_000_001,
{
    let sum = d.sum();
    let count = d.count();
    let ghost a = d@;
    let den: u128 = 2 * (count as u128);
    assert(a.min * a.count <= a.sum <= a.max * a.count);
    assert(-999_999_999 * a.count <= a.sum <= 999_999_999 * a.count) by (nonlinear_arith)
        requires
            a.min * a.count <= a.sum <= a.max * a.count,
            -999_999_999 <= a.min,
            a.max <= 999_999_999,
            a.count >= 1,
    ;
    let num: i128 = 2 * sum + count as i128;
    let ghost x = num as int;
    let ghost dd = den as int;
    assert(-2_000_000_000 * dd <= x <= 2_000_000_000 * dd) by (nonlinear_arith)
        requires
            x == 2 * a.sum + a.count,
            dd == 2 * a.count,
            -999_999_999 * a.count <= a.sum <= 999_999_999 * a.count,
            a.count >= 1,
    ;
    if num >= 0 {
        let q: u128 = (num as u128) / den;
        assert(q <= 2_000_000_000) by (nonlinear_arith)
            requires
                q == x / dd,
                0 <= x <= 2_000_000_000 * dd,
                dd > 0,
        ;
        q as i128
    } else {
        let y: u128 = (-num) as u128;
        let q: u128 = (y + den - 1) / den;
        proof {
            let yi = y as int;
            lemma_fundamental_div_mod(yi + dd - 1, dd);
            lemma_mod_pos_bound(yi + dd - 1, dd);
            let r = (yi + dd - 1) % dd;
            assert(q as int == (yi + dd - 1) / dd);
            assert(x == (-(q as int)) * dd + (dd - 1 - r)) by (nonlinear_arith)
                requires
                    yi + dd - 1 == dd * ((yi + dd - 1) / dd) + r,
                    q as int == (yi + dd - 1) / dd,
                    x == -yi,
            ;
            lemma_fundamental_div_mod_converse(x, dd, -(q as int), dd - 1 - r);
            assert(q <= 2_000_000_001) by (nonlinear_arith)
                requires
                    q as int == (yi + dd - 1) / dd,
                    0 <= yi <= 2_000_000_000 * dd,
                    dd > 0,
            ;
        }
        -(q as i128)
    }
}

fn push_entry(out: &mut Vec<u8>, key: &Vec<u8>, d: &Data)
    requires
        d.wf(),
    ensures
        final(out)@ == old(out)@ + entry_text(key@, d@),
{
    let mut i: usize = 0;
    while i < key.len()
        invariant
            i <= key@.len(),
            out@ == old(out)@ + key@.subrange(0, i as int),
        decreases key@.len() - i,
    {
        out.push(key[i]);
        i = i + 1;
        assert(out@ =~= old(out)@ + key@.subrange(0, i as int));
    }
    assert(key@.subrange(0, key@.len() as int) =~= key@);
    out.push(EQUALS);
    push_decimal(out, d.min() as i128);
    out.push(SLASH);
    let mean = mean_of(d);
    push_decimal(out, mean);
    out.push(SLASH);
    push_decimal(out, d.max() as i128);
    assert(out@ =~= old(out)@ + entry_text(key@, d@));
}

/// Renders entries as `{key=min/mean/max, ...}` and a newline.
pub fn format_report(entries: &Vec<(Vec<u8>, Data)>) -> (r: Vec<u8>)
    requires
        forall|i: int| 0 <= i < entries@.len() ==> (#[trigger] entries@[i]).1.wf(),
    ensures
        r@ == report_text(entry_views(entries@)),
{
    let ghost views = entry_views(entries@);
    let mut out: Vec<u8> = Vec::new();
    out.push(OPEN_BRACE);
    let mut i: usize = 0;
    assert(out@ =~= seq![OPEN_BRACE] + listing_text(views.subrange(0, 0)));
    while i < entries.len()
        invariant
            i <= entries@.len(),
            views == entry_views(entries@),
            forall|i: int| 0 <= i < entries@.len() ==> (#[trigger] entries@[i]).1.wf(),
            out@ == seq![OPEN_BRACE] + listing_text(views.subrange(0, i as int)),
        decreases entries@.len() - i,
    {
        if i > 0 {
            out.push(COMMA);
            out.push(SPACE);
        }
        push_entry(&mut out, &entries[i].0, &entries[i].1);
        let ghost pre = views.subrange(0, i as int);
        let ghost post = views.subrange(0, i + 1);
        assert(post.drop_last() =~= pre);
        assert(post.last() == (entries@[i as int].0@, entries@[i as int].1@));
        assert(out@ =~= seq![OPEN_BRACE] + listing_text(post));
        i = i + 1;
    }
    assert(views.subrange(0, entries@.len() as int) =~= views);
    out.push(CLOSE_BRACE);
    out.push(NEWLINE);
    assert(out@ =~= report_text(views));
    out
}

/// The report of a table: its entries in increasing byte order of their
/// keys, rendered by `format_report`.
pub fn report(table: Table) -> (r: Vec<u8>)
    requires
        table.wf(),
    ensures
        exists|s: Seq<(Seq<u8>, Agg)>| is_sorted_listing(s, table@),
        forall|s: Seq<(Seq<u8>, Agg)>| is_sorted_listing(s, table@) ==> r@ == report_text(s),
{
    let ghost tv = table@;
    let entries = sorted_entries(table);
    let r = format_report(&entries);
    assert(is_sorted_listing(entry_views(entries@), tv));
    assert forall|s: Seq<(Seq<u8>, Agg)>| is_sorted_listing(s, tv) implies r@ == report_text(s) by {
        lemma_sorted_listing_unique(s, entry_views(entries@), tv);
    }
    r
}

} // verus!
