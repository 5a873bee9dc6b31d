use vstd::prelude::*;

use crate::record::{views, FileInfo, Record};
use crate::strings::{lemma_lex_le_total, lemma_lex_le_trans, lex_le, str_le};

verus! {

/// The key a walk orders its records by. An unrecognized request falls back
/// to ordering by name.
#[derive(Clone, Copy)]
pub enum SortKey {
    Name,
    Size,
    Date,
    Path,
}

/// The size used for ordering: a record without a readable size sorts as
/// the lowest possible value.
pub open spec fn size_key(r: Record) -> u64 {
    match r.size {
        Some(s) => s,
        None => 0,
    }
}

/// The timestamp used for ordering: a record without a readable
/// modification time sorts as zero.
pub open spec fn date_key(r: Record) -> i64 {
    match r.modified {
        Some(m) => m,
        None => 0,
    }
}

/// `a` sorts at or before `b` under key `k`.
pub open spec fn key_le(k: SortKey, a: Record, b: Record) -> bool {
    match k {
        SortKey::Name => lex_le(a.name, b.name),
        SortKey::Size => size_key(a) <= size_key(b),
        SortKey::Date => date_key(a) <= date_key(b),
        SortKey::Path => lex_le(a.path, b.path),
    }
}

/// `a` and `b` share the same sort key under `k`.
pub open spec fn key_eq(k: SortKey, a: Record, b: Record) -> bool {
    key_le(k, a, b) && key_le(k, b, a)
}

/// The ordering is total.
pub proof fn lemma_key_le_total(k: SortKey, a: Record, b: Record)
    ensures
        key_le(k, a, b) || key_le(k, b, a),
{
    match k {
        SortKey::Name => lemma_lex_le_total(a.name, b.name),
        SortKey::Path => lemma_lex_le_total(a.path, b.path),
        _ => {},
    }
}

/// The ordering is transitive.
pub proof fn lemma_key_le_trans(k: SortKey, a: Record, b: Record, c: Record)
    requires
        key_le(k, a, b),
        key_le(k, b, c),
    ensures
        key_le(k, a, c),
{
    match k {
        SortKey::Name => lemma_lex_le_trans(a.name, b.name, c.name),
        SortKey::Path => lemma_lex_le_trans(a.path, b.path, c.path),
        _ => {},
    }
}

/// The records of `s` are in nondecreasing key order.
pub open spec fn sorted_by(k: SortKey, s: Seq<Record>) -> bool {
    forall|i: int, j: int| 0 <= i < j < s.len() ==> key_le(k, s[i], s[j])
}

/// Insert `x` into `s` before the first record that does not sort strictly
/// below `x`, so that `x` lands ahead of every record sharing its key.
pub open spec fn insert_sorted(k: SortKey, x: Record, s: Seq<Record>) -> Seq<Record>
    decreases s.len(),
{
    if s.len() == 0 {
        seq![x]
    } else if !key_le(k, x, s[0]) {
        seq![s[0]] + insert_sorted(k, x, s.drop_first())
    } else {
        seq![x] + s
    }
}

/// Stable sort of `s` under key `k`: earlier records are inserted ahead of
/// later records sharing their key.
pub open spec fn sort_by_key(k: SortKey, s: Seq<Record>) -> Seq<Record>
    decreases s.len(),
{
    if s.len() == 0 {
        Seq::empty()
    } else {
        insert_sorted(k, s[0], sort_by_key(k, s.drop_first()))
    }
}

/// The subsequence of `s` whose records share a sort key with `g`.
pub open spec fn key_filter(k: SortKey, g: Record, s: Seq<Record>) -> Seq<Record> {
    s.filter(|x: Record| key_eq(k, x, g))
}

proof fn lemma_insert_multiset(k: SortKey, x: Record, s: Seq<Record>)
    ensures
        insert_sorted(k, x, s).to_multiset() == s.to_multiset().insert(x),
    decreases s.len(),
{
    broadcast use vstd::seq_lib::group_to_multiset_ensures;

    if s.len() == 0 {
        assert(seq![x] =~= s.push(x));
        assert(s.push(x).to_multiset() =~= s.to_multiset().insert(x));
    } else if !key_le(k, x, s[0]) {
        let rest = s.drop_first();
        lemma_insert_multiset(k, x, rest);
        let inner = insert_sorted(k, x, rest);
        assert(seq![s[0]] + inner =~= inner.insert(0, s[0]));
        assert(s =~= rest.insert(0, s[0]));
        assert(insert_sorted(k, x, s).to_multiset() == inner.to_multiset().insert(s[0]));
        assert(s.to_multiset() == rest.to_multiset().insert(s[0]));
        assert(rest.to_multiset().insert(x).insert(s[0]) =~= rest.to_multiset().insert(
            s[0],
        ).insert(x));
    } else {
        assert(seq![x] + s =~= s.insert(0, x));
    }
}

/// Sorting permutes: the result holds exactly the records of the input.
pub proof fn lemma_sort_multiset(k: SortKey, s: Seq<Record>)
    ensures
        sort_by_key(k, s).to_multiset() == s.to_multiset(),
    decreases s.len(),
{
    broadcast use vstd::seq_lib::group_to_multiset_ensures;

    if s.len() == 0 {
        assert(sort_by_key(k, s).to_multiset() =~= s.to_multiset());
    } else {
        let rest = s.drop_first();
        lemma_sort_multiset(k, rest);
        lemma_insert_multiset(k, s[0], sort_by_key(k, rest));
        assert(s =~= rest.insert(0, s[0]));
        assert(rest.insert(0, s[0]).to_multiset() =~= rest.to_multiset().insert(s[0]));
    }
}

proof fn lemma_insert_contains(k: SortKey, x: Record, s: Seq<Record>, y: Record)
    requires
        insert_sorted(k, x, s).contains(y),
    ensures
        y == x || s.contains(y),
{
    broadcast use vstd::seq_lib::to_multiset_contains;

    lemma_insert_multiset(k, x, s);
    assert(insert_sorted(k, x, s).to_multiset().count(y) > 0);
    if y != x {
        assert(s.to_multiset().count(y) > 0);
    }
}

proof fn lemma_insert_preserves_sorted(k: SortKey, x: Record, s: Seq<Record>)
    requires
        sorted_by(k, s),
    ensures
        sorted_by(k, insert_sorted(k, x, s)),
    decreases s.len(),
{
    if s.len() == 0 {
    } else if !key_le(k, x, s[0]) {
        let rest = s.drop_first();
        assert(sorted_by(k, rest));
        lemma_insert_preserves_sorted(k, x, rest);
        let inner = insert_sorted(k, x, rest);
        let r = seq![s[0]] + inner;
        lemma_key_le_total(k, x, s[0]);
        assert(key_le(k, s[0], x));
        assert forall|i: int, j: int| 0 <= i < j < r.len() implies key_le(k, r[i], r[j]) by {
            if i == 0 {
                let y = inner[j - 1];
                assert(inner.contains(y));
                lemma_insert_contains(k, x, rest, y);
                if y == x {
                } else {
                    let m = choose|m: int| 0 <= m < rest.len() && rest[m] == y;
                    assert(key_le(k, s[0], s[m + 1]));
                }
            } else {
                assert(key_le(k, inner[i - 1], inner[j - 1]));
            }
        }
    } else {
        let r = seq![x] + s;
        assert forall|i: int, j: int| 0 <= i < j < r.len() implies key_le(k, r[i], r[j]) by {
            if i == 0 {
                if j == 1 {
                } else {
                    lemma_key_le_trans(k, x, s[0], s[j - 1]);
                }
            }
        }
    }
}

/// The result of `sort_by_key` is in nondecreasing key order.
pub proof fn lemma_sort_sorted(k: SortKey, s: Seq<Record>)
    ensures
        sorted_by(k, sort_by_key(k, s)),
    decreases s.len(),
{
    if s.len() == 0 {
    } else {
        lemma_sort_sorted(k, s.drop_first());
        lemma_insert_preserves_sorted(k, s[0], sort_by_key(k, s.drop_first()));
    }
}

proof fn lemma_insert_stable(k: SortKey, x: Record, s: Seq<Record>, g: Record)
    ensures
        key_eq(k, x, g) ==> key_filter(k, g, insert_sorted(k, x, s)) == seq![x] + key_filter(
            k,
            g,
            s,
        ),
        !key_eq(k, x, g) ==> key_filter(k, g, insert_sorted(k, x, s)) == key_filter(k, g, s),
    decreases s.len(),
{
    broadcast use Seq::lemma_filter_prepend;

    let pred = |y: Record| key_eq(k, y, g);
    if s.len() == 0 {
        assert(seq![x] =~= seq![x] + Seq::<Record>::empty());
        assert(Seq::<Record>::empty().filter(pred) =~= Seq::<Record>::empty());
        if pred(x) {
            assert((seq![x] + Seq::<Record>::empty()).filter(pred) =~= seq![x] + Seq::<
                Record,
            >::empty().filter(pred));
        }
    } else if !key_le(k, x, s[0]) {
        let rest = s.drop_first();
        lemma_insert_stable(k, x, rest, g);
        let inner = insert_sorted(k, x, rest);
        assert(s =~= seq![s[0]] + rest);
        assert((seq![s[0]] + rest).filter(pred) == (if pred(s[0]) {
            seq![s[0]]
        } else {
            Seq::<Record>::empty()
        }) + rest.filter(pred));
        assert((seq![s[0]] + inner).filter(pred) == (if pred(s[0]) {
            seq![s[0]]
        } else {
            Seq::<Record>::empty()
        }) + inner.filter(pred));
        if key_eq(k, x, g) {
            // The head sorts strictly below `x`, so it cannot share a key
            // with `g`: otherwise transitivity would give key_le(x, s[0]).
            lemma_key_le_total(k, x, s[0]);
            if key_eq(k, s[0], g) {
                lemma_key_le_trans(k, x, g, s[0]);
            }
            assert(!pred(s[0]));
            assert(Seq::<Record>::empty() + inner.filter(pred) =~= inner.filter(pred));
            assert(Seq::<Record>::empty() + rest.filter(pred) =~= rest.filter(pred));
            assert(key_filter(k, g, insert_sorted(k, x, s)) == seq![x] + key_filter(k, g, s));
        } else {
            if pred(s[0]) {
                assert(seq![s[0]] + inner.filter(pred) =~= seq![s[0]] + rest.filter(pred));
            } else {
                assert(Seq::<Record>::empty() + inner.filter(pred) =~= Seq::<
                    Record,
                >::empty() + rest.filter(pred));
            }
        }
    } else {
        assert((seq![x] + s).filter(pred) == (if pred(x) {
            seq![x]
        } else {
            Seq::<Record>::empty()
        }) + s.filter(pred));
        if !pred(x) {
            assert(Seq::<Record>::empty() + s.filter(pred) =~= s.filter(pred));
        }
    }
}

/// Sorting is stable: for any record `g`, the records sharing `g`'s key
/// appear in the sorted result in exactly their input order.
pub proof fn lemma_sort_stable(k: SortKey, s: Seq<Record>, g: Record)
    ensures
        key_filter(k, g, sort_by_key(k, s)) == key_filter(k, g, s),
    decreases s.len(),
{
    broadcast use Seq::lemma_filter_prepend;

    let pred = |y: Record| key_eq(k, y, g);
    if s.len() == 0 {
    } else {
        let rest = s.drop_first();
        lemma_sort_stable(k, rest, g);
        lemma_insert_stable(k, s[0], sort_by_key(k, rest), g);
        assert(s =~= seq![s[0]] + rest);
        assert((seq![s[0]] + rest).filter(pred) == (if pred(s[0]) {
            seq![s[0]]
        } else {
            Seq::<Record>::empty()
        }) + rest.filter(pred));
        if !pred(s[0]) {
            assert(Seq::<Record>::empty() + rest.filter(pred) =~= rest.filter(pred));
        }
    }
}

proof fn lemma_insert_filter_commute(k: SortKey, x: Record, s: Seq<Record>, p: spec_fn(Record) -> bool)
    requires
        sorted_by(k, s),
    ensures
        p(x) ==> insert_sorted(k, x, s).filter(p) == insert_sorted(k, x, s.filter(p)),
        !p(x) ==> insert_sorted(k, x, s).filter(p) == s.filter(p),
    decreases s.len(),
{
    broadcast use Seq::lemma_filter_prepend;

    if s.len() == 0 {
        assert(seq![x] =~= seq![x] + Seq::<Record>::empty());
        assert(Seq::<Record>::empty().filter(p) =~= Seq::<Record>::empty());
        assert(s.filter(p) =~= Seq::<Record>::empty());
        if p(x) {
            assert((seq![x] + Seq::<Record>::empty()).filter(p) == seq![x] + Seq::<
                Record,
            >::empty().filter(p));
            assert(insert_sorted(k, x, s).filter(p) =~= seq![x]);
            assert(insert_sorted(k, x, s.filter(p)) =~= seq![x]);
        } else {
            assert((seq![x] + Seq::<Record>::empty()).filter(p) =~= Seq::<Record>::empty());
        }
    } else if !key_le(k, x, s[0]) {
        let rest = s.drop_first();
        assert(sorted_by(k, rest));
        lemma_insert_filter_commute(k, x, rest, p);
        let inner = insert_sorted(k, x, rest);
        assert(s =~= seq![s[0]] + rest);
        assert((seq![s[0]] + rest).filter(p) == (if p(s[0]) {
            seq![s[0]]
        } else {
            Seq::<Record>::empty()
        }) + rest.filter(p));
        assert((seq![s[0]] + inner).filter(p) == (if p(s[0]) {
            seq![s[0]]
        } else {
            Seq::<Record>::empty()
        }) + inner.filter(p));
        if p(x) {
            if p(s[0]) {
                assert(s.filter(p) == seq![s[0]] + rest.filter(p));
                assert((seq![s[0]] + rest.filter(p)).drop_first() =~= rest.filter(p));
                assert((seq![s[0]] + rest.filter(p))[0] == s[0]);
                assert(insert_sorted(k, x, s.filter(p)) == seq![s[0]] + insert_sorted(
                    k,
                    x,
                    rest.filter(p),
                ));
                assert(insert_sorted(k, x, s).filter(p) =~= seq![s[0]] + insert_sorted(
                    k,
                    x,
                    rest.filter(p),
                ));
            } else {
                assert(s.filter(p) == Seq::<Record>::empty() + rest.filter(p));
                assert(Seq::<Record>::empty() + rest.filter(p) =~= rest.filter(p));
                assert(insert_sorted(k, x, s).filter(p) =~= insert_sorted(k, x, rest.filter(p)));
            }
        } else {
            assert(insert_sorted(k, x, s).filter(p) =~= (if p(s[0]) {
                seq![s[0]]
            } else {
                Seq::<Record>::empty()
            }) + rest.filter(p));
            assert(insert_sorted(k, x, s).filter(p) =~= s.filter(p));
        }
    } else {
        assert((seq![x] + s).filter(p) == (if p(x) {
            seq![x]
        } else {
            Seq::<Record>::empty()
        }) + s.filter(p));
        if p(x) {
            let f = s.filter(p);
            if f.len() == 0 {
                assert(insert_sorted(k, x, f) =~= seq![x]);
                assert(seq![x] + f =~= seq![x]);
            } else {
                assert(f.contains(f[0]));
                s.lemma_filter_contains_rev(p, f[0]);
                let j = choose|j: int| 0 <= j < s.len() && s[j] == f[0];
                if j > 0 {
                    lemma_key_le_trans(k, x, s[0], s[j]);
                }
                assert(key_le(k, x, f[0]));
                assert(insert_sorted(k, x, f) == seq![x] + f);
            }
            assert(insert_sorted(k, x, s).filter(p) =~= seq![x] + f);
        } else {
            assert(insert_sorted(k, x, s).filter(p) =~= s.filter(p));
        }
    }
}

/// A stable sort commutes with any filter: dropping records and then
/// sorting gives the same sequence as sorting first and dropping the same
/// records.
pub proof fn lemma_sort_filter_commute(k: SortKey, s: Seq<Record>, p: spec_fn(Record) -> bool)
    ensures
        sort_by_key(k, s).filter(p) == sort_by_key(k, s.filter(p)),
    decreases s.len(),
{
    broadcast use Seq::lemma_filter_prepend;

    if s.len() == 0 {
        assert(s.filter(p) =~= Seq::<Record>::empty());
        assert(sort_by_key(k, s).filter(p) =~= Seq::<Record>::empty());
        assert(sort_by_key(k, s.filter(p)) =~= Seq::<Record>::empty());
    } else {
        let rest = s.drop_first();
        lemma_sort_filter_commute(k, rest, p);
        lemma_sort_sorted(k, rest);
        lemma_insert_filter_commute(k, s[0], sort_by_key(k, rest), p);
        assert(s =~= seq![s[0]] + rest);
        assert((seq![s[0]] + rest).filter(p) == (if p(s[0]) {
            seq![s[0]]
        } else {
            Seq::<Record>::empty()
        }) + rest.filter(p));
        if p(s[0]) {
            assert(s.filter(p) == seq![s[0]] + rest.filter(p));
            assert((seq![s[0]] + rest.filter(p))[0] == s[0]);
            assert((seq![s[0]] + rest.filter(p)).drop_first() =~= rest.filter(p));
            assert(sort_by_key(k, s.filter(p)) == insert_sorted(
                k,
                s[0],
                sort_by_key(k, rest.filter(p)),
            ));
        } else {
            assert(s.filter(p) == Seq::<Record>::empty() + rest.filter(p));
            assert(Seq::<Record>::empty() + rest.filter(p) =~= rest.filter(p));
        }
    }
}

/// Decides `key_le` on two records.
pub fn key_le_exec(k: &SortKey, a: &FileInfo, b: &FileInfo) -> (r: bool)
    ensures
        r == key_le(*k, a@, b@),
{
    match k {
        SortKey::Name => str_le(a.name.as_str(), b.name.as_str()),
        SortKey::Size => {
            let sa: u64 = match a.size {
                Some(s) => s,
                None => 0,
            };
            let sb: u64 = match b.size {
                Some(s) => s,
                None => 0,
            };
            sa <= sb
        },
        SortKey::Date => {
            let da: i64 = match a.modified {
                Some(m) => m,
                None => 0,
            };
            let db: i64 = match b.modified {
                Some(m) => m,
                None => 0,
            };
            da <= db
        },
        SortKey::Path => str_le(a.path.as_str(), b.path.as_str()),
    }
}

fn insert_record(k: &SortKey, x: FileInfo, v: Vec<FileInfo>) -> (r: Vec<FileInfo>)
    ensures
        views(r@) == insert_sorted(*k, x@, views(v@)),
    decreases v@.len(),
{
    let ghost orig = v@;
    if v.len() == 0 {
        let mut r = v;
        r.push(x);
        proof {
            assert(views(orig).len() == 0);
            assert(views(r@) =~= seq![x@]);
        }
        r
    } else if !key_le_exec(k, &x, &v[0]) {
        let mut v = v;
        let h = v.remove(0);
        proof {
            assert(views(v@) =~= views(orig).drop_first());
            assert(views(orig)[0] == h@);
        }
        let mut r = insert_record(k, x, v);
        r.insert(0, h);
        proof {
            assert(views(r@) =~= seq![h@] + insert_sorted(*k, x@, views(orig).drop_first()));
        }
        r
    } else {
        let mut v = v;
        v.insert(0, x);
        proof {
            assert(views(orig)[0] == orig[0]@);
            assert(views(v@) =~= seq![x@] + views(orig));
        }
        v
    }
}

/// Stable sort of the records under key `k`.
pub fn sort_records(k: &SortKey, v: Vec<FileInfo>) -> (r: Vec<FileInfo>)
    ensures
        views(r@) == sort_by_key(*k, views(v@)),
    decreases v@.len(),
{
    let ghost orig = v@;
    if v.len() == 0 {
        let ghost e = views(orig);
        proof {
            assert(e.len() == 0);
            assert(sort_by_key(*k, e) =~= e);
        }
        v
    } else {
        let mut v = v;
        let h = v.remove(0);
        proof {
            assert(views(v@) =~= views(orig).drop_first());
            assert(views(orig)[0] == h@);
        }
        let sorted = sort_records(k, v);
        insert_record(k, h, sorted)
    }
}

} // verus!
