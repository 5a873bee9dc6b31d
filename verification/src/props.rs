use vstd::prelude::*;
use vstd::seq_lib::lemma_multiset_commutative;

use crate::order::{lemma_sort_multiset, sort_by_key, SortKey};
use crate::record::{path_of, record_of, FsEntry, FsTree, Record};
use crate::strings::{ends_with, hidden_name};
use crate::walk::{apply_filter, collect_records, entry_records, walk_spec};

verus! {

/// No record of `s` has a hidden name.
pub open spec fn none_hidden(s: Seq<Record>) -> bool {
    forall|i: int| 0 <= i < s.len() ==> !hidden_name(s[i].name)
}

/// The record a readable entry contributes for itself.
pub open spec fn own_record(e: FsEntry, base: Seq<char>) -> Record
    recommends
        !(e is Unreadable),
{
    match e {
        FsEntry::Unreadable { name } => record_of(base, name@, arbitrary(), false),
        FsEntry::File { name, meta } => record_of(base, name@, meta@, false),
        FsEntry::Dir { name, meta, .. } => record_of(base, name@, meta@, true),
    }
}

proof fn lemma_sorted_elems(k: SortKey, s: Seq<Record>)
    ensures
        forall|i: int|
            0 <= i < sort_by_key(k, s).len() ==> s.contains(#[trigger] sort_by_key(k, s)[i]),
{
    broadcast use vstd::seq_lib::group_to_multiset_ensures;

    lemma_sort_multiset(k, s);
    assert forall|i: int| 0 <= i < sort_by_key(k, s).len() implies s.contains(
        #[trigger] sort_by_key(k, s)[i],
    ) by {
        let r = sort_by_key(k, s)[i];
        assert(sort_by_key(k, s).contains(r));
        assert(sort_by_key(k, s).to_multiset().count(r) > 0);
        assert(s.to_multiset().count(r) > 0);
    }
}

/// Hidden suppression: with hidden entries suppressed, no returned record
/// has a hidden name — suppressed directories contribute nothing, so no
/// record from their subtrees appears either.
pub proof fn lemma_hidden_suppression(
    t: FsTree,
    base: Seq<char>,
    k: SortKey,
    filt: Option<Seq<char>>,
    recursive: bool,
)
    ensures
        none_hidden(walk_spec(t, base, false, k, filt, recursive)),
    decreases t,
{
    match t {
        FsTree::Missing => {},
        FsTree::Listing(es) => {
            lemma_collect_none_hidden(es@, base, k, filt, recursive);
            let c = collect_records(es@, base, false, k, filt, recursive);
            let sorted = sort_by_key(k, c);
            lemma_sorted_elems(k, c);
            assert forall|i: int| 0 <= i < sorted.len() implies !hidden_name(sorted[i].name) by {
                let r = sorted[i];
                assert(c.contains(r));
                let j = choose|j: int| 0 <= j < c.len() && c[j] == r;
            }
            match filt {
                None => {},
                Some(e) => {
                    let pred = |r: Record| ends_with(r.name, e);
                    let res = sorted.filter(pred);
                    assert forall|i: int| 0 <= i < res.len() implies !hidden_name(
                        res[i].name,
                    ) by {
                        assert(res.contains(res[i]));
                        sorted.lemma_filter_contains_rev(pred, res[i]);
                        let j = choose|j: int| 0 <= j < sorted.len() && sorted[j] == res[i];
                    }
                },
            }
        },
    }
}

proof fn lemma_collect_none_hidden(
    es: Seq<FsEntry>,
    base: Seq<char>,
    k: SortKey,
    filt: Option<Seq<char>>,
    recursive: bool,
)
    ensures
        none_hidden(collect_records(es, base, false, k, filt, recursive)),
    decreases es,
{
    if es.len() == 0 {
    } else {
        lemma_entry_none_hidden(es[0], base, k, filt, recursive);
        lemma_collect_none_hidden(es.drop_first(), base, k, filt, recursive);
        let left = entry_records(es[0], base, false, k, filt, recursive);
        let right = collect_records(es.drop_first(), base, false, k, filt, recursive);
        assert forall|i: int| 0 <= i < (left + right).len() implies !hidden_name(
            (left + right)[i].name,
        ) by {
            if i < left.len() {
                assert((left + right)[i] == left[i]);
            } else {
                assert((left + right)[i] == right[i - left.len()]);
            }
        }
    }
}

proof fn lemma_entry_none_hidden(
    e: FsEntry,
    base: Seq<char>,
    k: SortKey,
    filt: Option<Seq<char>>,
    recursive: bool,
)
    ensures
        none_hidden(entry_records(e, base, false, k, filt, recursive)),
    decreases e,
{
    match e {
        FsEntry::Unreadable { .. } => {},
        FsEntry::File { .. } => {},
        FsEntry::Dir { name, meta, sub } => {
            if !hidden_name(name@) && recursive {
                lemma_hidden_suppression(sub, path_of(base, name@), k, filt, recursive);
                let left = seq![record_of(base, name@, meta@, true)];
                let right = walk_spec(sub, path_of(base, name@), false, k, filt, recursive);
                assert forall|i: int| 0 <= i < (left + right).len() implies !hidden_name(
                    (left + right)[i].name,
                ) by {
                    if i >= left.len() {
                        assert((left + right)[i] == right[i - left.len()]);
                    }
                }
            }
        },
    }
}

/// Everything a walk can ever return for `t`: every entry whose metadata
/// was readable, files and directories alike, each paired with the records
/// of its whole subtree.
pub open spec fn reachable_records(t: FsTree, base: Seq<char>) -> Seq<Record>
    decreases t,
{
    match t {
        FsTree::Missing => Seq::empty(),
        FsTree::Listing(es) => reachable_of_entries(es@, base),
    }
}

/// The reachable records of a directory's entries, in enumeration order.
pub open spec fn reachable_of_entries(es: Seq<FsEntry>, base: Seq<char>) -> Seq<Record>
    decreases es,
{
    if es.len() == 0 {
        Seq::empty()
    } else {
        reachable_of_entry(es[0], base) + reachable_of_entries(es.drop_first(), base)
    }
}

/// The reachable records of one entry: itself when readable, and, below a
/// directory, everything reachable in its subtree.
pub open spec fn reachable_of_entry(e: FsEntry, base: Seq<char>) -> Seq<Record>
    decreases e,
{
    match e {
        FsEntry::Unreadable { .. } => Seq::empty(),
        FsEntry::File { .. } => seq![own_record(e, base)],
        FsEntry::Dir { name, meta, sub } => seq![own_record(e, base)] + reachable_records(
            sub,
            path_of(base, name@),
        ),
    }
}

/// Recursive completeness: a recursive walk that shows hidden entries and
/// filters nothing returns exactly the reachable records — every readable
/// file and directory in the tree contributes its record exactly as often
/// as the tree reaches it.
pub proof fn lemma_recursive_completeness(t: FsTree, base: Seq<char>, k: SortKey)
    ensures
        walk_spec(t, base, true, k, None, true).to_multiset() == reachable_records(
            t,
            base,
        ).to_multiset(),
    decreases t,
{
    match t {
        FsTree::Missing => {},
        FsTree::Listing(es) => {
            lemma_collect_complete(es@, base, k);
            lemma_sort_multiset(k, collect_records(es@, base, true, k, None, true));
        },
    }
}

proof fn lemma_collect_complete(es: Seq<FsEntry>, base: Seq<char>, k: SortKey)
    ensures
        collect_records(es, base, true, k, None, true).to_multiset() == reachable_of_entries(
            es,
            base,
        ).to_multiset(),
    decreases es,
{
    if es.len() == 0 {
    } else {
        lemma_entry_complete(es[0], base, k);
        lemma_collect_complete(es.drop_first(), base, k);
        lemma_multiset_commutative(
            entry_records(es[0], base, true, k, None, true),
            collect_records(es.drop_first(), base, true, k, None, true),
        );
        lemma_multiset_commutative(
            reachable_of_entry(es[0], base),
            reachable_of_entries(es.drop_first(), base),
        );
    }
}

proof fn lemma_entry_complete(e: FsEntry, base: Seq<char>, k: SortKey)
    ensures
        entry_records(e, base, true, k, None, true).to_multiset() == reachable_of_entry(
            e,
            base,
        ).to_multiset(),
    decreases e,
{
    match e {
        FsEntry::Unreadable { .. } => {},
        FsEntry::File { .. } => {},
        FsEntry::Dir { name, meta, sub } => {
            lemma_recursive_completeness(sub, path_of(base, name@), k);
            lemma_multiset_commutative(
                seq![record_of(base, name@, meta@, true)],
                walk_spec(sub, path_of(base, name@), true, k, None, true),
            );
            lemma_multiset_commutative(
                seq![record_of(base, name@, meta@, true)],
                reachable_records(sub, path_of(base, name@)),
            );
        },
    }
}

/// When the reachable records are pairwise distinct — as they are for a
/// real directory tree, whose entries carry distinct paths — every
/// reachable file and directory appears in the recursive walk exactly once.
pub proof fn lemma_walk_no_duplicates(t: FsTree, base: Seq<char>, k: SortKey)
    requires
        reachable_records(t, base).no_duplicates(),
    ensures
        walk_spec(t, base, true, k, None, true).no_duplicates(),
{
    lemma_recursive_completeness(t, base, k);
    reachable_records(t, base).lemma_multiset_has_no_duplicates();
    walk_spec(t, base, true, k, None, true).lemma_multiset_has_no_duplicates_conv();
}

/// No character of `s` is a path separator.
pub open spec fn slash_free(s: Seq<char>) -> bool {
    forall|i: int| 0 <= i < s.len() ==> s[i] != '/'
}

/// A well-formed entry, as directory enumeration yields them: a nonempty
/// name without a separator, and a well-formed subtree below a directory.
pub open spec fn wf_entry(e: FsEntry) -> bool
    decreases e,
{
    e.name_chars().len() > 0 && slash_free(e.name_chars()) && match e {
        FsEntry::Dir { sub, .. } => wf_tree(sub),
        _ => true,
    }
}

/// Well-formed entries of one directory: each well formed, with names
/// distinct within the directory.
pub open spec fn wf_entries(es: Seq<FsEntry>) -> bool
    decreases es,
{
    es.len() == 0 || (wf_entry(es[0]) && (forall|j: int|
        1 <= j < es.len() ==> (#[trigger] es[j]).name_chars() != es[0].name_chars())
        && wf_entries(es.drop_first()))
}

/// A well-formed tree: every listed directory holds well-formed entries.
pub open spec fn wf_tree(t: FsTree) -> bool
    decreases t,
{
    match t {
        FsTree::Missing => true,
        FsTree::Listing(es) => wf_entries(es@),
    }
}

/// `p` is the path of the entry named `n` inside `base`, or of something
/// below that entry: it extends `base + '/' + n`, and what follows, if
/// anything, starts at a separator.
pub open spec fn path_under(p: Seq<char>, base: Seq<char>, n: Seq<char>) -> bool {
    &&& p.len() >= base.len() + 1 + n.len()
    &&& p.subrange(0, (base.len() + 1 + n.len()) as int) == path_of(base, n)
    &&& (p.len() == base.len() + 1 + n.len() || p[(base.len() + 1 + n.len()) as int] == '/')
}

/// The path `p` lies under one of the entries `es`.
pub open spec fn under_some_entry(es: Seq<FsEntry>, base: Seq<char>, p: Seq<char>) -> bool {
    exists|i: int| 0 <= i < es.len() && path_under(p, base, es[i].name_chars())
}

proof fn lemma_wf_entries_index(es: Seq<FsEntry>, i: int)
    requires
        wf_entries(es),
        0 <= i < es.len(),
    ensures
        wf_entry(es[i]),
    decreases es,
{
    if i > 0 {
        lemma_wf_entries_index(es.drop_first(), i - 1);
        assert(es.drop_first()[i - 1] == es[i]);
    }
}

proof fn lemma_name_decomposition(a: Seq<char>, b: Seq<char>, c: Seq<char>, d: Seq<char>)
    requires
        slash_free(a),
        slash_free(c),
        b.len() == 0 || b[0] == '/',
        d.len() == 0 || d[0] == '/',
        a + b == c + d,
    ensures
        a == c,
{
    assert((a + b).len() == (c + d).len());
    if a.len() < c.len() {
        if b.len() == 0 {
            assert(false);
        } else {
            assert((a + b)[a.len() as int] == b[0]);
            assert((c + d)[a.len() as int] == c[a.len() as int]);
            assert(false);
        }
    } else if c.len() < a.len() {
        if d.len() == 0 {
            assert(false);
        } else {
            assert((c + d)[c.len() as int] == d[0]);
            assert((a + b)[c.len() as int] == a[c.len() as int]);
            assert(false);
        }
    } else {
        assert forall|i: int| 0 <= i < a.len() implies a[i] == c[i] by {
            assert((a + b)[i] == a[i]);
            assert((c + d)[i] == c[i]);
        }
        assert(a =~= c);
    }
}

proof fn lemma_path_under_same_name(p: Seq<char>, base: Seq<char>, n1: Seq<char>, n2: Seq<char>)
    requires
        path_under(p, base, n1),
        path_under(p, base, n2),
        slash_free(n1),
        slash_free(n2),
    ensures
        n1 == n2,
{
    let q = p.subrange((base.len() + 1) as int, p.len() as int);
    let t1 = p.subrange((base.len() + 1 + n1.len()) as int, p.len() as int);
    let t2 = p.subrange((base.len() + 1 + n2.len()) as int, p.len() as int);
    assert forall|i: int| 0 <= i < n1.len() implies q[i] == n1[i] by {
        assert(p.subrange(0, (base.len() + 1 + n1.len()) as int)[base.len() + 1 + i] == n1[i]);
    }
    assert(q =~= n1 + t1);
    assert forall|i: int| 0 <= i < n2.len() implies q[i] == n2[i] by {
        assert(p.subrange(0, (base.len() + 1 + n2.len()) as int)[base.len() + 1 + i] == n2[i]);
    }
    assert(q =~= n2 + t2);
    lemma_name_decomposition(n1, t1, n2, t2);
}

proof fn lemma_entry_paths(e: FsEntry, base: Seq<char>)
    requires
        wf_entry(e),
    ensures
        reachable_of_entry(e, base).no_duplicates(),
        forall|idx: int|
            0 <= idx < reachable_of_entry(e, base).len() ==> path_under(
                #[trigger] reachable_of_entry(e, base)[idx].path,
                base,
                e.name_chars(),
            ),
    decreases e,
{
    let n = e.name_chars();
    let stem = path_of(base, n);
    match e {
        FsEntry::Unreadable { .. } => {},
        FsEntry::File { .. } => {
            assert(reachable_of_entry(e, base)[0].path == stem);
            assert(stem.subrange(0, (base.len() + 1 + n.len()) as int) =~= stem);
        },
        FsEntry::Dir { name, sub, .. } => {
            let own = own_record(e, base);
            assert(own.path == stem);
            assert(stem.subrange(0, (base.len() + 1 + n.len()) as int) =~= stem);
            lemma_tree_paths(sub, stem);
            let rs = reachable_records(sub, stem);
            let whole = seq![own] + rs;
            assert forall|idx: int| 0 <= idx < rs.len() implies path_under(
                rs[idx].path,
                base,
                n,
            ) && rs[idx].path.len() > stem.len() by {
                match sub {
                    FsTree::Missing => {},
                    FsTree::Listing(ses) => {
                        assert(under_some_entry(ses@, stem, rs[idx].path));
                        let j = choose|j: int|
                            0 <= j < ses@.len() && path_under(
                                rs[idx].path,
                                stem,
                                ses@[j].name_chars(),
                            );
                        let m = ses@[j].name_chars();
                        let p = rs[idx].path;
                        assert(p.subrange(0, (stem.len() + 1 + m.len()) as int)[stem.len() as int]
                            == path_of(stem, m)[stem.len() as int]);
                        assert(p[stem.len() as int] == '/');
                        assert forall|i: int| 0 <= i < stem.len() implies p[i] == stem[i] by {
                            assert(p.subrange(0, (stem.len() + 1 + m.len()) as int)[i] == path_of(
                                stem,
                                m,
                            )[i]);
                        }
                        assert(p.subrange(0, (base.len() + 1 + n.len()) as int) =~= stem);
                    },
                }
            }
            assert forall|i: int, j: int|
                0 <= i < j < whole.len() implies whole[i] != whole[j] by {
                if i == 0 {
                    assert(whole[j] == rs[j - 1]);
                    assert(rs[j - 1].path.len() > stem.len());
                } else {
                    assert(whole[i] == rs[i - 1]);
                    assert(whole[j] == rs[j - 1]);
                }
            }
            assert forall|idx: int| 0 <= idx < whole.len() implies path_under(
                #[trigger] whole[idx].path,
                base,
                n,
            ) by {
                if idx > 0 {
                    assert(whole[idx] == rs[idx - 1]);
                }
            }
        },
    }
}

proof fn lemma_entries_paths(es: Seq<FsEntry>, base: Seq<char>)
    requires
        wf_entries(es),
    ensures
        reachable_of_entries(es, base).no_duplicates(),
        forall|idx: int|
            0 <= idx < reachable_of_entries(es, base).len() ==> under_some_entry(
                es,
                base,
                #[trigger] reachable_of_entries(es, base)[idx].path,
            ),
    decreases es,
{
    if es.len() == 0 {
    } else {
        let rest = es.drop_first();
        lemma_entry_paths(es[0], base);
        lemma_entries_paths(rest, base);
        let left = reachable_of_entry(es[0], base);
        let right = reachable_of_entries(rest, base);
        let whole = left + right;
        let n0 = es[0].name_chars();
        assert forall|i: int, j: int| 0 <= i < j < whole.len() implies whole[i] != whole[j] by {
            if i < left.len() && j < left.len() {
            } else if i >= left.len() && j >= left.len() {
                assert(whole[i] == right[i - left.len()]);
                assert(whole[j] == right[j - left.len()]);
            } else {
                assert(whole[i] == left[i]);
                assert(whole[j] == right[j - left.len()]);
                assert(path_under(left[i].path, base, n0));
                assert(under_some_entry(rest, base, right[j - left.len()].path));
                let m = choose|m: int|
                    0 <= m < rest.len() && path_under(
                        right[j - left.len()].path,
                        base,
                        rest[m].name_chars(),
                    );
                assert(rest[m] == es[m + 1]);
                assert(rest[m].name_chars() != n0);
                lemma_wf_entries_index(rest, m);
                if whole[i] == whole[j] {
                    lemma_path_under_same_name(
                        left[i].path,
                        base,
                        n0,
                        rest[m].name_chars(),
                    );
                }
            }
        }
        assert forall|idx: int| 0 <= idx < whole.len() implies under_some_entry(
            es,
            base,
            #[trigger] whole[idx].path,
        ) by {
            if idx < left.len() {
                assert(path_under(whole[idx].path, base, es[0].name_chars()));
            } else {
                assert(whole[idx] == right[idx - left.len()]);
                let m = choose|m: int|
                    0 <= m < rest.len() && path_under(
                        right[idx - left.len()].path,
                        base,
                        rest[m].name_chars(),
                    );
                assert(rest[m] == es[m + 1]);
                assert(path_under(whole[idx].path, base, es[m + 1].name_chars()));
            }
        }
    }
}

proof fn lemma_tree_paths(t: FsTree, base: Seq<char>)
    requires
        wf_tree(t),
    ensures
        reachable_records(t, base).no_duplicates(),
        forall|idx: int|
            0 <= idx < reachable_records(t, base).len() ==> (t matches FsTree::Listing(es)
                && under_some_entry(
                es@,
                base,
                #[trigger] reachable_records(t, base)[idx].path,
            )),
    decreases t,
{
    match t {
        FsTree::Missing => {},
        FsTree::Listing(es) => {
            lemma_entries_paths(es@, base);
        },
    }
}

/// Recursive completeness for a well-formed tree, with uniqueness: the
/// recursive, unfiltered walk that shows hidden entries returns every
/// readable file and directory reachable from the root exactly once.
pub proof fn lemma_recursive_completeness_unique(t: FsTree, base: Seq<char>, k: SortKey)
    requires
        wf_tree(t),
    ensures
        walk_spec(t, base, true, k, None, true).to_multiset() == reachable_records(
            t,
            base,
        ).to_multiset(),
        walk_spec(t, base, true, k, None, true).no_duplicates(),
{
    lemma_recursive_completeness(t, base, k);
    lemma_tree_paths(t, base);
    lemma_walk_no_duplicates(t, base, k);
}

proof fn lemma_collect_contains(
    es: Seq<FsEntry>,
    base: Seq<char>,
    show_hidden: bool,
    k: SortKey,
    filt: Option<Seq<char>>,
    recursive: bool,
    i: int,
    r: Record,
)
    requires
        0 <= i < es.len(),
        entry_records(es[i], base, show_hidden, k, filt, recursive).contains(r),
    ensures
        collect_records(es, base, show_hidden, k, filt, recursive).contains(r),
    decreases es,
{
    let left = entry_records(es[0], base, show_hidden, k, filt, recursive);
    let right = collect_records(es.drop_first(), base, show_hidden, k, filt, recursive);
    if i == 0 {
        let j = choose|j: int| 0 <= j < left.len() && left[j] == r;
        assert((left + right)[j] == r);
    } else {
        assert(es.drop_first()[i - 1] == es[i]);
        lemma_collect_contains(es.drop_first(), base, show_hidden, k, filt, recursive, i - 1, r);
        let j = choose|j: int| 0 <= j < right.len() && right[j] == r;
        assert((left + right)[left.len() + j] == r);
    }
}

/// Missing-field tolerance: every visible entry of the walked directory
/// whose metadata was readable appears in the unfiltered walk result with
/// its own record — whose `modified` field is exactly the optional
/// timestamp the metadata held, absent when it could not be read, while
/// `size` and the directory flag are always present.
pub proof fn lemma_missing_field_tolerance(
    t: FsTree,
    base: Seq<char>,
    show_hidden: bool,
    k: SortKey,
    recursive: bool,
    i: int,
)
    requires
        t is Listing,
        0 <= i < t->Listing_0@.len(),
        t->Listing_0@[i].visible(show_hidden),
    ensures
        walk_spec(t, base, show_hidden, k, None, recursive).contains(
            own_record(t->Listing_0@[i], base),
        ),
        t->Listing_0@[i] matches FsEntry::File { meta, .. } ==> own_record(t->Listing_0@[i], base)
            == (Record {
            name: t->Listing_0@[i].name_chars(),
            path: path_of(base, t->Listing_0@[i].name_chars()),
            size: Some(meta@.size),
            modified: meta@.modified,
            is_dir: false,
            permissions: match meta@.mode {
                Some(b) => Some(crate::record::mode_string(b)),
                None => None,
            },
            owner: meta@.owner,
            group: meta@.group,
        }),
{
    broadcast use vstd::seq_lib::group_to_multiset_ensures;

    let es = t->Listing_0;
    let e = es@[i];
    let r = own_record(e, base);
    assert(entry_records(e, base, show_hidden, k, None, recursive).contains(r)) by {
        match e {
            FsEntry::Unreadable { .. } => {},
            FsEntry::File { .. } => {
                assert(entry_records(e, base, show_hidden, k, None, recursive)[0] == r);
            },
            FsEntry::Dir { .. } => {
                assert(entry_records(e, base, show_hidden, k, None, recursive)[0] == r);
            },
        }
    }
    lemma_collect_contains(es@, base, show_hidden, k, None, recursive, i, r);
    let c = collect_records(es@, base, show_hidden, k, None, recursive);
    lemma_sort_multiset(k, c);
    assert(c.to_multiset().count(r) > 0);
    assert(sort_by_key(k, c).to_multiset().count(r) > 0);
    assert(sort_by_key(k, c).contains(r));
}

/// Filter correctness, first half: with a suffix filter, every returned
/// record's name ends with the suffix.
pub proof fn lemma_filter_names(
    t: FsTree,
    base: Seq<char>,
    show_hidden: bool,
    k: SortKey,
    e: Seq<char>,
    recursive: bool,
    i: int,
)
    requires
        0 <= i < walk_spec(t, base, show_hidden, k, Some(e), recursive).len(),
    ensures
        ends_with(walk_spec(t, base, show_hidden, k, Some(e), recursive)[i].name, e),
{
    match t {
        FsTree::Missing => {},
        FsTree::Listing(es) => {
            let c = collect_records(es@, base, show_hidden, k, Some(e), recursive);
            let sorted = sort_by_key(k, c);
            let pred = |r: Record| ends_with(r.name, e);
            sorted.lemma_filter_pred(pred, i);
        },
    }
}

proof fn lemma_filter_all(s: Seq<Record>, p: spec_fn(Record) -> bool)
    requires
        forall|i: int| 0 <= i < s.len() ==> p(s[i]),
    ensures
        s.filter(p) == s,
    decreases s.len(),
{
    broadcast use Seq::lemma_filter_push;

    if s.len() == 0 {
        assert(s.filter(p) =~= s);
    } else {
        let pre = s.drop_last();
        lemma_filter_all(pre, p);
        assert(s =~= pre.push(s.last()));
        assert(p(s.last()));
        assert(pre.push(s.last()).filter(p) == pre.filter(p).push(s.last()));
    }
}

proof fn lemma_filter_idempotent(s: Seq<Record>, p: spec_fn(Record) -> bool)
    ensures
        s.filter(p).filter(p) == s.filter(p),
{
    let f = s.filter(p);
    assert forall|i: int| 0 <= i < f.len() implies p(f[i]) by {
        s.lemma_filter_pred(p, i);
    }
    lemma_filter_all(f, p);
}

proof fn lemma_filter_entry(
    e: FsEntry,
    base: Seq<char>,
    show_hidden: bool,
    k: SortKey,
    x: Seq<char>,
    recursive: bool,
)
    ensures
        entry_records(e, base, show_hidden, k, Some(x), recursive).filter(
            |r: Record| ends_with(r.name, x),
        ) == entry_records(e, base, show_hidden, k, None, recursive).filter(
            |r: Record| ends_with(r.name, x),
        ),
    decreases e,
{
    broadcast use Seq::lemma_filter_prepend;

    let p = |r: Record| ends_with(r.name, x);
    match e {
        FsEntry::Unreadable { .. } => {},
        FsEntry::File { .. } => {},
        FsEntry::Dir { name, meta, sub } => {
            if (show_hidden || !hidden_name(name@)) && recursive {
                lemma_filter_subsequence(sub, path_of(base, name@), show_hidden, k, x, recursive);
                let child = path_of(base, name@);
                let wf = walk_spec(sub, child, show_hidden, k, Some(x), recursive);
                let wn = walk_spec(sub, child, show_hidden, k, None, recursive);
                assert(wf == wn.filter(p));
                lemma_filter_idempotent(wn, p);
                assert(wf.filter(p) == wn.filter(p));
                let rec = record_of(base, name@, meta@, true);
                assert((seq![rec] + wf).filter(p) == (if p(rec) {
                    seq![rec]
                } else {
                    Seq::<Record>::empty()
                }) + wf.filter(p));
                assert((seq![rec] + wn).filter(p) == (if p(rec) {
                    seq![rec]
                } else {
                    Seq::<Record>::empty()
                }) + wn.filter(p));
            }
        },
    }
}

proof fn lemma_filter_collect(
    es: Seq<FsEntry>,
    base: Seq<char>,
    show_hidden: bool,
    k: SortKey,
    x: Seq<char>,
    recursive: bool,
)
    ensures
        collect_records(es, base, show_hidden, k, Some(x), recursive).filter(
            |r: Record| ends_with(r.name, x),
        ) == collect_records(es, base, show_hidden, k, None, recursive).filter(
            |r: Record| ends_with(r.name, x),
        ),
    decreases es,
{
    broadcast use Seq::filter_distributes_over_add;

    let p = |r: Record| ends_with(r.name, x);
    if es.len() == 0 {
    } else {
        lemma_filter_entry(es[0], base, show_hidden, k, x, recursive);
        lemma_filter_collect(es.drop_first(), base, show_hidden, k, x, recursive);
        let lf = entry_records(es[0], base, show_hidden, k, Some(x), recursive);
        let rf = collect_records(es.drop_first(), base, show_hidden, k, Some(x), recursive);
        let ln = entry_records(es[0], base, show_hidden, k, None, recursive);
        let rn = collect_records(es.drop_first(), base, show_hidden, k, None, recursive);
        assert((lf + rf).filter(p) == lf.filter(p) + rf.filter(p));
        assert((ln + rn).filter(p) == ln.filter(p) + rn.filter(p));
    }
}

/// Filter correctness, second half: the filtered output is exactly the
/// suffix filter of the sorted, unfiltered output — an order-preserving
/// subsequence of it.
pub proof fn lemma_filter_subsequence(
    t: FsTree,
    base: Seq<char>,
    show_hidden: bool,
    k: SortKey,
    e: Seq<char>,
    recursive: bool,
)
    ensures
        walk_spec(t, base, show_hidden, k, Some(e), recursive) == apply_filter(
            walk_spec(t, base, show_hidden, k, None, recursive),
            Some(e),
        ),
    decreases t,
{
    let pred = |r: Record| ends_with(r.name, e);
    match t {
        FsTree::Missing => {
            assert(Seq::<Record>::empty().filter(pred) =~= Seq::<Record>::empty());
        },
        FsTree::Listing(es) => {
            lemma_filter_collect(es@, base, show_hidden, k, e, recursive);
            let cf = collect_records(es@, base, show_hidden, k, Some(e), recursive);
            let cn = collect_records(es@, base, show_hidden, k, None, recursive);
            crate::order::lemma_sort_filter_commute(k, cf, pred);
            crate::order::lemma_sort_filter_commute(k, cn, pred);
            assert(sort_by_key(k, cf).filter(pred) == sort_by_key(k, cf.filter(pred)));
            assert(sort_by_key(k, cn).filter(pred) == sort_by_key(k, cn.filter(pred)));
        },
    }
}

} // verus!
