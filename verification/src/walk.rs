use vstd::prelude::*;

use crate::order::{sort_by_key, sort_records, SortKey};
use crate::record::{
    inspect, join_path, path_of, record_of, views, FileInfo, FsEntry, FsTree, Record,
};
use crate::strings::{ends_with, hidden_name, is_hidden, str_ends_with, str_eq};

verus! {

/// The character sequence of an optional filter suffix.
pub open spec fn filt_chars(f: Option<&str>) -> Option<Seq<char>> {
    match f {
        Some(s) => Some(s@),
        None => None,
    }
}

/// Keep the records whose name ends with the filter suffix; no filter keeps
/// everything.
pub open spec fn apply_filter(s: Seq<Record>, filt: Option<Seq<char>>) -> Seq<Record> {
    match filt {
        Some(e) => s.filter(|r: Record| ends_with(r.name, e)),
        None => s,
    }
}

/// Everything one walk call returns for the directory contents `t` reached
/// at path `base`: the records collected from the visible entries (with the
/// subtree records already in their recursive order), sorted once at this
/// level, then filtered by suffix.
pub open spec fn walk_spec(
    t: FsTree,
    base: Seq<char>,
    show_hidden: bool,
    k: SortKey,
    filt: Option<Seq<char>>,
    recursive: bool,
) -> Seq<Record>
    decreases t,
{
    match t {
        FsTree::Missing => Seq::empty(),
        FsTree::Listing(es) => apply_filter(
            sort_by_key(k, collect_records(es@, base, show_hidden, k, filt, recursive)),
            filt,
        ),
    }
}

/// The records contributed by the entries of one directory, in enumeration
/// order, each directory followed by its subtree's records when recursion
/// is on.
pub open spec fn collect_records(
    es: Seq<FsEntry>,
    base: Seq<char>,
    show_hidden: bool,
    k: SortKey,
    filt: Option<Seq<char>>,
    recursive: bool,
) -> Seq<Record>
    decreases es,
{
    if es.len() == 0 {
        Seq::empty()
    } else {
        entry_records(es[0], base, show_hidden, k, filt, recursive) + collect_records(
            es.drop_first(),
            base,
            show_hidden,
            k,
            filt,
            recursive,
        )
    }
}

/// The records contributed by one entry: none when its metadata was
/// unreadable or it is suppressed as hidden; its own record, and, for a
/// directory walked recursively, the records of its subtree.
pub open spec fn entry_records(
    e: FsEntry,
    base: Seq<char>,
    show_hidden: bool,
    k: SortKey,
    filt: Option<Seq<char>>,
    recursive: bool,
) -> Seq<Record>
    decreases e,
{
    match e {
        FsEntry::Unreadable { .. } => Seq::empty(),
        FsEntry::File { name, meta } => {
            if show_hidden || !hidden_name(name@) {
                seq![record_of(base, name@, meta@, false)]
            } else {
                Seq::empty()
            }
        },
        FsEntry::Dir { name, meta, sub } => {
            if show_hidden || !hidden_name(name@) {
                seq![record_of(base, name@, meta@, true)] + (if recursive {
                    walk_spec(sub, path_of(base, name@), show_hidden, k, filt, recursive)
                } else {
                    Seq::empty()
                })
            } else {
                Seq::empty()
            }
        },
    }
}

fn filter_records(v: Vec<FileInfo>, filt: Option<&str>) -> (r: Vec<FileInfo>)
    ensures
        views(r@) == apply_filter(views(v@), filt_chars(filt)),
{
    broadcast use Seq::lemma_filter_push;

    match filt {
        None => v,
        Some(e) => {
            let ghost orig = v@;
            let ghost pred = |r: Record| ends_with(r.name, e@);
            let mut v = v;
            let mut out: Vec<FileInfo> = Vec::new();
            let ghost mut i: int = 0;
            proof {
                assert(views(orig.take(0)).filter(pred) =~= views(out@));
                assert(v@ =~= orig.skip(0));
            }
            while v.len() > 0
                invariant
                    0 <= i <= orig.len(),
                    v@ == orig.skip(i),
                    views(out@) == views(orig.take(i)).filter(pred),
                    pred == (|r: Record| ends_with(r.name, e@)),
                decreases v@.len(),
            {
                let f = v.remove(0);
                proof {
                    assert(orig.skip(i)[0] == orig[i]);
                    assert(orig.skip(i).drop_first() =~= orig.skip(i + 1));
                    assert(orig.take(i + 1) =~= orig.take(i).push(orig[i]));
                    assert(views(orig.take(i + 1)) =~= views(orig.take(i)).push(orig[i]@));
                }
                let keep = str_ends_with(f.name.as_str(), e);
                if keep {
                    let ghost prev = out@;
                    out.push(f);
                    proof {
                        assert(pred(orig[i]@));
                        assert(views(out@) =~= views(prev).push(orig[i]@));
                        views(orig.take(i)).lemma_filter_push(orig[i]@, pred);
                    }
                } else {
                    proof {
                        assert(!pred(orig[i]@));
                        views(orig.take(i)).lemma_filter_push(orig[i]@, pred);
                    }
                }
                proof {
                    i = i + 1;
                }
            }
            proof {
                assert(orig.take(i) =~= orig);
            }
            out
        },
    }
}

/// Walk the directory contents `t` reached at path `base`: skip unreadable
/// and suppressed entries, emit a record per remaining entry (and, with
/// recursion on, its subtree's records after it), sort the collection
/// stably by `k`, and filter by suffix last. An unreadable root yields an
/// empty collection.
pub fn explore_tree(
    tree: &FsTree,
    base: &str,
    show_hidden: bool,
    k: SortKey,
    filt: Option<&str>,
    recursive: bool,
) -> (r: Vec<FileInfo>)
    ensures
        views(r@) == walk_spec(*tree, base@, show_hidden, k, filt_chars(filt), recursive),
    decreases *tree,
{
    match tree {
        FsTree::Missing => Vec::new(),
        FsTree::Listing(es) => {
            let ghost all = es@;
            let ghost fc = filt_chars(filt);
            let mut out: Vec<FileInfo> = Vec::new();
            let mut i: usize = 0;
            proof {
                assert(all.skip(0) =~= all);
                assert(views(out@) + collect_records(all.skip(0), base@, show_hidden, k, fc, recursive)
                    =~= collect_records(all, base@, show_hidden, k, fc, recursive));
            }
            while i < es.len()
                invariant
                    i <= all.len(),
                    es@ == all,
                    views(out@) + collect_records(
                        all.skip(i as int),
                        base@,
                        show_hidden,
                        k,
                        fc,
                        recursive,
                    ) == collect_records(all, base@, show_hidden, k, fc, recursive),
                    fc == filt_chars(filt),
                    *tree == FsTree::Listing(*es),
                decreases all.len() - i,
            {
                proof {
                    assert(all.skip(i as int)[0] == all[i as int]);
                    assert(all.skip(i as int).drop_first() =~= all.skip(i as int + 1));
                }
                let ghost emitted = entry_records(all[i as int], base@, show_hidden, k, fc, recursive);
                let e = &es[i];
                match e {
                    FsEntry::Unreadable { .. } => {
                        proof {
                            assert(emitted =~= Seq::<Record>::empty());
                            assert(views(out@) + emitted =~= views(out@));
                        }
                    },
                    FsEntry::File { name, meta } => {
                        if show_hidden || !is_hidden(name.as_str()) {
                            let rec = inspect(base, name, meta, false);
                            out.push(rec);
                            proof {
                                assert(emitted =~= seq![rec@]);
                            }
                        } else {
                            proof {
                                assert(emitted =~= Seq::<Record>::empty());
                            }
                        }
                    },
                    FsEntry::Dir { name, meta, sub } => {
                        if show_hidden || !is_hidden(name.as_str()) {
                            let rec = inspect(base, name, meta, true);
                            out.push(rec);
                            if recursive {
                                let child = join_path(base, name.as_str());
                                proof {
                                    assert(decreases_to!(*tree => tree->Listing_0));
                                    assert(decreases_to!(tree->Listing_0 => tree->Listing_0@));
                                    assert(decreases_to!(tree->Listing_0@ => tree->Listing_0@[i as int]));
                                    assert(tree->Listing_0@[i as int] == *e);
                                    assert(decreases_to!(*e => e->Dir_sub));
                                    assert(e->Dir_sub == *sub);
                                }
                                let mut subrec = explore_tree(
                                    sub,
                                    child.as_str(),
                                    show_hidden,
                                    k,
                                    filt,
                                    recursive,
                                );
                                proof {
                                    assert(emitted =~= seq![rec@] + views(subrec@));
                                }
                                out.append(&mut subrec);
                            } else {
                                proof {
                                    assert(emitted =~= seq![rec@]);
                                }
                            }
                        } else {
                            proof {
                                assert(emitted =~= Seq::<Record>::empty());
                            }
                        }
                    },
                }
                proof {
                    assert(collect_records(all.skip(i as int), base@, show_hidden, k, fc, recursive)
                        == emitted + collect_records(
                        all.skip(i as int + 1),
                        base@,
                        show_hidden,
                        k,
                        fc,
                        recursive,
                    ));
                }
                i = i + 1;
            }
            proof {
                assert(all.skip(all.len() as int) =~= Seq::<FsEntry>::empty());
                assert(collect_records(all.skip(all.len() as int), base@, show_hidden, k, fc, recursive)
                    =~= Seq::<Record>::empty());
                assert(views(out@) + Seq::<Record>::empty() =~= views(out@));
            }
            let sorted = sort_records(&k, out);
            filter_records(sorted, filt)
        },
    }
}

/// The sort key a request names: `size`, `date` and `path` select those
/// orders; anything else falls back to ordering by name.
pub open spec fn sort_key_of(s: Seq<char>) -> SortKey {
    if s == "size"@ {
        SortKey::Size
    } else if s == "date"@ {
        SortKey::Date
    } else if s == "path"@ {
        SortKey::Path
    } else {
        SortKey::Name
    }
}

/// Parse a sort-key request, falling back to name order.
pub fn parse_sort_key(s: &str) -> (k: SortKey)
    ensures
        k == sort_key_of(s@),
{
    if str_eq(s, "size") {
        SortKey::Size
    } else if str_eq(s, "date") {
        SortKey::Date
    } else if str_eq(s, "path") {
        SortKey::Path
    } else {
        SortKey::Name
    }
}

/// Explore the directory contents `tree` reached at `dir_path`, with the
/// walk parameters the command line supplies: whether to include hidden
/// entries, the requested sort key (unrecognized names fall back to sorting
/// by name), an optional suffix filter, and whether to recurse.
pub fn explore_directory(
    tree: &FsTree,
    dir_path: &str,
    show_hidden: bool,
    sort_by: &str,
    filter_by: Option<&str>,
    recursive: bool,
) -> (r: Vec<FileInfo>)
    ensures
        views(r@) == walk_spec(
            *tree,
            dir_path@,
            show_hidden,
            sort_key_of(sort_by@),
            filt_chars(filter_by),
            recursive,
        ),
{
    let k = parse_sort_key(sort_by);
    explore_tree(tree, dir_path, show_hidden, k, filter_by, recursive)
}

} // verus!
