//! The laws of the store, proved over the spec-level transition
//! functions that every operation's contract is stated against.

use vstd::prelude::*;

use crate::dir::EntryView;
use crate::dir::entry_names;
use crate::dir::file_names;
use crate::dir::files_only;
use crate::dir::lemma_file_names_unique;
use crate::dir::lemma_files_only_lookup;
use crate::dir::lemma_files_only_names;
use crate::dir::lemma_write_all_fresh;
use crate::dir::lemma_write_all_lookup;
use crate::dir::lookup;
use crate::dir::names_unique;
use crate::dir::subdir_names;
use crate::dir::write_all;
use crate::store::BlueprintView;
use crate::store::StoreError;
use crate::store::create_outcome;
use crate::store::create_spec;
use crate::store::entries_of;
use crate::store::error_exit_spec;
use crate::store::new_outcome;
use crate::store::new_spec;
use crate::store::remove_outcome;
use crate::store::remove_spec;
use crate::store::store_has;
use crate::store::store_names;

verus! {

/// How often a name occurs in a name sequence.
pub open spec fn count_name(t: Seq<Seq<char>>, n: Seq<char>) -> nat
    decreases t.len(),
{
    if t.len() == 0 {
        0
    } else {
        (if t[0] == n {
            1nat
        } else {
            0nat
        }) + count_name(t.drop_first(), n)
    }
}

/// A name sequence holds a name not at all exactly when it does not
/// contain it.
pub proof fn lemma_count_zero(t: Seq<Seq<char>>, n: Seq<char>)
    ensures
        count_name(t, n) == 0 <==> !t.contains(n),
    decreases t.len(),
{
    if t.len() == 0 {
    } else {
        crate::dir::lemma_contains_head(t, n);
        lemma_count_zero(t.drop_first(), n);
    }
}

/// Appending a name raises its count by one.
pub proof fn lemma_count_push(t: Seq<Seq<char>>, n: Seq<char>)
    ensures
        count_name(t.push(n), n) == count_name(t, n) + 1,
    decreases t.len(),
{
    let p = t.push(n);
    if t.len() == 0 {
        assert(p[0] == n);
        assert(p.drop_first() =~= Seq::<Seq<char>>::empty());
        assert(count_name(Seq::<Seq<char>>::empty(), n) == 0);
        assert(count_name(p, n) == 1 + count_name(p.drop_first(), n));
    } else {
        lemma_count_push(t.drop_first(), n);
        assert(p[0] == t[0]);
        assert(p.drop_first() =~= t.drop_first().push(n));
    }
}

/// The names of a store after a snapshot: the fresh name is appended.
pub proof fn lemma_new_spec_names(s: Seq<BlueprintView>, src: Seq<EntryView>, n: Seq<char>)
    requires
        !store_has(s, n),
    ensures
        store_names(new_spec(s, src, n)) == store_names(s).push(n),
{
    assert(store_names(new_spec(s, src, n)) =~= store_names(s).push(n));
}

/// A snapshot keeps the store's names distinct.
pub proof fn lemma_new_spec_unique(s: Seq<BlueprintView>, src: Seq<EntryView>, n: Seq<char>)
    requires
        names_unique(store_names(s)),
    ensures
        names_unique(store_names(new_spec(s, src, n))),
{
    if !store_has(s, n) {
        lemma_new_spec_names(s, src, n);
        let t = store_names(s).push(n);
        assert forall|a: int, b: int| 0 <= a < b < t.len() implies t[a] != t[b] by {
            if b == t.len() - 1 {
                assert(store_names(s).contains(t[a]) ==> t[a] != n) by {
                    if t[a] == n {
                        assert(store_names(s)[a] == n);
                    }
                }
                assert(store_names(s)[a] == t[a]);
            }
        }
    }
}

/// Law: a snapshot under a fresh name, then a listing, shows that
/// name exactly once.
pub proof fn lemma_snapshot_then_list_once(
    s: Seq<BlueprintView>,
    src: Seq<EntryView>,
    n: Seq<char>,
)
    requires
        names_unique(store_names(s)),
        !store_has(s, n),
    ensures
        count_name(store_names(new_spec(s, src, n)), n) == 1,
{
    lemma_new_spec_names(s, src, n);
    lemma_count_zero(store_names(s), n);
    lemma_count_push(store_names(s), n);
}

/// Removal takes away every trace of the name, when names were
/// distinct to begin with.
pub proof fn lemma_remove_gone(s: Seq<BlueprintView>, n: Seq<char>)
    requires
        names_unique(store_names(s)),
    ensures
        !store_has(remove_spec(s, n), n),
    decreases s.len(),
{
    if s.len() == 0 {
        assert(store_names(s) =~= Seq::<Seq<char>>::empty());
        assert(store_names(remove_spec(s, n)) =~= Seq::<Seq<char>>::empty());
    } else {
        assert(store_names(s)[0] == s[0].name);
        assert(store_names(s.drop_first()) =~= store_names(s).drop_first());
        assert(names_unique(store_names(s.drop_first())));
        if s[0].name == n {
            assert(remove_spec(s, n) == s.drop_first());
            if store_has(s.drop_first(), n) {
                let j = choose|j: int|
                    0 <= j < store_names(s.drop_first()).len() && store_names(s.drop_first())[j]
                        == n;
                assert(store_names(s)[j + 1] == store_names(s)[0]);
            }
        } else {
            lemma_remove_gone(s.drop_first(), n);
            let r = remove_spec(s, n);
            assert(r == seq![s[0]] + remove_spec(s.drop_first(), n));
            assert(store_names(r) =~= seq![s[0].name] + store_names(
                remove_spec(s.drop_first(), n),
            ));
            if store_has(r, n) {
                let j = choose|j: int|
                    0 <= j < store_names(r).len() && store_names(r)[j] == n;
                if j == 0 {
                    assert(store_names(r)[0] == s[0].name);
                } else {
                    assert(store_names(remove_spec(s.drop_first(), n))[j - 1] == n);
                }
            }
        }
    }
}

/// Law: a snapshot of a name, then its removal, leaves a store whose
/// listing no longer shows the name, whether or not the snapshot was
/// refused.
pub proof fn lemma_snapshot_then_remove(s: Seq<BlueprintView>, src: Seq<EntryView>, n: Seq<char>)
    requires
        names_unique(store_names(s)),
    ensures
        !store_has(remove_spec(new_spec(s, src, n), n), n),
{
    lemma_new_spec_unique(s, src, n);
    lemma_remove_gone(new_spec(s, src, n), n);
}

/// Law: snapshotting a taken name changes nothing and reports exit
/// status one.
pub proof fn lemma_snapshot_existing(s: Seq<BlueprintView>, src: Seq<EntryView>, n: Seq<char>)
    requires
        store_has(s, n),
    ensures
        new_spec(s, src, n) == s,
        new_outcome(s, n) == Err::<(), StoreError>(StoreError::AlreadyExists),
        error_exit_spec(StoreError::AlreadyExists) == 1,
{
}

/// Law: instantiating or removing an absent name changes nothing and
/// reports exit status one.
pub proof fn lemma_absent_refused(d: Seq<EntryView>, s: Seq<BlueprintView>, n: Seq<char>)
    requires
        !store_has(s, n),
    ensures
        create_spec(d, s, n) == d,
        create_outcome(s, n) == Err::<(), StoreError>(StoreError::DoesNotExist),
        remove_spec(s, n) == s,
        remove_outcome(s, n) == Err::<(), StoreError>(StoreError::DoesNotExist),
        error_exit_spec(StoreError::DoesNotExist) == 1,
{
    crate::store::lemma_remove_spec_absent(s, n);
}

/// A fresh snapshot's entries are found again under its name.
pub proof fn lemma_entries_of_push_fresh(s: Seq<BlueprintView>, b: BlueprintView)
    requires
        !store_has(s, b.name),
    ensures
        entries_of(s.push(b), b.name) == b.entries,
        store_has(s.push(b), b.name),
    decreases s.len(),
{
    let p = s.push(b);
    assert(store_names(p)[p.len() - 1] == b.name);
    if s.len() == 0 {
        assert(p[0] == b);
    } else {
        assert(store_names(s)[0] == s[0].name);
        assert(s[0].name != b.name);
        assert(!store_has(s.drop_first(), b.name)) by {
            if store_has(s.drop_first(), b.name) {
                let j = choose|j: int|
                    0 <= j < store_names(s.drop_first()).len() && store_names(s.drop_first())[j]
                        == b.name;
                assert(store_names(s)[j + 1] == b.name);
            }
        }
        lemma_entries_of_push_fresh(s.drop_first(), b);
        assert(p[0] == s[0]);
        assert(p.drop_first() =~= s.drop_first().push(b));
        assert(entries_of(p, b.name) == entries_of(s.drop_first().push(b), b.name));
    }
}

/// Law: the round trip. A snapshot of a source under a fresh name,
/// instantiated into an empty directory, yields exactly the source's
/// regular files, byte for byte, and no subdirectory.
pub proof fn lemma_round_trip(s: Seq<BlueprintView>, src: Seq<EntryView>, n: Seq<char>)
    requires
        names_unique(store_names(s)),
        !store_has(s, n),
        names_unique(entry_names(src)),
    ensures
        create_spec(Seq::empty(), new_spec(s, src, n), n) == files_only(src),
        subdir_names(files_only(src)) == Seq::<Seq<char>>::empty(),
        forall|m: Seq<char>| #![auto] lookup(files_only(src), m) == lookup(src, m),
        create_outcome(new_spec(s, src, n), n) == Ok::<(), StoreError>(()),
{
    let b = BlueprintView { name: n, entries: files_only(src) };
    let s2 = new_spec(s, src, n);
    assert(s2 == s.push(b));
    lemma_entries_of_push_fresh(s, b);
    lemma_files_only_names(src);
    lemma_file_names_unique(src);
    assert(files_only(entries_of(s2, n)) == files_only(src));
    assert(names_unique(file_names(files_only(src))));
    assert(forall|m: Seq<char>|
        file_names(files_only(src)).contains(m) ==> !file_names(
            Seq::<EntryView>::empty(),
        ).contains(m)) by {
        assert(file_names(Seq::<EntryView>::empty()) == Seq::<Seq<char>>::empty());
    }
    lemma_write_all_fresh(Seq::empty(), files_only(src));
    assert(Seq::<EntryView>::empty() + files_only(src) =~= files_only(src));
    assert forall|m: Seq<char>| #![auto] lookup(files_only(src), m) == lookup(src, m) by {
        lemma_files_only_lookup(src, m);
    }
}

/// Law: instantiation writes each blueprint file over any same-named
/// destination file, silently, and leaves every other destination
/// file as it was.
pub proof fn lemma_create_lookup(
    d: Seq<EntryView>,
    s: Seq<BlueprintView>,
    n: Seq<char>,
    f: Seq<char>,
)
    requires
        store_has(s, n),
        names_unique(entry_names(entries_of(s, n))),
    ensures
        lookup(create_spec(d, s, n), f) == if lookup(entries_of(s, n), f) is Some {
            lookup(entries_of(s, n), f)
        } else {
            lookup(d, f)
        },
        create_outcome(s, n) == Ok::<(), StoreError>(()),
{
    let e = entries_of(s, n);
    lemma_files_only_names(e);
    lemma_file_names_unique(e);
    lemma_write_all_lookup(d, files_only(e), f);
    lemma_files_only_lookup(e, f);
}

/// Law: no operation surfaces a directory. A snapshot stores files
/// only, and an instantiation adds no directory to the destination.
pub proof fn lemma_directories_ignored(d: Seq<EntryView>, s: Seq<BlueprintView>, n: Seq<char>)
    requires
        store_has(s, n) ==> names_unique(entry_names(entries_of(s, n))),
    ensures
        subdir_names(files_only(d)) == Seq::<Seq<char>>::empty(),
        forall|k: int| 0 <= k < files_only(d).len() ==> files_only(d)[k] is File,
        subdir_names(create_spec(d, s, n)) == subdir_names(d),
{
    lemma_files_only_names(d);
    if store_has(s, n) {
        let e = entries_of(s, n);
        lemma_files_only_names(e);
        lemma_file_names_unique(e);
        lemma_write_all_lookup(d, files_only(e), Seq::empty());
    }
}

} // verus!
