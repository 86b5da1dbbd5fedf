//! A flat directory listing: regular files with their byte content, and
//! subdirectories, which every blueprint operation ignores.

use vstd::prelude::*;

verus! {

/// One directory entry: a regular file with its content, or a
/// subdirectory. Entries one level down are never looked at.
pub enum Entry {
    File { name: String, content: Vec<u8> },
    SubDir { name: String },
}

/// The mathematical form of an entry: names as character sequences,
/// content as a byte sequence.
pub enum EntryView {
    File { name: Seq<char>, content: Seq<u8> },
    SubDir { name: Seq<char> },
}

impl View for Entry {
    type V = EntryView;

    open spec fn view(&self) -> EntryView {
        match self {
            Entry::File { name, content } => EntryView::File {
                name: name@,
                content: content@,
            },
            Entry::SubDir { name } => EntryView::SubDir { name: name@ },
        }
    }
}

/// The name of an entry, whichever kind it is.
pub open spec fn entry_name(e: EntryView) -> Seq<char> {
    match e {
        EntryView::File { name, content } => name,
        EntryView::SubDir { name } => name,
    }
}

/// The names of all entries, in listing order.
pub open spec fn entry_names(s: Seq<EntryView>) -> Seq<Seq<char>> {
    s.map_values(|e: EntryView| entry_name(e))
}

/// No two entries share a name, as in a real directory.
pub open spec fn names_unique(names: Seq<Seq<char>>) -> bool {
    forall|i: int, j: int| 0 <= i < j < names.len() ==> names[i] != names[j]
}

/// The content of the regular file named `n`, if the listing holds one.
pub open spec fn lookup(s: Seq<EntryView>, n: Seq<char>) -> Option<Seq<u8>>
    decreases s.len(),
{
    if s.len() == 0 {
        None
    } else {
        match s[0] {
            EntryView::File { name, content } => if name == n {
                Some(content)
            } else {
                lookup(s.drop_first(), n)
            },
            EntryView::SubDir { name } => lookup(s.drop_first(), n),
        }
    }
}

/// The names of the regular files, in listing order.
pub open spec fn file_names(s: Seq<EntryView>) -> Seq<Seq<char>>
    decreases s.len(),
{
    if s.len() == 0 {
        Seq::empty()
    } else if s[0] is File {
        seq![entry_name(s[0])] + file_names(s.drop_first())
    } else {
        file_names(s.drop_first())
    }
}

/// The names of the subdirectories, in listing order.
pub open spec fn subdir_names(s: Seq<EntryView>) -> Seq<Seq<char>>
    decreases s.len(),
{
    if s.len() == 0 {
        Seq::empty()
    } else if s[0] is SubDir {
        seq![entry_name(s[0])] + subdir_names(s.drop_first())
    } else {
        subdir_names(s.drop_first())
    }
}

/// The listing restricted to its regular files, order kept.
pub open spec fn files_only(s: Seq<EntryView>) -> Seq<EntryView>
    decreases s.len(),
{
    if s.len() == 0 {
        Seq::empty()
    } else if s[0] is File {
        seq![s[0]] + files_only(s.drop_first())
    } else {
        files_only(s.drop_first())
    }
}

/// Writing one file into a listing: the first file of that name is
/// replaced in place, else the file is appended.
pub open spec fn write_one(s: Seq<EntryView>, n: Seq<char>, c: Seq<u8>) -> Seq<EntryView>
    decreases s.len(),
{
    if s.len() == 0 {
        seq![EntryView::File { name: n, content: c }]
    } else if s[0] is File && entry_name(s[0]) == n {
        seq![EntryView::File { name: n, content: c }] + s.drop_first()
    } else {
        seq![s[0]] + write_one(s.drop_first(), n, c)
    }
}

/// Writing every regular file of `fs` into `d`, in order; subdirectory
/// entries of `fs` are skipped.
pub open spec fn write_all(d: Seq<EntryView>, fs: Seq<EntryView>) -> Seq<EntryView>
    decreases fs.len(),
{
    if fs.len() == 0 {
        d
    } else {
        match fs[0] {
            EntryView::File { name, content } => write_all(
                write_one(d, name, content),
                fs.drop_first(),
            ),
            EntryView::SubDir { name } => write_all(d, fs.drop_first()),
        }
    }
}

/// Membership in a name sequence, split into its head and its tail.
pub proof fn lemma_contains_head(t: Seq<Seq<char>>, n: Seq<char>)
    requires
        t.len() > 0,
    ensures
        t.contains(n) <==> (t[0] == n || t.drop_first().contains(n)),
{
    if t.contains(n) {
        let i = choose|i: int| 0 <= i < t.len() && t[i] == n;
        if i > 0 {
            assert(t.drop_first()[i - 1] == n);
        }
    }
    if t.drop_first().contains(n) {
        let j = choose|j: int| 0 <= j < t.drop_first().len() && t.drop_first()[j] == n;
        assert(t[j + 1] == n);
    }
    if t[0] == n {
        assert(t.contains(n));
    }
}

/// The head-and-tail form of membership, for each of the three name
/// sequences of a listing.
pub proof fn lemma_names_head(s: Seq<EntryView>, n: Seq<char>)
    requires
        s.len() > 0,
    ensures
        file_names(s).contains(n) <==> ((s[0] is File && entry_name(s[0]) == n) || file_names(
            s.drop_first(),
        ).contains(n)),
        subdir_names(s).contains(n) <==> ((s[0] is SubDir && entry_name(s[0]) == n)
            || subdir_names(s.drop_first()).contains(n)),
        entry_names(s).contains(n) <==> (entry_name(s[0]) == n || entry_names(
            s.drop_first(),
        ).contains(n)),
{
    assert(entry_names(s).len() > 0);
    assert(entry_names(s)[0] == entry_name(s[0]));
    assert(entry_names(s).drop_first() =~= entry_names(s.drop_first()));
    lemma_contains_head(entry_names(s), n);
    if s[0] is File {
        assert(file_names(s) == seq![entry_name(s[0])] + file_names(s.drop_first()));
        assert(file_names(s)[0] == entry_name(s[0]));
        assert(file_names(s).drop_first() =~= file_names(s.drop_first()));
        lemma_contains_head(file_names(s), n);
    } else {
        assert(subdir_names(s) == seq![entry_name(s[0])] + subdir_names(s.drop_first()));
        assert(subdir_names(s)[0] == entry_name(s[0]));
        assert(subdir_names(s).drop_first() =~= subdir_names(s.drop_first()));
        lemma_contains_head(subdir_names(s), n);
    }
}

/// A name occurs among the entry names exactly when a file or a
/// subdirectory carries it.
pub proof fn lemma_name_kinds(s: Seq<EntryView>, n: Seq<char>)
    ensures
        entry_names(s).contains(n) <==> (file_names(s).contains(n) || subdir_names(s).contains(
            n,
        )),
    decreases s.len(),
{
    if s.len() == 0 {
        assert(entry_names(s) =~= Seq::<Seq<char>>::empty());
    } else {
        lemma_names_head(s, n);
        lemma_name_kinds(s.drop_first(), n);
    }
}

/// A listing holds a file named `n` exactly when `lookup` finds one.
pub proof fn lemma_lookup_some(s: Seq<EntryView>, n: Seq<char>)
    ensures
        lookup(s, n) is Some <==> file_names(s).contains(n),
    decreases s.len(),
{
    if s.len() == 0 {
    } else {
        lemma_names_head(s, n);
        lemma_lookup_some(s.drop_first(), n);
    }
}

/// Every file entry's name occurs among the listing's file names.
pub proof fn lemma_file_entry_named(s: Seq<EntryView>, k: int)
    requires
        0 <= k < s.len(),
        s[k] is File,
    ensures
        file_names(s).contains(entry_name(s[k])),
    decreases s.len(),
{
    lemma_names_head(s, entry_name(s[k]));
    if k > 0 {
        lemma_file_entry_named(s.drop_first(), k - 1);
    }
}

/// Every subdirectory entry's name occurs among the subdirectory names.
pub proof fn lemma_subdir_entry_named(s: Seq<EntryView>, k: int)
    requires
        0 <= k < s.len(),
        s[k] is SubDir,
    ensures
        subdir_names(s).contains(entry_name(s[k])),
    decreases s.len(),
{
    lemma_names_head(s, entry_name(s[k]));
    if k > 0 {
        lemma_subdir_entry_named(s.drop_first(), k - 1);
    }
}

/// Distinct entry names keep the file names distinct.
pub proof fn lemma_file_names_unique(s: Seq<EntryView>)
    requires
        names_unique(entry_names(s)),
    ensures
        names_unique(file_names(s)),
    decreases s.len(),
{
    if s.len() == 0 {
    } else {
        assert(entry_names(s.drop_first()) =~= entry_names(s).drop_first());
        assert(names_unique(entry_names(s.drop_first())));
        lemma_file_names_unique(s.drop_first());
        if s[0] is File {
            assert(!file_names(s.drop_first()).contains(entry_name(s[0]))) by {
                if file_names(s.drop_first()).contains(entry_name(s[0])) {
                    lemma_name_kinds(s.drop_first(), entry_name(s[0]));
                    let i = choose|i: int|
                        0 <= i < entry_names(s.drop_first()).len() && entry_names(
                            s.drop_first(),
                        )[i] == entry_name(s[0]);
                    assert(entry_names(s)[i + 1] == entry_names(s)[0]);
                }
            }
            assert(file_names(s) == seq![entry_name(s[0])] + file_names(s.drop_first()));
            assert forall|i: int, j: int|
                0 <= i < j < file_names(s).len() implies file_names(s)[i] != file_names(
                s,
            )[j] by {
                if i == 0 {
                    assert(file_names(s)[j] == file_names(s.drop_first())[j - 1]);
                    assert(file_names(s.drop_first()).contains(file_names(s.drop_first())[j - 1]));
                } else {
                    assert(file_names(s)[i] == file_names(s.drop_first())[i - 1]);
                    assert(file_names(s)[j] == file_names(s.drop_first())[j - 1]);
                }
            }
        }
    }
}

/// The file-only restriction keeps the file names, holds no
/// subdirectory, and is its own restriction.
pub proof fn lemma_files_only_names(s: Seq<EntryView>)
    ensures
        entry_names(files_only(s)) == file_names(s),
        file_names(files_only(s)) == file_names(s),
        subdir_names(files_only(s)) == Seq::<Seq<char>>::empty(),
        files_only(files_only(s)) == files_only(s),
        forall|k: int| 0 <= k < files_only(s).len() ==> files_only(s)[k] is File,
    decreases s.len(),
{
    if s.len() == 0 {
        assert(entry_names(files_only(s)) =~= file_names(s));
    } else {
        lemma_files_only_names(s.drop_first());
        if s[0] is File {
            let rest = files_only(s.drop_first());
            assert(files_only(s) == seq![s[0]] + rest);
            assert(files_only(s)[0] == s[0]);
            assert(files_only(s).drop_first() =~= rest);
            assert(entry_names(files_only(s)) =~= file_names(s));
            assert(file_names(files_only(s)) =~= file_names(s));
            assert(subdir_names(files_only(s)) =~= Seq::<Seq<char>>::empty());
            assert(files_only(files_only(s)) =~= files_only(s));
        } else {
            assert(entry_names(files_only(s)) =~= file_names(s));
        }
    }
}

/// `lookup` sees through the file-only restriction.
pub proof fn lemma_files_only_lookup(s: Seq<EntryView>, n: Seq<char>)
    ensures
        lookup(files_only(s), n) == lookup(s, n),
    decreases s.len(),
{
    if s.len() == 0 {
    } else {
        lemma_files_only_lookup(s.drop_first(), n);
        if s[0] is File {
            let rest = files_only(s.drop_first());
            assert(files_only(s) == seq![s[0]] + rest);
            assert(files_only(s)[0] == s[0]);
            assert(files_only(s).drop_first() =~= rest);
        }
    }
}

/// Writing a file whose name no file of the listing carries appends it.
pub proof fn lemma_write_one_absent(s: Seq<EntryView>, n: Seq<char>, c: Seq<u8>)
    requires
        !file_names(s).contains(n),
    ensures
        write_one(s, n, c) == s.push(EntryView::File { name: n, content: c }),
    decreases s.len(),
{
    if s.len() == 0 {
        assert(write_one(s, n, c) =~= s.push(EntryView::File { name: n, content: c }));
    } else {
        lemma_names_head(s, n);
        assert(!(s[0] is File && entry_name(s[0]) == n));
        lemma_write_one_absent(s.drop_first(), n, c);
        assert(write_one(s, n, c) =~= s.push(EntryView::File { name: n, content: c }));
    }
}

/// What `write_one` does to `lookup`: the written name now maps to the
/// written content, any other name `m` is untouched.
pub proof fn lemma_write_one_lookup(s: Seq<EntryView>, n: Seq<char>, c: Seq<u8>, m: Seq<char>)
    ensures
        lookup(write_one(s, n, c), n) == Some(c),
        m != n ==> lookup(write_one(s, n, c), m) == lookup(s, m),
    decreases s.len(),
{
    let w = write_one(s, n, c);
    if s.len() == 0 {
        assert(w[0] == (EntryView::File { name: n, content: c }));
        assert(w.drop_first() =~= Seq::<EntryView>::empty());
        assert(lookup(Seq::<EntryView>::empty(), m) is None);
        assert(lookup(Seq::<EntryView>::empty(), n) is None);
    } else if s[0] is File && entry_name(s[0]) == n {
        assert(w == seq![EntryView::File { name: n, content: c }] + s.drop_first());
        assert(w[0] == (EntryView::File { name: n, content: c }));
        assert(w.drop_first() =~= s.drop_first());
    } else {
        lemma_write_one_lookup(s.drop_first(), n, c, m);
        assert(w == seq![s[0]] + write_one(s.drop_first(), n, c));
        assert(w[0] == s[0]);
        assert(w.drop_first() =~= write_one(s.drop_first(), n, c));
        assert(w.len() > 0);
    }
}

/// `write_one` leaves the subdirectories as they were.
pub proof fn lemma_write_one_subdirs(s: Seq<EntryView>, n: Seq<char>, c: Seq<u8>)
    ensures
        subdir_names(write_one(s, n, c)) == subdir_names(s),
    decreases s.len(),
{
    let w = write_one(s, n, c);
    if s.len() == 0 {
        assert(w[0] == (EntryView::File { name: n, content: c }));
        assert(w.drop_first() =~= Seq::<EntryView>::empty());
        assert(subdir_names(Seq::<EntryView>::empty()) == Seq::<Seq<char>>::empty());
        assert(subdir_names(w) == subdir_names(w.drop_first()));
        assert(subdir_names(w) =~= subdir_names(s));
    } else if s[0] is File && entry_name(s[0]) == n {
        assert(w == seq![EntryView::File { name: n, content: c }] + s.drop_first());
        assert(w[0] == (EntryView::File { name: n, content: c }));
        assert(w.drop_first() =~= s.drop_first());
        assert(subdir_names(w) == subdir_names(s.drop_first()));
        assert(subdir_names(s) == subdir_names(s.drop_first()));
    } else {
        lemma_write_one_subdirs(s.drop_first(), n, c);
        assert(w == seq![s[0]] + write_one(s.drop_first(), n, c));
        assert(w[0] == s[0]);
        assert(w.drop_first() =~= write_one(s.drop_first(), n, c));
        assert(w.len() > 0);
        if s[0] is SubDir {
            assert(subdir_names(w) == seq![entry_name(s[0])] + subdir_names(w.drop_first()));
            assert(subdir_names(s) == seq![entry_name(s[0])] + subdir_names(s.drop_first()));
            assert(subdir_names(w) =~= subdir_names(s));
        } else {
            assert(subdir_names(w) == subdir_names(w.drop_first()));
            assert(subdir_names(s) == subdir_names(s.drop_first()));
        }
    }
}


/// Appending a file entry appends its name to the file names and
/// leaves the subdirectory names alone.
pub proof fn lemma_file_names_push(s: Seq<EntryView>, n: Seq<char>, c: Seq<u8>)
    ensures
        file_names(s.push(EntryView::File { name: n, content: c })) == file_names(s).push(n),
        subdir_names(s.push(EntryView::File { name: n, content: c })) == subdir_names(s),
    decreases s.len(),
{
    let p = s.push(EntryView::File { name: n, content: c });
    if s.len() == 0 {
        assert(p[0] == (EntryView::File { name: n, content: c }));
        assert(p.drop_first() =~= Seq::<EntryView>::empty());
        assert(file_names(Seq::<EntryView>::empty()) == Seq::<Seq<char>>::empty());
        assert(subdir_names(Seq::<EntryView>::empty()) == Seq::<Seq<char>>::empty());
        assert(file_names(p) =~= file_names(s).push(n));
        assert(subdir_names(p) =~= subdir_names(s));
    } else {
        lemma_file_names_push(s.drop_first(), n, c);
        assert(p[0] == s[0]);
        assert(p.drop_first() =~= s.drop_first().push(EntryView::File { name: n, content: c }));
        assert(file_names(p) =~= file_names(s).push(n));
        assert(subdir_names(p) =~= subdir_names(s));
    }
}

/// What writing a whole file list does to `lookup`: a name written by
/// `fs` maps to the content `fs` gives it, any other name keeps the
/// destination's answer. The subdirectories of the destination stay.
pub proof fn lemma_write_all_lookup(d: Seq<EntryView>, fs: Seq<EntryView>, m: Seq<char>)
    requires
        names_unique(file_names(fs)),
    ensures
        lookup(write_all(d, fs), m) == if lookup(fs, m) is Some {
            lookup(fs, m)
        } else {
            lookup(d, m)
        },
        subdir_names(write_all(d, fs)) == subdir_names(d),
    decreases fs.len(),
{
    if fs.len() == 0 {
        assert(lookup(fs, m) is None);
    } else {
        match fs[0] {
            EntryView::File { name: n, content: c } => {
                assert(file_names(fs) == seq![n] + file_names(fs.drop_first()));
                assert(file_names(fs)[0] == n);
                assert(file_names(fs).drop_first() =~= file_names(fs.drop_first()));
                assert(names_unique(file_names(fs.drop_first())));
                assert(!file_names(fs.drop_first()).contains(n)) by {
                    if file_names(fs.drop_first()).contains(n) {
                        let j = choose|j: int|
                            0 <= j < file_names(fs.drop_first()).len() && file_names(
                                fs.drop_first(),
                            )[j] == n;
                        assert(file_names(fs)[j + 1] == file_names(fs)[0]);
                    }
                }
                lemma_write_all_lookup(write_one(d, n, c), fs.drop_first(), m);
                lemma_write_one_lookup(d, n, c, m);
                lemma_write_one_subdirs(d, n, c);
                lemma_lookup_some(fs.drop_first(), n);
                assert(write_all(d, fs) == write_all(write_one(d, n, c), fs.drop_first()));
                if m == n {
                    assert(lookup(fs, n) == Some(c));
                    assert(lookup(fs.drop_first(), n) is None);
                } else {
                    assert(lookup(fs, m) == lookup(fs.drop_first(), m));
                }
            },
            EntryView::SubDir { name: sd } => {
                assert(file_names(fs) == file_names(fs.drop_first()));
                lemma_write_all_lookup(d, fs.drop_first(), m);
                assert(write_all(d, fs) == write_all(d, fs.drop_first()));
                assert(lookup(fs, m) == lookup(fs.drop_first(), m));
            },
        }
    }
}

/// Writing a file list whose names are fresh for the destination
/// appends the list, order kept, when the list holds files only.
pub proof fn lemma_write_all_fresh(d: Seq<EntryView>, fs: Seq<EntryView>)
    requires
        forall|k: int| 0 <= k < fs.len() ==> fs[k] is File,
        names_unique(file_names(fs)),
        forall|m: Seq<char>|
            file_names(fs).contains(m) ==> !file_names(d).contains(m),
    ensures
        write_all(d, fs) == d + fs,
    decreases fs.len(),
{
    if fs.len() == 0 {
        assert(write_all(d, fs) =~= d + fs);
    } else {
        assert(fs[0] is File);
        let n = entry_name(fs[0]);
        let c = fs[0]->File_content;
        assert(fs[0] == (EntryView::File { name: n, content: c }));
        assert(file_names(fs) == seq![n] + file_names(fs.drop_first()));
        assert(file_names(fs)[0] == n);
        assert(file_names(fs).drop_first() =~= file_names(fs.drop_first()));
        assert(names_unique(file_names(fs.drop_first())));
        assert(!file_names(fs.drop_first()).contains(n)) by {
            if file_names(fs.drop_first()).contains(n) {
                let j = choose|j: int|
                    0 <= j < file_names(fs.drop_first()).len() && file_names(
                        fs.drop_first(),
                    )[j] == n;
                assert(file_names(fs)[j + 1] == file_names(fs)[0]);
            }
        }
        assert(file_names(fs).contains(n));
        assert(!file_names(d).contains(n));
        lemma_write_one_absent(d, n, c);
        let d2 = d.push(EntryView::File { name: n, content: c });
        lemma_file_names_push(d, n, c);
        assert(forall|m: Seq<char>|
            file_names(fs.drop_first()).contains(m) ==> #[trigger] file_names(fs).contains(
                m,
            )) by {
            assert forall|m: Seq<char>|
                file_names(fs.drop_first()).contains(m) implies #[trigger] file_names(
                fs,
            ).contains(m) by {
                let j = choose|j: int|
                    0 <= j < file_names(fs.drop_first()).len() && file_names(fs.drop_first())[j]
                        == m;
                assert(file_names(fs)[j + 1] == m);
            }
        }
        assert(forall|m: Seq<char>|
            file_names(fs.drop_first()).contains(m) ==> !#[trigger] file_names(d2).contains(
                m,
            )) by {
            assert forall|m: Seq<char>|
                file_names(fs.drop_first()).contains(m) implies !#[trigger] file_names(
                d2,
            ).contains(m) by {
                assert(file_names(d2) == file_names(d).push(n));
                assert(m != n);
                if file_names(d2).contains(m) {
                    let j = choose|j: int|
                        0 <= j < file_names(d2).len() && file_names(d2)[j] == m;
                    assert(j < file_names(d).len());
                    assert(file_names(d).contains(m));
                }
            }
        }
        assert(forall|k: int| 0 <= k < fs.drop_first().len() ==> fs.drop_first()[k] is File);
        lemma_write_all_fresh(d2, fs.drop_first());
        assert(write_all(d, fs) == write_all(d2, fs.drop_first()));
        assert(d2 + fs.drop_first() =~= d + fs);
    }
}

/// String equality, stated over the character sequences.
pub fn string_eq(a: &String, b: &String) -> (r: bool)
    ensures
        r == (a@ == b@),
{
    a.eq(b)
}

/// A byte-for-byte copy of a byte vector.
pub fn clone_bytes(v: &Vec<u8>) -> (r: Vec<u8>)
    ensures
        r@ == v@,
{
    let mut r: Vec<u8> = Vec::new();
    let mut i: usize = 0;
    while i < v.len()
        invariant
            i <= v@.len(),
            r@ == v@.take(i as int),
        decreases v@.len() - i,
    {
        r.push(v[i]);
        proof {
            assert(v@.take(i + 1 as int) =~= v@.take(i as int).push(v@[i as int]));
        }
        i = i + 1;
    }
    proof {
        assert(v@.take(v@.len() as int) =~= v@);
    }
    r
}

/// The name an entry carries.
pub fn entry_name_ref(e: &Entry) -> (n: &String)
    ensures
        n@ == entry_name(e@),
{
    match e {
        Entry::File { name, content } => name,
        Entry::SubDir { name } => name,
    }
}

/// An in-memory directory listing with distinct entry names.
pub struct Dir {
    entries: Vec<Entry>,
}

impl View for Dir {
    type V = Seq<EntryView>;

    closed spec fn view(&self) -> Seq<EntryView> {
        self.entries@.map_values(|e: Entry| e@)
    }
}

impl Dir {
    /// Well-formed: entry names are distinct, as a real directory's are.
    pub open spec fn wf(&self) -> bool {
        names_unique(entry_names(self@))
    }

    /// An empty listing.
    pub fn empty() -> (d: Dir)
        ensures
            d@ == Seq::<EntryView>::empty(),
            d.wf(),
    {
        let d = Dir { entries: Vec::new() };
        proof {
            assert(d@ =~= Seq::<EntryView>::empty());
        }
        d
    }

    /// How many entries the listing holds.
    pub fn entry_count(&self) -> (n: usize)
        ensures
            n == self@.len(),
    {
        self.entries.len()
    }

    /// A borrow of the entry at position `i`.
    pub fn entry_at(&self, i: usize) -> (e: &Entry)
        requires
            i < self@.len(),
        ensures
            e@ == self@[i as int],
    {
        &self.entries[i]
    }

    /// Whether any entry, file or subdirectory, carries the name `n`.
    pub fn has_entry_named(&self, n: &String) -> (b: bool)
        ensures
            b == entry_names(self@).contains(n@),
    {
        let mut i: usize = 0;
        while i < self.entries.len()
            invariant
                i <= self@.len(),
                self@.len() == self.entries@.len(),
                forall|k: int| 0 <= k < i ==> entry_names(self@)[k] != n@,
            decreases self@.len() - i,
        {
            if string_eq(entry_name_ref(&self.entries[i]), n) {
                proof {
                    assert(entry_names(self@)[i as int] == n@);
                }
                return true;
            }
            i = i + 1;
        }
        proof {
            if entry_names(self@).contains(n@) {
                let k = choose|k: int|
                    0 <= k < entry_names(self@).len() && entry_names(self@)[k] == n@;
                assert(entry_names(self@)[k] != n@);
            }
        }
        false
    }

    /// Append a file, refused when any entry already carries the name.
    pub fn push_file(&mut self, name: String, content: Vec<u8>) -> (ok: bool)
        requires
            old(self).wf(),
        ensures
            ok == !entry_names(old(self)@).contains(name@),
            ok ==> final(self)@ == old(self)@.push(
                EntryView::File { name: name@, content: content@ },
            ),
            !ok ==> final(self)@ == old(self)@,
            final(self).wf(),
    {
        if self.has_entry_named(&name) {
            false
        } else {
            let ghost s0 = self@;
            self.entries.push(Entry::File { name, content });
            proof {
                assert(self@ =~= s0.push(self.entries@.last()@));
                assert(entry_names(self@) =~= entry_names(s0).push(
                    entry_name(self.entries@.last()@),
                ));
            }
            true
        }
    }

    /// Append a subdirectory, refused when any entry carries the name.
    pub fn push_subdir(&mut self, name: String) -> (ok: bool)
        requires
            old(self).wf(),
        ensures
            ok == !entry_names(old(self)@).contains(name@),
            ok ==> final(self)@ == old(self)@.push(EntryView::SubDir { name: name@ }),
            !ok ==> final(self)@ == old(self)@,
            final(self).wf(),
    {
        if self.has_entry_named(&name) {
            false
        } else {
            let ghost s0 = self@;
            self.entries.push(Entry::SubDir { name });
            proof {
                assert(self@ =~= s0.push(self.entries@.last()@));
                assert(entry_names(self@) =~= entry_names(s0).push(
                    entry_name(self.entries@.last()@),
                ));
            }
            true
        }
    }

    /// The content of the file named `n`, if the listing holds one.
    pub fn read_file(&self, n: &String) -> (r: Option<&Vec<u8>>)
        requires
            self.wf(),
        ensures
            match r {
                Some(c) => lookup(self@, n@) == Some(c@),
                None => lookup(self@, n@) is None,
            },
    {
        let mut i: usize = 0;
        proof {
            assert(self@.skip(0) =~= self@);
        }
        while i < self.entries.len()
            invariant
                i <= self@.len(),
                self@.len() == self.entries@.len(),
                lookup(self@, n@) == lookup(self@.skip(i as int), n@),
            decreases self@.len() - i,
        {
            proof {
                assert(self@[i as int] == self.entries@[i as int]@);
                assert(self@.skip(i as int)[0] == self@[i as int]);
                assert(self@.skip(i as int).drop_first() =~= self@.skip(i + 1 as int));
            }
            match &self.entries[i] {
                Entry::File { name, content } => {
                    if string_eq(name, n) {
                        return Some(content);
                    }
                },
                Entry::SubDir { name } => {},
            }
            i = i + 1;
        }
        proof {
            assert(self@.skip(self@.len() as int) =~= Seq::<EntryView>::empty());
        }
        None
    }

    /// The listing's regular files, as a fresh listing of their own.
    pub fn files_snapshot(&self) -> (d: Dir)
        requires
            self.wf(),
        ensures
            d@ == files_only(self@),
            d.wf(),
    {
        let mut out: Vec<Entry> = Vec::new();
        let mut i: usize = 0;
        proof {
            assert(self@.skip(0) =~= self@);
            assert(out@.map_values(|e: Entry| e@) + files_only(self@) =~= files_only(self@));
        }
        while i < self.entries.len()
            invariant
                i <= self@.len(),
                self@.len() == self.entries@.len(),
                files_only(self@) == out@.map_values(|e: Entry| e@) + files_only(
                    self@.skip(i as int),
                ),
            decreases self@.len() - i,
        {
            proof {
                assert(self@[i as int] == self.entries@[i as int]@);
                assert(self@.skip(i as int)[0] == self@[i as int]);
                assert(self@.skip(i as int).drop_first() =~= self@.skip(i + 1 as int));
            }
            let ghost out0 = out@;
            match &self.entries[i] {
                Entry::File { name, content } => {
                    let copied = Entry::File {
                        name: name.clone(),
                        content: clone_bytes(content),
                    };
                    proof {
                        assert(copied@ == self@[i as int]);
                    }
                    out.push(copied);
                    proof {
                        assert(out@.map_values(|e: Entry| e@) =~= out0.map_values(
                            |e: Entry| e@,
                        ).push(out@.last()@));
                        assert(files_only(self@) =~= out@.map_values(|e: Entry| e@)
                            + files_only(self@.skip(i + 1 as int)));
                    }
                },
                Entry::SubDir { name } => {},
            }
            i = i + 1;
        }
        proof {
            assert(self@.skip(self@.len() as int) =~= Seq::<EntryView>::empty());
            assert(files_only(self@) =~= out@.map_values(|e: Entry| e@));
        }
        let d = Dir { entries: out };
        proof {
            lemma_files_only_names(self@);
            lemma_file_names_unique(self@);
        }
        d
    }

    /// Write one file: the file of that name is overwritten in place,
    /// else the file is appended. No subdirectory may carry the name,
    /// as a real copy onto a directory does not return.
    pub fn write_file(&mut self, name: String, content: Vec<u8>)
        requires
            old(self).wf(),
            !subdir_names(old(self)@).contains(name@),
        ensures
            final(self)@ == write_one(old(self)@, name@, content@),
            final(self).wf(),
    {
        let ghost s0 = self@;
        proof {
            assert(s0 == old(self)@);
        }
        let mut i: usize = 0;
        let end = self.entries.len();
        while i < end
            invariant
                i <= self@.len(),
                end == self@.len(),
                self@.len() == self.entries@.len(),
                self@ == s0,
                s0 == old(self)@,
                names_unique(entry_names(s0)),
                !subdir_names(s0).contains(name@),
                forall|k: int| 0 <= k < i ==> entry_names(self@)[k] != name@,
            decreases end - i,
        {
            proof {
                assert(self@[i as int] == self.entries@[i as int]@);
            }
            if string_eq(entry_name_ref(&self.entries[i]), &name) {
                proof {
                    assert(entry_name(s0[i as int]) == name@);
                    assert(!subdir_names(s0).contains(name@));
                    if s0[i as int] is SubDir {
                        lemma_subdir_entry_named(s0, i as int);
                        assert(subdir_names(s0).contains(entry_name(s0[i as int])));
                        assert(false);
                    }
                    assert(s0[i as int] is File);
                    assert(forall|k: int|
                        0 <= k < i ==> entry_names(s0)[k] != name@);
                }
                let ghost nm = name@;
                let ghost ct = content@;
                self.entries[i] = Entry::File { name, content };
                proof {
                    assert(self.entries@[i as int]@ == (EntryView::File {
                        name: nm,
                        content: ct,
                    }));
                    assert(self@ =~= s0.update(
                        i as int,
                        EntryView::File { name: nm, content: ct },
                    ));
                    lemma_write_one_at_index(s0, nm, ct, i as int);
                    assert(entry_names(self@) =~= entry_names(s0));
                }
                return ;
            }
            i = i + 1;
        }
        proof {
            assert(!file_names(s0).contains(name@)) by {
                if file_names(s0).contains(name@) {
                    lemma_name_kinds(s0, name@);
                    let k = choose|k: int|
                        0 <= k < entry_names(s0).len() && entry_names(s0)[k] == name@;
                    assert(entry_names(s0)[k] != name@);
                }
            }
        }
        let ghost nm = name@;
        let ghost ct = content@;
        self.entries.push(Entry::File { name, content });
        proof {
            assert(self.entries@.last()@ == (EntryView::File { name: nm, content: ct }));
            assert(self@ =~= s0.push(EntryView::File { name: nm, content: ct }));
            lemma_write_one_absent(s0, nm, ct);
            assert(entry_names(self@) =~= entry_names(s0).push(nm));
            assert(!entry_names(s0).contains(nm)) by {
                lemma_name_kinds(s0, nm);
            }
        }
    }
}


/// Replacing the first file of name `n` in place is what `write_one`
/// produces, when no earlier entry carries the name.
pub proof fn lemma_write_one_at_index(s: Seq<EntryView>, n: Seq<char>, c: Seq<u8>, i: int)
    requires
        0 <= i < s.len(),
        s[i] is File,
        entry_name(s[i]) == n,
        forall|k: int| 0 <= k < i ==> entry_names(s)[k] != n,
    ensures
        write_one(s, n, c) == s.update(i, EntryView::File { name: n, content: c }),
    decreases s.len(),
{
    if i == 0 {
        assert(write_one(s, n, c) =~= s.update(0, EntryView::File { name: n, content: c }));
    } else {
        assert(entry_names(s)[0] != n);
        assert(entry_name(s[0]) != n);
        assert(forall|k: int|
            0 <= k < i - 1 ==> entry_names(s.drop_first())[k] == entry_names(s)[k + 1]);
        lemma_write_one_at_index(s.drop_first(), n, c, i - 1);
        assert(write_one(s, n, c) =~= s.update(i, EntryView::File { name: n, content: c }));
    }
}

} // verus!
