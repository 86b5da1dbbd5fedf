//! The blueprint store: a table of named blueprints, each a flat
//! snapshot of a directory's top-level files.
//!
//! The four operations mirror the tool's commands. Each is stated
//! against a spec-level transition function, so that the laws about
//! chains of operations are theorems about those functions.

use vstd::prelude::*;
use vstd::string::StringExecFns;

use crate::dir::Dir;
use crate::dir::Entry;
use crate::dir::EntryView;
use crate::dir::entry_names;
use crate::dir::file_names;
use crate::dir::files_only;
use crate::dir::lemma_file_names_unique;
use crate::dir::lemma_files_only_names;
use crate::dir::names_unique;
use crate::dir::string_eq;
use crate::dir::subdir_names;
use crate::dir::write_all;
use crate::dir::write_one;

verus! {

/// Why an operation was refused: the name was already taken, or no
/// blueprint of the name exists.
#[derive(PartialEq, Eq, Structural, Clone, Copy, Debug)]
pub enum StoreError {
    AlreadyExists,
    DoesNotExist,
}

/// The process exit status an error is reported with.
pub open spec fn error_exit_spec(e: StoreError) -> int {
    1
}

/// The line printed for a refusal, naming the blueprint.
pub open spec fn error_message_spec(e: StoreError, n: Seq<char>) -> Seq<char> {
    match e {
        StoreError::AlreadyExists => "Blueprint "@ + n + " already exists"@,
        StoreError::DoesNotExist => "Blueprint "@ + n + " does not exist"@,
    }
}

impl StoreError {
    /// The exit status to report: refusals always exit with one.
    pub fn exit_code(&self) -> (c: i32)
        ensures
            c == error_exit_spec(*self),
    {
        1
    }

    /// Build the line to print for this refusal of the named blueprint.
    pub fn message(&self, name: &String) -> (m: String)
        ensures
            m@ == error_message_spec(*self, name@),
    {
        let head: String = "Blueprint ".to_owned();
        let with_name = head.concat(name.as_str());
        match self {
            StoreError::AlreadyExists => with_name.concat(" already exists"),
            StoreError::DoesNotExist => with_name.concat(" does not exist"),
        }
    }
}

/// The mathematical form of one blueprint: its name and the listing of
/// the directory that holds it.
pub struct BlueprintView {
    pub name: Seq<char>,
    pub entries: Seq<EntryView>,
}

/// One named blueprint.
pub struct Blueprint {
    name: String,
    dir: Dir,
}

impl View for Blueprint {
    type V = BlueprintView;

    closed spec fn view(&self) -> BlueprintView {
        BlueprintView { name: self.name@, entries: self.dir@ }
    }
}

/// The store: its blueprints, in the order the store enumerates them.
pub struct Store {
    blueprints: Vec<Blueprint>,
}

impl View for Store {
    type V = Seq<BlueprintView>;

    closed spec fn view(&self) -> Seq<BlueprintView> {
        self.blueprints@.map_values(|b: Blueprint| b@)
    }
}

/// The blueprint names, in enumeration order.
pub open spec fn store_names(s: Seq<BlueprintView>) -> Seq<Seq<char>> {
    s.map_values(|b: BlueprintView| b.name)
}

/// Whether the store holds a blueprint named `n`.
pub open spec fn store_has(s: Seq<BlueprintView>, n: Seq<char>) -> bool {
    store_names(s).contains(n)
}

/// The entries of the first blueprint named `n`.
pub open spec fn entries_of(s: Seq<BlueprintView>, n: Seq<char>) -> Seq<EntryView>
    decreases s.len(),
{
    if s.len() == 0 {
        Seq::empty()
    } else if s[0].name == n {
        s[0].entries
    } else {
        entries_of(s.drop_first(), n)
    }
}

/// What snapshotting does to the store: nothing when the name is
/// taken, else a blueprint holding the source's files is appended.
pub open spec fn new_spec(
    s: Seq<BlueprintView>,
    src: Seq<EntryView>,
    n: Seq<char>,
) -> Seq<BlueprintView> {
    if store_has(s, n) {
        s
    } else {
        s.push(BlueprintView { name: n, entries: files_only(src) })
    }
}

/// What snapshotting reports: refused on a taken name.
pub open spec fn new_outcome(s: Seq<BlueprintView>, n: Seq<char>) -> Result<(), StoreError> {
    if store_has(s, n) {
        Err(StoreError::AlreadyExists)
    } else {
        Ok(())
    }
}

/// What removal does to the store: the first blueprint of the name
/// goes, nothing else moves.
pub open spec fn remove_spec(s: Seq<BlueprintView>, n: Seq<char>) -> Seq<BlueprintView>
    decreases s.len(),
{
    if s.len() == 0 {
        s
    } else if s[0].name == n {
        s.drop_first()
    } else {
        seq![s[0]] + remove_spec(s.drop_first(), n)
    }
}

/// What removal reports: refused on an absent name.
pub open spec fn remove_outcome(s: Seq<BlueprintView>, n: Seq<char>) -> Result<(), StoreError> {
    if store_has(s, n) {
        Ok(())
    } else {
        Err(StoreError::DoesNotExist)
    }
}

/// What instantiation does to the destination: nothing when the name
/// is absent, else every file of the blueprint is written into it,
/// overwriting same-named files; subdirectories are skipped.
pub open spec fn create_spec(
    d: Seq<EntryView>,
    s: Seq<BlueprintView>,
    n: Seq<char>,
) -> Seq<EntryView> {
    if store_has(s, n) {
        write_all(d, files_only(entries_of(s, n)))
    } else {
        d
    }
}

/// What instantiation reports: refused on an absent name.
pub open spec fn create_outcome(s: Seq<BlueprintView>, n: Seq<char>) -> Result<(), StoreError> {
    if store_has(s, n) {
        Ok(())
    } else {
        Err(StoreError::DoesNotExist)
    }
}

impl Store {
    /// Well-formed: blueprint names are distinct, and each blueprint's
    /// own entry names are distinct.
    pub open spec fn wf(&self) -> bool {
        &&& names_unique(store_names(self@))
        &&& forall|i: int|
            0 <= i < self@.len() ==> names_unique(entry_names(#[trigger] self@[i].entries))
    }

    /// A store with no blueprints.
    pub fn empty() -> (s: Store)
        ensures
            s@ == Seq::<BlueprintView>::empty(),
            s.wf(),
    {
        let s = Store { blueprints: Vec::new() };
        proof {
            assert(s@ =~= Seq::<BlueprintView>::empty());
        }
        s
    }

    /// Install a blueprint as given, refused when the name is taken.
    /// This builds stores in any shape the disk could hold.
    pub fn add_blueprint(&mut self, name: String, dir: Dir) -> (ok: bool)
        requires
            old(self).wf(),
            dir.wf(),
        ensures
            ok == !store_has(old(self)@, name@),
            ok ==> final(self)@ == old(self)@.push(
                BlueprintView { name: name@, entries: dir@ },
            ),
            !ok ==> final(self)@ == old(self)@,
            final(self).wf(),
    {
        if let Some(i) = self.find_index(&name) {
            proof {
                assert(store_names(self@)[i as int] == name@);
            }
            false
        } else {
            let ghost s0 = self@;
            self.blueprints.push(Blueprint { name, dir });
            proof {
                assert(self@ =~= s0.push(self.blueprints@.last()@));
                assert(store_names(self@) =~= store_names(s0).push(
                    self.blueprints@.last()@.name,
                ));
                assert(forall|k: int|
                    0 <= k < store_names(s0).len() ==> store_names(s0)[k] != store_names(
                        self@,
                    ).last());
            }
            true
        }
    }

    /// The position of the first blueprint named `n`, if any.
    fn find_index(&self, n: &String) -> (r: Option<usize>)
        ensures
            match r {
                Some(i) => i < self@.len() && self@[i as int].name == n@ && forall|k: int|
                    0 <= k < i ==> store_names(self@)[k] != n@,
                None => !store_has(self@, n@),
            },
    {
        let mut i: usize = 0;
        while i < self.blueprints.len()
            invariant
                i <= self@.len(),
                self@.len() == self.blueprints@.len(),
                forall|k: int| 0 <= k < i ==> store_names(self@)[k] != n@,
            decreases self@.len() - i,
        {
            proof {
                assert(self@[i as int] == self.blueprints@[i as int]@);
            }
            if string_eq(&self.blueprints[i].name, n) {
                return Some(i);
            }
            i = i + 1;
        }
        proof {
            if store_has(self@, n@) {
                let k = choose|k: int|
                    0 <= k < store_names(self@).len() && store_names(self@)[k] == n@;
                assert(store_names(self@)[k] != n@);
            }
        }
        None
    }

    /// Whether a blueprint of the name exists.
    pub fn has_blueprint(&self, n: &String) -> (b: bool)
        ensures
            b == store_has(self@, n@),
    {
        let r = self.find_index(n);
        proof {
            if r is Some {
                let i = r->0;
                assert(store_names(self@)[i as int] == n@);
            }
        }
        r.is_some()
    }

    /// Every blueprint name, one per blueprint, in enumeration order.
    pub fn list(&self) -> (names: Vec<String>)
        ensures
            names@.map_values(|s: String| s@) == store_names(self@),
    {
        let mut names: Vec<String> = Vec::new();
        let mut i: usize = 0;
        proof {
            assert(names@.map_values(|s: String| s@) =~= store_names(self@).take(0));
        }
        while i < self.blueprints.len()
            invariant
                i <= self@.len(),
                self@.len() == self.blueprints@.len(),
                names@.map_values(|s: String| s@) == store_names(self@).take(i as int),
            decreases self@.len() - i,
        {
            proof {
                assert(self@[i as int] == self.blueprints@[i as int]@);
            }
            let ghost m0 = names@.map_values(|s: String| s@);
            names.push(self.blueprints[i].name.clone());
            proof {
                assert(names@.map_values(|s: String| s@) =~= m0.push(names@.last()@));
                assert(names@.map_values(|s: String| s@) =~= store_names(self@).take(
                    i + 1 as int,
                ));
            }
            i = i + 1;
        }
        proof {
            assert(store_names(self@).take(self@.len() as int) =~= store_names(self@));
        }
        names
    }

    /// Snapshot: store the source's top-level files under a new name.
    /// Refused, and the store left alone, when the name is taken.
    pub fn new(&mut self, source: &Dir, name: &String) -> (r: Result<(), StoreError>)
        requires
            old(self).wf(),
            source.wf(),
        ensures
            final(self)@ == new_spec(old(self)@, source@, name@),
            r == new_outcome(old(self)@, name@),
            final(self).wf(),
    {
        match self.find_index(name) {
            Some(i) => {
                proof {
                    assert(store_names(self@)[i as int] == name@);
                }
                Err(StoreError::AlreadyExists)
            },
            None => {
                let files = source.files_snapshot();
                let ok = self.add_blueprint(name.clone(), files);
                proof {
                    assert(ok);
                }
                Ok(())
            },
        }
    }

    /// Delete: the blueprint of the name goes, with everything in it.
    /// Refused, and the store left alone, when the name is absent.
    pub fn remove(&mut self, name: &String) -> (r: Result<(), StoreError>)
        requires
            old(self).wf(),
        ensures
            final(self)@ == remove_spec(old(self)@, name@),
            r == remove_outcome(old(self)@, name@),
            final(self).wf(),
    {
        match self.find_index(name) {
            Some(i) => {
                let ghost s0 = self@;
                proof {
                    assert(store_names(s0)[i as int] == name@);
                }
                self.blueprints.remove(i);
                proof {
                    assert(self@ =~= s0.remove(i as int));
                    lemma_remove_spec_at_index(s0, name@, i as int);
                    assert(store_names(self@) =~= store_names(s0).remove(i as int));
                    lemma_names_unique_remove(store_names(s0), i as int);
                    assert(forall|k: int|
                        0 <= k < self@.len() ==> self@[k] == (if k < i {
                            s0[k]
                        } else {
                            s0[k + 1]
                        }));
                }
                Ok(())
            },
            None => {
                proof {
                    lemma_remove_spec_absent(self@, name@);
                }
                Err(StoreError::DoesNotExist)
            },
        }
    }

    /// Instantiate: write every file of the blueprint into the
    /// destination, overwriting same-named files, skipping the
    /// blueprint's subdirectories. Refused, and the destination left
    /// alone, when the name is absent. No subdirectory of the
    /// destination may share a name with a blueprint file, as a real
    /// copy onto a directory does not return.
    pub fn create(&self, dest: &mut Dir, name: &String) -> (r: Result<(), StoreError>)
        requires
            self.wf(),
            old(dest).wf(),
            forall|m: Seq<char>|
                file_names(entries_of(self@, name@)).contains(m) ==> !subdir_names(
                    old(dest)@,
                ).contains(m),
        ensures
            final(dest)@ == create_spec(old(dest)@, self@, name@),
            r == create_outcome(self@, name@),
            final(dest).wf(),
    {
        match self.find_index(name) {
            Some(i) => {
                proof {
                    assert(store_names(self@)[i as int] == name@);
                    lemma_entries_of_at_index(self@, name@, i as int);
                }
                let bp: &Dir = &self.blueprints[i].dir;
                proof {
                    assert(self@[i as int] == self.blueprints@[i as int]@);
                    assert(bp@ == entries_of(self@, name@));
                }
                let ghost d0 = dest@;
                let ghost bpv = bp@;
                let count = bp.entry_count();
                let mut j: usize = 0;
                proof {
                    assert(bpv.skip(0) =~= bpv);
                    lemma_file_names_unique(bpv);
                }
                while j < count
                    invariant
                        j <= bpv.len(),
                        count == bpv.len(),
                        bp@ == bpv,
                        bp.wf(),
                        dest.wf(),
                        write_all(d0, bpv) == write_all(dest@, bpv.skip(j as int)),
                        subdir_names(dest@) == subdir_names(d0),
                        forall|m: Seq<char>|
                            file_names(bpv).contains(m) ==> !subdir_names(d0).contains(m),
                    decreases bpv.len() - j,
                {
                    proof {
                        assert(bpv.skip(j as int)[0] == bpv[j as int]);
                        assert(bpv.skip(j as int).drop_first() =~= bpv.skip(j + 1 as int));
                    }
                    let ghost dpre = dest@;
                    match bp.entry_at(j) {
                        Entry::File { name: fname, content } => {
                            proof {
                                assert(bpv[j as int] == (EntryView::File {
                                    name: fname@,
                                    content: content@,
                                }));
                                crate::dir::lemma_file_entry_named(bpv, j as int);
                                assert(file_names(bpv).contains(fname@));
                            }
                            dest.write_file(fname.clone(), crate::dir::clone_bytes(content));
                            proof {
                                crate::dir::lemma_write_one_subdirs(
                                    dpre,
                                    bpv[j as int]->File_name,
                                    bpv[j as int]->File_content,
                                );
                                assert(dest@ == write_one(
                                    dpre,
                                    bpv[j as int]->File_name,
                                    bpv[j as int]->File_content,
                                ));
                            }
                        },
                        Entry::SubDir { name: sname } => {},
                    }
                    j = j + 1;
                }
                proof {
                    assert(bpv.skip(bpv.len() as int) =~= Seq::<EntryView>::empty());
                    assert(write_all(dest@, Seq::<EntryView>::empty()) == dest@);
                    lemma_write_all_files_only(d0, bpv);
                }
                Ok(())
            },
            None => Err(StoreError::DoesNotExist),
        }
    }
}

/// Removal at the position of the first match is what `remove_spec`
/// produces.
pub proof fn lemma_remove_spec_at_index(s: Seq<BlueprintView>, n: Seq<char>, i: int)
    requires
        0 <= i < s.len(),
        s[i].name == n,
        forall|k: int| 0 <= k < i ==> store_names(s)[k] != n,
    ensures
        remove_spec(s, n) == s.remove(i),
    decreases s.len(),
{
    if i == 0 {
        assert(remove_spec(s, n) == s.drop_first());
        assert(s.remove(0) =~= s.drop_first());
    } else {
        assert(store_names(s)[0] != n);
        assert(s[0].name != n);
        assert(forall|k: int|
            0 <= k < i - 1 ==> store_names(s.drop_first())[k] == store_names(s)[k + 1]);
        lemma_remove_spec_at_index(s.drop_first(), n, i - 1);
        assert(remove_spec(s, n) == seq![s[0]] + remove_spec(s.drop_first(), n));
        assert(remove_spec(s, n) =~= s.remove(i));
    }
}

/// Removing an absent name changes nothing.
pub proof fn lemma_remove_spec_absent(s: Seq<BlueprintView>, n: Seq<char>)
    requires
        !store_has(s, n),
    ensures
        remove_spec(s, n) == s,
    decreases s.len(),
{
    if s.len() == 0 {
    } else {
        assert(store_names(s)[0] == s[0].name);
        assert(s[0].name != n);
        assert(!store_has(s.drop_first(), n)) by {
            if store_has(s.drop_first(), n) {
                let j = choose|j: int|
                    0 <= j < store_names(s.drop_first()).len() && store_names(s.drop_first())[j]
                        == n;
                assert(store_names(s)[j + 1] == n);
            }
        }
        lemma_remove_spec_absent(s.drop_first(), n);
        assert(remove_spec(s, n) =~= s);
    }
}

/// Distinct names stay distinct when one position is removed.
pub proof fn lemma_names_unique_remove(t: Seq<Seq<char>>, i: int)
    requires
        0 <= i < t.len(),
        names_unique(t),
    ensures
        names_unique(t.remove(i)),
{
    assert forall|a: int, b: int|
        0 <= a < b < t.remove(i).len() implies t.remove(i)[a] != t.remove(i)[b] by {
        let a2 = if a < i {
            a
        } else {
            a + 1
        };
        let b2 = if b < i {
            b
        } else {
            b + 1
        };
        assert(t.remove(i)[a] == t[a2]);
        assert(t.remove(i)[b] == t[b2]);
    }
}

/// The entries of the blueprint at the position of the first match
/// are what `entries_of` names.
pub proof fn lemma_entries_of_at_index(s: Seq<BlueprintView>, n: Seq<char>, i: int)
    requires
        0 <= i < s.len(),
        s[i].name == n,
        forall|k: int| 0 <= k < i ==> store_names(s)[k] != n,
    ensures
        entries_of(s, n) == s[i].entries,
        store_has(s, n),
    decreases s.len(),
{
    assert(store_names(s)[i] == n);
    if i == 0 {
    } else {
        assert(store_names(s)[0] != n);
        assert(s[0].name != n);
        assert(forall|k: int|
            0 <= k < i - 1 ==> store_names(s.drop_first())[k] == store_names(s)[k + 1]);
        lemma_entries_of_at_index(s.drop_first(), n, i - 1);
    }
}

/// `write_all` does not see the subdirectory entries of its list.
pub proof fn lemma_write_all_files_only(d: Seq<EntryView>, fs: Seq<EntryView>)
    ensures
        write_all(d, files_only(fs)) == write_all(d, fs),
    decreases fs.len(),
{
    if fs.len() == 0 {
        assert(files_only(fs) == Seq::<EntryView>::empty());
        assert(write_all(d, files_only(fs)) == d);
    } else {
        match fs[0] {
            EntryView::File { name: n, content: c } => {
                lemma_write_all_files_only(write_one(d, n, c), fs.drop_first());
                assert(files_only(fs) == seq![fs[0]] + files_only(fs.drop_first()));
                assert(files_only(fs)[0] == fs[0]);
                assert(files_only(fs).drop_first() =~= files_only(fs.drop_first()));
                assert(files_only(fs).len() > 0);
                assert(write_all(d, files_only(fs)) == write_all(
                    write_one(d, n, c),
                    files_only(fs.drop_first()),
                ));
            },
            EntryView::SubDir { name: sd } => {
                lemma_write_all_files_only(d, fs.drop_first());
                assert(files_only(fs) == files_only(fs.drop_first()));
            },
        }
    }
}

} // verus!
