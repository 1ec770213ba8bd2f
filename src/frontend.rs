use std::io::Read;
use vstd::prelude::*;
use vstd::string::*;

verus! {

#[verifier::external_type_specification]
#[verifier::external_body]
pub struct ExIoError(std::io::Error);

/// One entry of a tar archive as plain values: whether it is a regular file,
/// the path stored in its header, and its contents.
pub struct ArchiveEntry {
    pub is_file: bool,
    pub path: String,
    pub data: Vec<u8>,
}

impl ArchiveEntry {
    pub open spec fn view(&self) -> (bool, Seq<char>, Seq<u8>) {
        (self.is_file, self.path@, self.data@)
    }
}

/// An archive's entries in order; `None` stands for an entry that the
/// archive reader reported as unreadable.
pub open spec fn listing_view(items: Seq<Option<ArchiveEntry>>) -> Seq<Option<(bool, Seq<char>, Seq<u8>)>> {
    items.map_values(|i: Option<ArchiveEntry>| match i {
        Some(e) => Some(e.view()),
        None => None,
    })
}

/// What the tar reader lists for the archive held in `data`, or `None` where
/// it fails outright (an entry whose data or path cannot be read). An entry
/// that the reader reports as broken, as at a truncated header, is listed as
/// `None`.
pub uninterp spec fn tar_listing(data: Seq<u8>) -> Option<Seq<Option<(bool, Seq<char>, Seq<u8>)>>>;

/// Relies on `tar::Archive::entries` over the bytes, with `Header::entry_type`,
/// `EntryType::is_file`, `Header::path` and `Read::read_to_end` on each entry:
/// the listing is a function of the bytes alone.
#[verifier::external_body]
fn read_tar_listing(data: &[u8]) -> (r: Result<Vec<Option<ArchiveEntry>>, std::io::Error>)
    ensures
        r is Ok <==> tar_listing(data@) is Some,
        r matches Ok(items) ==> listing_view(items@) == tar_listing(data@)->Some_0,
{
    let mut archive = tar::Archive::new(data);
    let mut items = Vec::new();
    for entry in archive.entries()? {
        items.push(match entry {
            Ok(mut e) => {
                let mut data = Vec::new();
                e.read_to_end(&mut data)?;
                let path = e.header().path()?.display().to_string();
                Some(ArchiveEntry { is_file: e.header().entry_type().is_file(), path, data })
            },
            Err(_) => None,
        });
    }
    Ok(items)
}

/// The URL path a stored archive path is served at.
pub open spec fn url_path(stored: Seq<char>) -> Seq<char> {
    seq!['/'] + stored
}

/// The mapping that an archive listing resolves to: every regular file under
/// its URL path, a later entry replacing an earlier one with the same path;
/// other and unreadable entries leave it as it is.
pub open spec fn resolved(items: Seq<Option<(bool, Seq<char>, Seq<u8>)>>) -> Map<Seq<char>, Seq<u8>>
    decreases items.len(),
{
    if items.len() == 0 {
        Map::empty()
    } else {
        let rest = resolved(items.drop_last());
        match items.last() {
            Some((is_file, path, data)) => if is_file {
                rest.insert(url_path(path), data)
            } else {
                rest
            },
            None => rest,
        }
    }
}

/// One file of a resolved frontend.
pub struct FrontendFile {
    pub path: String,
    pub bytes: Vec<u8>,
}

/// The resolved frontend: URL paths, each held once, with the bytes served there.
///
/// Files are kept in the order their paths were first added. No caller
/// depends on another order: each file gets its own route, routes at distinct
/// static paths never compete for a request, and the framework matches a
/// request regardless of the order in which routes were mounted.
pub struct FrontendMap {
    files: Vec<FrontendFile>,
}

pub open spec fn file_keys(files: Seq<FrontendFile>) -> Seq<Seq<char>> {
    files.map_values(|f: FrontendFile| f.path@)
}

impl FrontendMap {
    pub closed spec fn entries(&self) -> Seq<(Seq<char>, Seq<u8>)> {
        self.files@.map_values(|f: FrontendFile| (f.path@, f.bytes@))
    }

    /// No path is held twice.
    pub closed spec fn wf(&self) -> bool {
        forall|i: int, j: int|
            0 <= i < self.files@.len() && 0 <= j < self.files@.len() && i != j
                ==> self.files@[i].path@ != self.files@[j].path@
    }

    pub closed spec fn view(&self) -> Map<Seq<char>, Seq<u8>> {
        Map::new(
            |k: Seq<char>| exists|i: int| 0 <= i < self.files@.len() && self.files@[i].path@ == k,
            |k: Seq<char>|
                self.files@[choose|i: int| 0 <= i < self.files@.len() && self.files@[i].path@ == k].bytes@,
        )
    }

    proof fn lemma_view_at(&self, i: int)
        requires
            self.wf(),
            0 <= i < self.files@.len(),
        ensures
            self@.contains_key(self.files@[i].path@),
            self@[self.files@[i].path@] == self.files@[i].bytes@,
    {
        let k = self.files@[i].path@;
        assert(self@.contains_key(k));
        let j = choose|j: int| 0 <= j < self.files@.len() && self.files@[j].path@ == k;
        assert(j == i);
    }

    pub fn new() -> (r: FrontendMap)
        ensures
            r.wf(),
            r@ == Map::<Seq<char>, Seq<u8>>::empty(),
            r.len() == 0,
    {
        let r = FrontendMap { files: Vec::new() };
        assert(r@ =~= Map::<Seq<char>, Seq<u8>>::empty());
        r
    }

    pub closed spec fn len(&self) -> nat {
        self.files@.len()
    }

    /// Number of paths held.
    pub fn num_files(&self) -> (r: usize)
        requires
            self.wf(),
        ensures
            r == self@.len(),
            r == self.entries().len(),
    {
        proof { self.lemma_len(); }
        self.files.len()
    }

    /// The entries hold the mapping: each one's path maps to its bytes, no
    /// path twice, and every path of the mapping among them.
    pub proof fn lemma_entries(&self)
        requires
            self.wf(),
        ensures
            self.entries().len() == self@.len(),
            forall|i: int| 0 <= i < self.entries().len() ==> #[trigger] self@.contains_key(self.entries()[i].0)
                && self@[self.entries()[i].0] == self.entries()[i].1,
            forall|i: int, j: int| 0 <= i < self.entries().len() && 0 <= j < self.entries().len() && i != j
                ==> self.entries()[i].0 != self.entries()[j].0,
            forall|k: Seq<char>| #[trigger] self@.contains_key(k)
                ==> exists|i: int| 0 <= i < self.entries().len() && self.entries()[i].0 == k,
    {
        self.lemma_len();
        assert forall|i: int| 0 <= i < self.entries().len() implies #[trigger] self@.contains_key(self.entries()[i].0)
            && self@[self.entries()[i].0] == self.entries()[i].1 by {
            self.lemma_view_at(i);
        }
        assert forall|k: Seq<char>| #[trigger] self@.contains_key(k)
            implies exists|i: int| 0 <= i < self.entries().len() && self.entries()[i].0 == k by {
            let i = choose|i: int| 0 <= i < self.files@.len() && self.files@[i].path@ == k;
            assert(self.entries()[i].0 == k);
        }
    }

    proof fn lemma_len(&self)
        requires
            self.wf(),
        ensures
            self@.len() == self.files@.len(),
            self@.dom() == file_keys(self.files@).to_set(),
    {
        let keys = file_keys(self.files@);
        assert(self@.dom() =~= keys.to_set()) by {
            assert forall|k: Seq<char>| self@.dom().contains(k) implies keys.to_set().contains(k) by {
                let i = choose|i: int| 0 <= i < self.files@.len() && self.files@[i].path@ == k;
                assert(keys[i] == k);
            }
            assert forall|k: Seq<char>| keys.to_set().contains(k) implies self@.dom().contains(k) by {
                let i = choose|i: int| 0 <= i < keys.len() && keys[i] == k;
                assert(self.files@[i].path@ == k);
            }
        }
        assert(keys.no_duplicates());
        keys.unique_seq_to_set();
    }

    /// The index of `path` among the files, if it is held.
    fn find(&self, path: &String) -> (r: Option<usize>)
        ensures
            r matches Some(i) ==> i < self.files@.len() && self.files@[i as int].path@ == path@,
            r is None ==> forall|i: int| 0 <= i < self.files@.len() ==> self.files@[i].path@ != path@,
    {
        let mut i: usize = 0;
        while i < self.files.len()
            invariant
                i <= self.files@.len(),
                forall|j: int| 0 <= j < i ==> self.files@[j].path@ != path@,
            decreases self.files@.len() - i,
        {
            if self.files[i].path == *path {
                return Some(i);
            }
            i = i + 1;
        }
        None
    }

    /// The file at position `i`, in the order the files were first added.
    pub fn file_at(&self, i: usize) -> (r: &FrontendFile)
        requires
            i < self.entries().len(),
        ensures
            (r.path@, r.bytes@) == self.entries()[i as int],
    {
        &self.files[i]
    }

    /// The bytes served at `path`, if any.
    pub fn get(&self, path: &String) -> (r: Option<&Vec<u8>>)
        requires
            self.wf(),
        ensures
            r is Some <==> self@.contains_key(path@),
            r matches Some(b) ==> b@ == self@[path@],
    {
        match self.find(path) {
            Some(i) => {
                proof { self.lemma_view_at(i as int); }
                Some(&self.files[i].bytes)
            },
            None => None,
        }
    }

    /// Serves `bytes` at `path`, replacing what was there.
    pub fn insert(&mut self, path: String, bytes: Vec<u8>)
        requires
            old(self).wf(),
        ensures
            final(self).wf(),
            final(self)@ == old(self)@.insert(path@, bytes@),
    {
        let ghost k = path@;
        let ghost v = bytes@;
        match self.find(&path) {
            Some(i) => {
                self.files.set(i, FrontendFile { path, bytes });
                proof {
                    assert forall|x: Seq<char>| #[trigger] self@.contains_key(x) <==> old(self)@.insert(k, v).contains_key(x) by {
                        if x != k {
                            if old(self)@.contains_key(x) {
                                let j = choose|j: int| 0 <= j < old(self).files@.len() && old(self).files@[j].path@ == x;
                                assert(self.files@[j].path@ == x);
                            }
                            if self@.contains_key(x) {
                                let j = choose|j: int| 0 <= j < self.files@.len() && self.files@[j].path@ == x;
                                assert(old(self).files@[j].path@ == x);
                            }
                        } else {
                            assert(self.files@[i as int].path@ == x);
                        }
                    }
                    assert forall|x: Seq<char>| #[trigger] self@.contains_key(x) implies self@[x] == old(self)@.insert(k, v)[x] by {
                        let j = choose|j: int| 0 <= j < self.files@.len() && self.files@[j].path@ == x;
                        self.lemma_view_at(j);
                        if x != k {
                            old(self).lemma_view_at(j);
                        }
                    }
                    assert(self@ =~= old(self)@.insert(k, v));
                }
            },
            None => {
                self.files.push(FrontendFile { path, bytes });
                proof {
                    let n = old(self).files@.len() as int;
                    assert forall|x: Seq<char>| #[trigger] self@.contains_key(x) <==> old(self)@.insert(k, v).contains_key(x) by {
                        if x != k {
                            if old(self)@.contains_key(x) {
                                let j = choose|j: int| 0 <= j < old(self).files@.len() && old(self).files@[j].path@ == x;
                                assert(self.files@[j].path@ == x);
                            }
                            if self@.contains_key(x) {
                                let j = choose|j: int| 0 <= j < self.files@.len() && self.files@[j].path@ == x;
                                assert(old(self).files@[j].path@ == x);
                            }
                        } else {
                            assert(self.files@[n].path@ == x);
                        }
                    }
                    assert forall|x: Seq<char>| #[trigger] self@.contains_key(x) implies self@[x] == old(self)@.insert(k, v)[x] by {
                        let j = choose|j: int| 0 <= j < self.files@.len() && self.files@[j].path@ == x;
                        self.lemma_view_at(j);
                        if x != k {
                            old(self).lemma_view_at(j);
                        }
                    }
                    assert(self@ =~= old(self)@.insert(k, v));
                }
            },
        }
    }
}


/// The URL path that a stored archive path is served at: the stored path
/// behind a `/`.
pub fn url_path_of(stored: &String) -> (r: String)
    ensures
        r@ == url_path(stored@),
{
    let mut r = String::from_str("/");
    proof { reveal_strlit("/"); }
    r.append(stored.as_str());
    assert(r@ =~= url_path(stored@));
    r
}

/// No entry of the listing was reported unreadable.
pub open spec fn all_readable(items: Seq<Option<(bool, Seq<char>, Seq<u8>)>>) -> bool {
    forall|i: int| 0 <= i < items.len() ==> #[trigger] items[i] is Some
}

/// Resolves an archive listing: every regular file under its URL path, a
/// later entry replacing an earlier one with the same path; directories and
/// links are skipped. `None` where an entry could not be read.
pub fn resolve_listing(items: &Vec<Option<ArchiveEntry>>) -> (r: Option<FrontendMap>)
    ensures
        r is Some <==> all_readable(listing_view(items@)),
        r matches Some(m) ==> m.wf() && m@ == resolved(listing_view(items@)),
{
    let ghost all = listing_view(items@);
    let mut files = FrontendMap::new();
    let mut i: usize = 0;
    assert(all.take(0) =~= Seq::<Option<(bool, Seq<char>, Seq<u8>)>>::empty());
    while i < items.len()
        invariant
            i <= items@.len(),
            all == listing_view(items@),
            all_readable(all.take(i as int)),
            files.wf(),
            files@ == resolved(all.take(i as int)),
        decreases items@.len() - i,
    {
        assert(all.take(i + 1).drop_last() =~= all.take(i as int));
        assert(all.take(i + 1).last() == all[i as int]);
        match &items[i] {
            Some(entry) => {
                if entry.is_file {
                    let data = entry.data.clone();
                    assert(data@ =~= entry.data@);
                    files.insert(url_path_of(&entry.path), data);
                }
            },
            None => {
                assert(all[i as int] is None);
                return None;
            },
        }
        assert(all_readable(all.take(i + 1))) by {
            assert forall|j: int| 0 <= j < i + 1 implies #[trigger] all.take(i + 1)[j] is Some by {
                if j < i {
                    assert(all.take(i + 1)[j] == all.take(i as int)[j]);
                }
            }
        }
        i = i + 1;
    }
    assert(all.take(items@.len() as int) =~= all);
    Some(files)
}

/// Why a frontend could not be resolved.
#[derive(Debug)]
pub enum FrontendError {
    /// The archive could not be read: it is truncated, or an entry's data or
    /// path could not be read.
    Io(std::io::Error),
    /// An entry of the archive could not be read.
    UnreadableEntry,
}

/// A source of frontend files that can be resolved, once, into a mapping from
/// URL path to bytes.
pub trait Frontend: Sized {
    /// The mapping this source resolves to, or `None` where it cannot be read.
    spec fn files(&self) -> Option<Map<Seq<char>, Seq<u8>>>;

    fn resolve(self) -> (r: Result<FrontendMap, FrontendError>)
        ensures
            r is Ok <==> self.files() is Some,
            r matches Ok(m) ==> m.wf() && m@ == self.files()->Some_0;
}

/// A frontend held as the bytes of a tar archive.
pub struct TarFrontend {
    pub data: Vec<u8>,
}

impl TarFrontend {
    pub fn new(data: Vec<u8>) -> (r: TarFrontend)
        ensures
            r.data@ == data@,
    {
        TarFrontend { data }
    }
}

/// What the archive in `data` resolves to, or `None` where it cannot be read.
pub open spec fn archive_files(data: Seq<u8>) -> Option<Map<Seq<char>, Seq<u8>>> {
    match tar_listing(data) {
        Some(items) => if all_readable(items) {
            Some(resolved(items))
        } else {
            None
        },
        None => None,
    }
}

impl Frontend for TarFrontend {
    open spec fn files(&self) -> Option<Map<Seq<char>, Seq<u8>>> {
        archive_files(self.data@)
    }

    fn resolve(self) -> (r: Result<FrontendMap, FrontendError>) {
        match read_tar_listing(self.data.as_slice()) {
            Ok(items) => match resolve_listing(&items) {
                Some(files) => Ok(files),
                None => Err(FrontendError::UnreadableEntry),
            },
            Err(e) => Err(FrontendError::Io(e)),
        }
    }
}


proof fn lemma_url_path_injective(a: Seq<char>, b: Seq<char>)
    requires
        url_path(a) == url_path(b),
    ensures
        a == b,
{
    assert(a =~= url_path(a).drop_first());
    assert(b =~= url_path(b).drop_first());
}

/// The entry at `i` is a regular file whose URL path is `k`.
pub open spec fn file_served_at(items: Seq<Option<(bool, Seq<char>, Seq<u8>)>>, i: int, k: Seq<char>) -> bool {
    &&& items[i] is Some
    &&& items[i]->Some_0.0
    &&& k == url_path(items[i]->Some_0.1)
}

/// Every path of a resolved listing comes from a regular file of it.
proof fn lemma_keys_from_files(items: Seq<Option<(bool, Seq<char>, Seq<u8>)>>)
    ensures
        forall|k: Seq<char>| #[trigger] resolved(items).contains_key(k) ==> exists|i: int|
            0 <= i < items.len() && file_served_at(items, i, k),
    decreases items.len(),
{
    if items.len() > 0 {
        let prefix = items.drop_last();
        lemma_keys_from_files(prefix);
        assert forall|k: Seq<char>| #[trigger] resolved(items).contains_key(k) implies exists|i: int|
            0 <= i < items.len() && file_served_at(items, i, k) by {
            if resolved(prefix).contains_key(k) {
                let i = choose|i: int| 0 <= i < prefix.len() && file_served_at(prefix, i, k);
                assert(items[i] == prefix[i]);
                assert(file_served_at(items, i, k));
            } else {
                assert(items[items.len() - 1] == items.last());
                assert(file_served_at(items, items.len() - 1, k));
            }
        }
    }
}

/// A listing of regular files only, no stored path twice.
pub open spec fn distinct_files(items: Seq<Option<(bool, Seq<char>, Seq<u8>)>>) -> bool {
    &&& forall|i: int| 0 <= i < items.len() ==> (#[trigger] items[i] is Some && items[i]->Some_0.0)
    &&& forall|i: int, j: int| 0 <= i < items.len() && 0 <= j < items.len() && i != j
        ==> items[i]->Some_0.1 != items[j]->Some_0.1
}

proof fn lemma_distinct_files(items: Seq<Option<(bool, Seq<char>, Seq<u8>)>>)
    requires
        distinct_files(items),
    ensures
        resolved(items).dom().finite(),
        resolved(items).len() == items.len(),
        forall|i: int| 0 <= i < items.len() ==> #[trigger] resolved(items).contains_key(url_path(items[i]->Some_0.1))
            && resolved(items)[url_path(items[i]->Some_0.1)] == items[i]->Some_0.2,
        forall|k: Seq<char>| #[trigger] resolved(items).contains_key(k)
            ==> exists|i: int| 0 <= i < items.len() && k == url_path(items[i]->Some_0.1),
    decreases items.len(),
{
    if items.len() > 0 {
        let prefix = items.drop_last();
        let n = items.len() - 1;
        assert(distinct_files(prefix)) by {
            assert forall|i: int| 0 <= i < prefix.len() implies (#[trigger] prefix[i] is Some && prefix[i]->Some_0.0) by {
                assert(prefix[i] == items[i]);
            }
        }
        lemma_distinct_files(prefix);
        assert(items[n] is Some && items[n]->Some_0.0);
        assert(items.last() == items[n]);
        let last = url_path(items[n]->Some_0.1);
        assert(!resolved(prefix).contains_key(last)) by {
            if resolved(prefix).contains_key(last) {
                let i = choose|i: int| 0 <= i < prefix.len() && last == url_path(prefix[i]->Some_0.1);
                lemma_url_path_injective(items[n]->Some_0.1, items[i]->Some_0.1);
            }
        }
        assert forall|i: int| 0 <= i < items.len() implies #[trigger] resolved(items).contains_key(url_path(items[i]->Some_0.1))
            && resolved(items)[url_path(items[i]->Some_0.1)] == items[i]->Some_0.2 by {
            if i < n {
                assert(prefix[i] == items[i]);
                if url_path(items[i]->Some_0.1) == last {
                    lemma_url_path_injective(items[n]->Some_0.1, items[i]->Some_0.1);
                }
            }
        }
        assert forall|k: Seq<char>| #[trigger] resolved(items).contains_key(k)
            implies exists|i: int| 0 <= i < items.len() && k == url_path(items[i]->Some_0.1) by {
            if k != last {
                let i = choose|i: int| 0 <= i < prefix.len() && k == url_path(prefix[i]->Some_0.1);
                assert(prefix[i] == items[i]);
            }
        }
    }
}

/// An archive of regular files only, none stored twice, resolves to a mapping
/// with exactly one path per file: each file's stored path behind a `/`,
/// holding exactly that file's bytes, and no other path.
pub proof fn archive_of_files_resolves_one_to_one(data: Seq<u8>)
    requires
        tar_listing(data) matches Some(items) && distinct_files(items),
    ensures
        all_readable(tar_listing(data)->Some_0),
        archive_files(data) matches Some(m) && {
            let items = tar_listing(data)->Some_0;
            &&& m.len() == items.len()
            &&& forall|i: int| 0 <= i < items.len() ==> #[trigger] m.contains_key(url_path(items[i]->Some_0.1))
                && m[url_path(items[i]->Some_0.1)] == items[i]->Some_0.2
            &&& forall|k: Seq<char>| #[trigger] m.contains_key(k)
                ==> exists|i: int| 0 <= i < items.len() && k == url_path(items[i]->Some_0.1)
        },
{
    lemma_distinct_files(tar_listing(data)->Some_0);
}

/// Directories and other entries that are not regular files never give a
/// path: every path that an archive resolves to is that of a regular file in it.
pub proof fn archive_paths_come_from_files(data: Seq<u8>)
    requires
        archive_files(data) is Some,
    ensures
        archive_files(data) matches Some(m) && forall|k: Seq<char>| #[trigger] m.contains_key(k) ==> exists|i: int|
            0 <= i < tar_listing(data)->Some_0.len() && file_served_at(tar_listing(data)->Some_0, i, k),
{
    lemma_keys_from_files(tar_listing(data)->Some_0);
}


/// The readable regular files of a listing, in order; other entries dropped.
pub open spec fn files_only(items: Seq<Option<(bool, Seq<char>, Seq<u8>)>>) -> Seq<Option<(bool, Seq<char>, Seq<u8>)>>
    decreases items.len(),
{
    if items.len() == 0 {
        Seq::empty()
    } else {
        let rest = files_only(items.drop_last());
        match items.last() {
            Some((is_file, path, data)) => if is_file {
                rest.push(Some((is_file, path, data)))
            } else {
                rest
            },
            None => rest,
        }
    }
}

proof fn lemma_resolved_files_only(items: Seq<Option<(bool, Seq<char>, Seq<u8>)>>)
    ensures
        resolved(items) == resolved(files_only(items)),
    decreases items.len(),
{
    if items.len() > 0 {
        lemma_resolved_files_only(items.drop_last());
        let rest = files_only(items.drop_last());
        match items.last() {
            Some((is_file, path, data)) => if is_file {
                assert(rest.push(Some((is_file, path, data))).drop_last() =~= rest);
            },
            None => {},
        }
    }
}

/// Entries that are not regular files do not change what an archive resolves
/// to: two readable archives whose regular files, in order, are the same
/// resolve to the same mapping, whatever directories or links stand among them.
pub proof fn non_file_entries_do_not_matter(a: Seq<u8>, b: Seq<u8>)
    requires
        tar_listing(a) matches Some(la) && all_readable(la),
        tar_listing(b) matches Some(lb) && all_readable(lb),
        files_only(tar_listing(a)->Some_0) == files_only(tar_listing(b)->Some_0),
    ensures
        archive_files(a) is Some,
        archive_files(a) == archive_files(b),
{
    lemma_resolved_files_only(tar_listing(a)->Some_0);
    lemma_resolved_files_only(tar_listing(b)->Some_0);
}

} // verus!
