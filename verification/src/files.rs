//! A reference model of the per-session file area: the mapping from
//! canonical path to content that the sandbox-rooted file operations
//! maintain, with the contracts the HTTP file handlers are held to.
//! Contents cross the HTTP surface base64-encoded.

use vstd::prelude::*;
use vstd::string::*;
use crate::codec::{b64_decode, b64_decoded, b64_encode, b64_of, is_b64};
use crate::env_map::clone_string;
use crate::errors::ApiError;
use crate::paths::{joined_path, join_segments, normalize_path, path_segments, segs_view};
use crate::strutil::str_eq;

verus! {

struct FileRecord {
    segs: Vec<String>,
    data: Vec<u8>,
}

/// The files of one sandbox, keyed by canonical segments.
pub struct SandboxFiles {
    records: Vec<FileRecord>,
}

spec fn fmap_of(s: Seq<FileRecord>) -> Map<Seq<Seq<char>>, Seq<u8>>
    decreases s.len(),
{
    if s.len() == 0 {
        Map::empty()
    } else {
        fmap_of(s.drop_last()).insert(segs_view(s.last().segs@), s.last().data@)
    }
}

impl View for SandboxFiles {
    type V = Map<Seq<Seq<char>>, Seq<u8>>;

    closed spec fn view(&self) -> Map<Seq<Seq<char>>, Seq<u8>> {
        fmap_of(self.records@)
    }
}

proof fn lemma_fmap_contains(s: Seq<FileRecord>, k: Seq<Seq<char>>)
    ensures
        fmap_of(s).contains_key(k) <==> exists|i: int|
            0 <= i < s.len() && segs_view(s[i].segs@) == k,
    decreases s.len(),
{
    if s.len() > 0 {
        lemma_fmap_contains(s.drop_last(), k);
        if segs_view(s.last().segs@) != k && fmap_of(s).contains_key(k) {
            let i = choose|i: int|
                0 <= i < s.drop_last().len() && segs_view(s.drop_last()[i].segs@) == k;
            assert(segs_view(s[i].segs@) == k);
        }
        if exists|i: int| 0 <= i < s.len() && segs_view(s[i].segs@) == k {
            let i = choose|i: int| 0 <= i < s.len() && segs_view(s[i].segs@) == k;
            if i < s.len() - 1 {
                assert(segs_view(s.drop_last()[i].segs@) == k);
            }
        }
    }
}

proof fn lemma_fmap_at(s: Seq<FileRecord>, i: int)
    requires
        0 <= i < s.len(),
        forall|p: int, q: int|
            0 <= p < q < s.len() ==> segs_view(s[p].segs@) != segs_view(s[q].segs@),
    ensures
        fmap_of(s).contains_key(segs_view(s[i].segs@)),
        fmap_of(s)[segs_view(s[i].segs@)] == s[i].data@,
    decreases s.len(),
{
    lemma_fmap_contains(s, segs_view(s[i].segs@));
    if i < s.len() - 1 {
        assert(s.drop_last()[i] == s[i]);
        lemma_fmap_at(s.drop_last(), i);
        assert(segs_view(s.last().segs@) != segs_view(s[i].segs@));
    }
}

proof fn lemma_fmap_update(s: Seq<FileRecord>, i: int, x: FileRecord)
    requires
        0 <= i < s.len(),
        forall|p: int, q: int|
            0 <= p < q < s.len() ==> segs_view(s[p].segs@) != segs_view(s[q].segs@),
        segs_view(x.segs@) == segs_view(s[i].segs@),
    ensures
        fmap_of(s.update(i, x)) == fmap_of(s).insert(segs_view(x.segs@), x.data@),
    decreases s.len(),
{
    let su = s.update(i, x);
    if i == s.len() - 1 {
        assert(su.drop_last() =~= s.drop_last());
        assert(fmap_of(su) =~= fmap_of(s).insert(segs_view(x.segs@), x.data@));
    } else {
        assert(su.drop_last() =~= s.drop_last().update(i, x));
        lemma_fmap_update(s.drop_last(), i, x);
        assert(segs_view(s.last().segs@) != segs_view(x.segs@));
        assert(fmap_of(su) =~= fmap_of(s).insert(segs_view(x.segs@), x.data@));
    }
}

/// Whether two segment lists hold the same characters.
fn segs_eq(a: &Vec<String>, b: &Vec<String>) -> (r: bool)
    ensures
        r == (segs_view(a@) == segs_view(b@)),
{
    let n = a.len();
    if n != b.len() {
        proof {
            assert(segs_view(a@).len() != segs_view(b@).len());
        }
        return false;
    }
    let mut i: usize = 0;
    while i < n
        invariant
            0 <= i <= n,
            n == a@.len(),
            n == b@.len(),
            forall|j: int| 0 <= j < i ==> a@[j]@ == b@[j]@,
        decreases n - i,
    {
        if !str_eq(a[i].as_str(), b[i].as_str()) {
            proof {
                assert(segs_view(a@)[i as int] != segs_view(b@)[i as int]);
            }
            return false;
        }
        i = i + 1;
    }
    proof {
        assert(segs_view(a@) =~~= segs_view(b@));
    }
    true
}

/// Whether writing at `segs` would make a file of an existing directory
/// or a directory of an existing file: some other path is a strict
/// extension or a strict prefix of it. The filesystem refuses both.
pub open spec fn path_conflict(m: Map<Seq<Seq<char>>, Seq<u8>>, segs: Seq<Seq<char>>) -> bool {
    exists|k: Seq<Seq<char>>|
        #[trigger] m.contains_key(k) && (strict_under(k, segs) || strict_under(segs, k))
}

/// What writing one file does to the sandbox contents: bad base64 or an
/// escaping path is rejected; a path that collides with an existing file
/// or directory fails as the filesystem would; anything else lands under
/// its canonical path, with intermediate directories implied.
pub open spec fn write_spec(
    m: Map<Seq<Seq<char>>, Seq<u8>>,
    path: Seq<char>,
    content: Seq<char>,
) -> Result<Map<Seq<Seq<char>>, Seq<u8>>, ApiError> {
    if !is_b64(content) {
        Result::Err(ApiError::BadRequest)
    } else {
        match path_segments(path) {
            Option::Some(segs) => {
                if path_conflict(m, segs) {
                    Result::Err(ApiError::Internal)
                } else {
                    Result::Ok(m.insert(segs, b64_decoded(content)))
                }
            },
            Option::None => Result::Err(ApiError::BadRequest),
        }
    }
}

/// What reading one file returns: the base64 rendering of the stored
/// bytes; an escaping path is invalid and an unknown path is not found.
pub open spec fn read_spec(m: Map<Seq<Seq<char>>, Seq<u8>>, path: Seq<char>) -> Result<
    Seq<char>,
    ApiError,
> {
    match path_segments(path) {
        Option::Some(segs) => {
            if m.contains_key(segs) {
                Result::Ok(b64_of(m[segs]))
            } else {
                Result::Err(ApiError::NotFound)
            }
        },
        Option::None => Result::Err(ApiError::BadRequest),
    }
}

impl SandboxFiles {
    /// Records at distinct canonical paths, none a strict prefix of
    /// another: a path is a file or a directory, never both.
    pub closed spec fn wf(&self) -> bool {
        &&& forall|p: int, q: int|
            0 <= p < q < self.records@.len() ==> segs_view(self.records@[p].segs@) != segs_view(
                self.records@[q].segs@,
            )
        &&& forall|p: int, q: int|
            #![trigger strict_under(segs_view(self.records@[p].segs@), segs_view(self.records@[q].segs@))]
            0 <= p < self.records@.len() && 0 <= q < self.records@.len() && p != q
                ==> !strict_under(
                segs_view(self.records@[p].segs@),
                segs_view(self.records@[q].segs@),
            )
    }

    /// An empty sandbox file area.
    pub fn new() -> (r: SandboxFiles)
        ensures
            r.wf(),
            r@ == Map::<Seq<Seq<char>>, Seq<u8>>::empty(),
    {
        SandboxFiles { records: Vec::new() }
    }

    fn find_record(&self, segs: &Vec<String>) -> (r: Option<usize>)
        ensures
            match r {
                Some(i) => i < self.records@.len() && segs_view(self.records@[i as int].segs@)
                    == segs_view(segs@),
                None => forall|j: int|
                    0 <= j < self.records@.len() ==> segs_view(self.records@[j].segs@)
                        != segs_view(segs@),
            },
    {
        let n = self.records.len();
        let mut i: usize = 0;
        while i < n
            invariant
                0 <= i <= n,
                n == self.records@.len(),
                forall|j: int| 0 <= j < i ==> segs_view(self.records@[j].segs@) != segs_view(segs@),
            decreases n - i,
        {
            if segs_eq(&self.records[i].segs, segs) {
                return Some(i);
            }
            i = i + 1;
        }
        None
    }

    fn put(&mut self, segs: Vec<String>, data: Vec<u8>)
        requires
            old(self).wf(),
            !path_conflict(old(self)@, segs_view(segs@)),
        ensures
            final(self).wf(),
            final(self)@ == old(self)@.insert(segs_view(segs@), data@),
    {
        proof {
            assert forall|t: int|
                0 <= t < self.records@.len() implies !strict_under(
                segs_view(self.records@[t].segs@),
                segs_view(segs@),
            ) && !strict_under(segs_view(segs@), segs_view(self.records@[t].segs@)) by {
                lemma_fmap_at(self.records@, t);
            }
        }
        match self.find_record(&segs) {
            Some(i) => {
                proof {
                    lemma_fmap_update(self.records@, i as int, FileRecord { segs, data });
                }
                let _ = self.records.remove(i);
                self.records.insert(i, FileRecord { segs, data });
                proof {
                    assert(self.records@ =~= old(self).records@.update(
                        i as int,
                        self.records@[i as int],
                    ));
                    assert forall|p: int, q: int|
                        0 <= p < q < self.records@.len() implies segs_view(self.records@[p].segs@)
                        != segs_view(self.records@[q].segs@) by {
                        assert(segs_view(self.records@[p].segs@) == segs_view(
                            old(self).records@[p].segs@,
                        ));
                        assert(segs_view(self.records@[q].segs@) == segs_view(
                            old(self).records@[q].segs@,
                        ));
                    }
                }
            },
            None => {
                self.records.push(FileRecord { segs, data });
                proof {
                    assert(self.records@.drop_last() =~= old(self).records@);
                    assert forall|p: int, q: int|
                        0 <= p < q < self.records@.len() implies segs_view(self.records@[p].segs@)
                        != segs_view(self.records@[q].segs@) by {
                        assert(self.records@[p] == old(self).records@[p]);
                        if q < self.records@.len() - 1 {
                            assert(self.records@[q] == old(self).records@[q]);
                        }
                    }
                }
            },
        }
    }

    /// Stores base64-encoded content under a request path.
    pub fn write_file(&mut self, path: &str, content_b64: &String) -> (r: Result<(), ApiError>)
        requires
            old(self).wf(),
        ensures
            final(self).wf(),
            match r {
                Ok(_) => write_spec(old(self)@, path@, content_b64@) == Result::Ok::<
                    Map<Seq<Seq<char>>, Seq<u8>>,
                    ApiError,
                >(final(self)@),
                Err(e) => write_spec(old(self)@, path@, content_b64@) == Result::Err::<
                    Map<Seq<Seq<char>>, Seq<u8>>,
                    ApiError,
                >(e) && *final(self) == *old(self),
            },
    {
        let data = match b64_decode(content_b64) {
            Some(d) => d,
            None => {
                return Err(ApiError::BadRequest);
            },
        };
        let segs = match normalize_path(path) {
            Some(s) => s,
            None => {
                return Err(ApiError::BadRequest);
            },
        };
        proof {
            assert(is_b64(content_b64@));
            assert(b64_decoded(content_b64@) == data@);
        }
        if self.find_conflict(&segs) {
            return Err(ApiError::Internal);
        }
        self.put(segs, data);
        Ok(())
    }

    fn find_conflict(&self, segs: &Vec<String>) -> (r: bool)
        requires
            self.wf(),
        ensures
            r == path_conflict(self@, segs_view(segs@)),
    {
        let n = self.records.len();
        let mut i: usize = 0;
        while i < n
            invariant
                0 <= i <= n,
                n == self.records@.len(),
                self.wf(),
                forall|j: int|
                    0 <= j < i ==> !strict_under(
                        segs_view((#[trigger] self.records@[j]).segs@),
                        segs_view(segs@),
                    ) && !strict_under(segs_view(segs@), segs_view(self.records@[j].segs@)),
            decreases n - i,
        {
            if is_strict_child(&self.records[i].segs, segs) || is_strict_child(
                segs,
                &self.records[i].segs,
            ) {
                proof {
                    lemma_fmap_at(self.records@, i as int);
                }
                return true;
            }
            i = i + 1;
        }
        proof {
            if path_conflict(self@, segs_view(segs@)) {
                let k = choose|k: Seq<Seq<char>>|
                    #[trigger] self@.contains_key(k) && (strict_under(k, segs_view(segs@))
                        || strict_under(segs_view(segs@), k));
                lemma_fmap_contains(self.records@, k);
                let t = choose|t: int|
                    0 <= t < self.records@.len() && segs_view(self.records@[t].segs@) == k;
                assert(!strict_under(segs_view(self.records@[t].segs@), segs_view(segs@)));
            }
        }
        false
    }

    /// Reads the file under a request path, base64-encoded.
    pub fn read_file(&self, path: &str) -> (r: Result<String, ApiError>)
        requires
            self.wf(),
        ensures
            match r {
                Ok(s) => read_spec(self@, path@) == Result::Ok::<Seq<char>, ApiError>(s@),
                Err(e) => read_spec(self@, path@) == Result::Err::<Seq<char>, ApiError>(e),
            },
    {
        let segs = match normalize_path(path) {
            Some(s) => s,
            None => {
                return Err(ApiError::BadRequest);
            },
        };
        proof {
            lemma_fmap_contains(self.records@, segs_view(segs@));
        }
        match self.find_record(&segs) {
            Some(i) => {
                proof {
                    lemma_fmap_at(self.records@, i as int);
                }
                Ok(b64_encode(&self.records[i].data))
            },
            None => Err(ApiError::NotFound),
        }
    }
}

/// One file of a bulk write request.
pub struct WriteEntry {
    pub path: String,
    /// Base64-encoded content.
    pub content: String,
}

/// A per-path failure reported by a bulk write.
pub struct WriteFileError {
    pub path: String,
    pub error: String,
}

/// What a bulk write reports: overall success, and one entry per path
/// that failed.
pub struct BulkReport {
    pub success: bool,
    pub errors: Vec<WriteFileError>,
}

/// The (path, content) views of a bulk request.
pub open spec fn entries_view(v: Seq<WriteEntry>) -> Seq<(Seq<char>, Seq<char>)> {
    v.map_values(|e: WriteEntry| (e.path@, e.content@))
}

/// The request paths a bulk write rejects, in order: those that escape
/// the sandbox, and those that collide with a file or directory present
/// when their turn comes.
pub open spec fn bulk_failed(
    m: Map<Seq<Seq<char>>, Seq<u8>>,
    files: Seq<(Seq<char>, Seq<char>)>,
) -> Seq<Seq<char>>
    decreases files.len(),
{
    if files.len() == 0 {
        Seq::empty()
    } else {
        let prev = bulk_failed(m, files.drop_last());
        if write_spec(seq_write(m, files.drop_last()), files.last().0, files.last().1) is Ok {
            prev
        } else {
            prev.push(files.last().0)
        }
    }
}

/// Writing the files one at a time, in order, each through `write_spec`,
/// keeping the previous contents where a write fails.
pub open spec fn seq_write(
    m: Map<Seq<Seq<char>>, Seq<u8>>,
    files: Seq<(Seq<char>, Seq<char>)>,
) -> Map<Seq<Seq<char>>, Seq<u8>>
    decreases files.len(),
{
    if files.len() == 0 {
        m
    } else {
        let prev = seq_write(m, files.drop_last());
        match write_spec(prev, files.last().0, files.last().1) {
            Result::Ok(m2) => m2,
            Result::Err(_) => prev,
        }
    }
}

impl SandboxFiles {
    /// Stores every file of a bulk request. Any invalid base64 rejects the
    /// whole request before anything is written; an escaping or colliding
    /// path is reported per file while the rest are written. The final
    /// contents are exactly those of writing the files one at a time, in
    /// the same order (`seq_write`): a bulk write is observationally
    /// equivalent to sequential writes.
    pub fn write_files_bulk(&mut self, files: &Vec<WriteEntry>) -> (r: Result<BulkReport, ApiError>)
        requires
            old(self).wf(),
        ensures
            final(self).wf(),
            match r {
                Ok(rep) => {
                    &&& forall|i: int|
                        0 <= i < files@.len() ==> is_b64((#[trigger] files@[i]).content@)
                    &&& final(self)@ == seq_write(old(self)@, entries_view(files@))
                    &&& rep.success == (bulk_failed(old(self)@, entries_view(files@)).len() == 0)
                    &&& rep.errors@.len() == bulk_failed(old(self)@, entries_view(files@)).len()
                    &&& forall|i: int|
                        0 <= i < rep.errors@.len() ==> (#[trigger] rep.errors@[i]).path@
                            == bulk_failed(old(self)@, entries_view(files@))[i]
                },
                Err(e) => {
                    &&& e == ApiError::BadRequest
                    &&& exists|i: int|
                        0 <= i < files@.len() && !is_b64((#[trigger] files@[i]).content@)
                    &&& *final(self) == *old(self)
                },
            },
    {
        let n = files.len();
        let mut decoded: Vec<Vec<u8>> = Vec::new();
        let mut i: usize = 0;
        while i < n
            invariant
                0 <= i <= n,
                n == files@.len(),
                *self == *old(self),
                self.wf(),
                decoded@.len() == i,
                forall|j: int|
                    0 <= j < i ==> is_b64((#[trigger] files@[j]).content@) && decoded@[j]@
                        == b64_decoded(files@[j].content@),
            decreases n - i,
        {
            match b64_decode(&files[i].content) {
                Some(d) => {
                    decoded.push(d);
                },
                None => {
                    return Err(ApiError::BadRequest);
                },
            }
            i = i + 1;
        }
        let mut errors: Vec<WriteFileError> = Vec::new();
        let mut k: usize = 0;
        while k < n
            invariant
                0 <= k <= n,
                n == files@.len(),
                self.wf(),
                decoded@.len() == n - k,
                forall|j: int|
                    k <= j < n ==> is_b64((#[trigger] files@[j]).content@) && decoded@[j - k]@
                        == b64_decoded(files@[j].content@),
                self@ == seq_write(old(self)@, entries_view(files@).take(k as int)),
                errors@.len() == bulk_failed(old(self)@, entries_view(files@).take(k as int)).len(),
                forall|i2: int|
                    0 <= i2 < errors@.len() ==> (#[trigger] errors@[i2]).path@ == bulk_failed(
                        old(self)@,
                        entries_view(files@).take(k as int),
                    )[i2],
            decreases n - k,
        {
            proof {
                assert(entries_view(files@).take(k + 1 as int).drop_last() =~= entries_view(
                    files@,
                ).take(k as int));
                assert(entries_view(files@).take(k + 1 as int).last() == (
                    files@[k as int].path@,
                    files@[k as int].content@,
                ));
            }
            let ghost dhead = decoded@;
            let data = decoded.remove(0);
            proof {
                assert(data@ == b64_decoded(files@[k as int].content@));
            }
            proof {
                assert(is_b64(files@[k as int].content@));
            }
            match normalize_path(files[k].path.as_str()) {
                Some(segs) => {
                    if self.find_conflict(&segs) {
                        errors.push(
                            WriteFileError {
                                path: clone_string(&files[k].path),
                                error: "conflicting path".to_owned(),
                            },
                        );
                    } else {
                        self.put(segs, data);
                    }
                },
                None => {
                    errors.push(
                        WriteFileError {
                            path: clone_string(&files[k].path),
                            error: "invalid path".to_owned(),
                        },
                    );
                },
            }
            proof {
                assert forall|j: int| k + 1 <= j < n implies is_b64(
                    (#[trigger] files@[j]).content@,
                ) && decoded@[j - (k + 1)]@ == b64_decoded(files@[j].content@) by {
                    assert(decoded@[j - (k + 1)] == dhead[j - k]);
                }
            }
            k = k + 1;
        }
        proof {
            assert(entries_view(files@).take(n as int) =~= entries_view(files@));
        }
        let success = errors.len() == 0;
        Ok(BulkReport { success, errors })
    }
}

/// One entry of a directory listing.
pub struct FileEntry {
    pub name: String,
    pub path: String,
    pub is_directory: bool,
    pub size: u64,
}

/// Whether `k` lies strictly below `dir`.
pub open spec fn strict_under(k: Seq<Seq<char>>, dir: Seq<Seq<char>>) -> bool {
    k.len() > dir.len() && k.take(dir.len() as int) == dir
}

/// Whether `dir` exists: the root always does, any other directory only
/// by holding something.
pub open spec fn dir_exists(m: Map<Seq<Seq<char>>, Seq<u8>>, dir: Seq<Seq<char>>) -> bool {
    dir.len() == 0 || exists|k: Seq<Seq<char>>| #[trigger] m.contains_key(k) && strict_under(k, dir)
}

/// One listing entry is truthful about `m` and `dir`.
pub open spec fn sound_entry(m: Map<Seq<Seq<char>>, Seq<u8>>, dir: Seq<Seq<char>>, e: FileEntry) -> bool {
    &&& e.path@ == joined_path(dir.push(e.name@))
    &&& if e.is_directory {
        e.size == 0 && exists|k: Seq<Seq<char>>| #[trigger] m.contains_key(k) && strict_under(
            k,
            dir.push(e.name@),
        )
    } else {
        m.contains_key(dir.push(e.name@)) && e.size as nat == m[dir.push(e.name@)].len()
    }
}

/// Some entry lists `name` as a plain file.
pub open spec fn has_file_entry(es: Seq<FileEntry>, name: Seq<char>) -> bool {
    exists|j: int| 0 <= j < es.len() && (#[trigger] es[j]).name@ == name && !es[j].is_directory
}

/// Some entry lists `name` as a directory.
pub open spec fn has_dir_entry(es: Seq<FileEntry>, name: Seq<char>) -> bool {
    exists|j: int| 0 <= j < es.len() && (#[trigger] es[j]).name@ == name && es[j].is_directory
}

fn is_strict_child(ks: &Vec<String>, dir: &Vec<String>) -> (r: bool)
    ensures
        r == strict_under(segs_view(ks@), segs_view(dir@)),
{
    let dn = dir.len();
    if ks.len() <= dn {
        return false;
    }
    let mut j: usize = 0;
    while j < dn
        invariant
            0 <= j <= dn,
            dn == dir@.len(),
            dn < ks@.len(),
            forall|t: int| 0 <= t < j ==> ks@[t]@ == dir@[t]@,
        decreases dn - j,
    {
        if !str_eq(ks[j].as_str(), dir[j].as_str()) {
            proof {
                assert(segs_view(ks@).take(dn as int)[j as int] != segs_view(dir@)[j as int]);
            }
            return false;
        }
        j = j + 1;
    }
    proof {
        assert(segs_view(ks@).take(dn as int) =~~= segs_view(dir@));
    }
    true
}

fn clone_segs(v: &Vec<String>) -> (r: Vec<String>)
    ensures
        segs_view(r@) == segs_view(v@),
        r@.len() == v@.len(),
{
    let n = v.len();
    let mut r: Vec<String> = Vec::new();
    let mut i: usize = 0;
    while i < n
        invariant
            0 <= i <= n,
            n == v@.len(),
            r@.len() == i,
            forall|j: int| 0 <= j < i ==> r@[j]@ == v@[j]@,
        decreases n - i,
    {
        r.push(clone_string(&v[i]));
        i = i + 1;
    }
    proof {
        assert(segs_view(r@) =~~= segs_view(v@));
    }
    r
}

impl SandboxFiles {
    /// Lists a directory: every file directly under it, and one entry per
    /// immediate subdirectory, each name listed once. An escaping path is
    /// invalid; a directory holding nothing (other than the root) does not
    /// exist. No order is promised: the live listing comes from the
    /// operating system's directory walk, whose order is unspecified.
    pub fn list_files(&self, path: &str) -> (r: Result<Vec<FileEntry>, ApiError>)
        requires
            self.wf(),
        ensures
            match r {
                Ok(entries) => {
                    &&& path_segments(path@) matches Some(dir) && dir_exists(self@, dir) && (
                    forall|k: Seq<Seq<char>>|
                        #[trigger] self@.contains_key(k) && strict_under(k, dir) && k.len()
                            == dir.len() + 1 ==> has_file_entry(entries@, k.last())) && (forall|
                        k: Seq<Seq<char>>,
                    |
                        #[trigger] self@.contains_key(k) && strict_under(k, dir) && k.len()
                            > dir.len() + 1 ==> has_dir_entry(entries@, k[dir.len() as int])) && (
                    forall|j: int|
                        0 <= j < entries@.len() ==> sound_entry(self@, dir, #[trigger] entries@[j]))
                        && (forall|p: int, q: int|
                        0 <= p < q < entries@.len() ==> (#[trigger] entries@[p]).name@ != (
                        #[trigger] entries@[q]).name@)
                },
                Err(e) => {
                    (path_segments(path@) is None && e == ApiError::BadRequest) || (path_segments(
                        path@,
                    ) matches Some(dir) && !dir_exists(self@, dir) && e == ApiError::NotFound)
                },
            },
    {
        let dirv = match normalize_path(path) {
            Some(v) => v,
            None => {
                return Err(ApiError::BadRequest);
            },
        };
        let ghost dv = segs_view(dirv@);
        let dn = dirv.len();
        let n = self.records.len();
        let mut entries: Vec<FileEntry> = Vec::new();
        let mut dir_names: Vec<String> = Vec::new();
        let mut found = dn == 0;
        let mut ri: usize = 0;
        while ri < n
            invariant
                0 <= ri <= n,
                n == self.records@.len(),
                self.wf(),
                dn == dirv@.len(),
                dv == segs_view(dirv@),
                found == (dn == 0 || exists|t: int|
                    0 <= t < ri && strict_under(segs_view(#[trigger] self.records@[t].segs@), dv)),
                forall|t: int|
                    0 <= t < ri && strict_under(
                        segs_view((#[trigger] self.records@[t]).segs@),
                        dv,
                    ) && segs_view(self.records@[t].segs@).len() == dv.len() + 1
                        ==> has_file_entry(entries@, segs_view(self.records@[t].segs@).last()),
                forall|t: int|
                    0 <= t < ri && strict_under(
                        segs_view((#[trigger] self.records@[t]).segs@),
                        dv,
                    ) && segs_view(self.records@[t].segs@).len() > dv.len() + 1
                        ==> has_dir_entry(
                        entries@,
                        segs_view(self.records@[t].segs@)[dv.len() as int],
                    ),
                forall|j: int|
                    0 <= j < entries@.len() ==> sound_entry(self@, dv, #[trigger] entries@[j]),
                forall|p: int|
                    0 <= p < entries@.len() && !(#[trigger] entries@[p]).is_directory
                        ==> exists|t: int|
                        0 <= t < ri && segs_view(#[trigger] self.records@[t].segs@) == dv.push(
                            entries@[p].name@,
                        ),
                forall|p: int|
                    0 <= p < entries@.len() && (#[trigger] entries@[p]).is_directory
                        ==> dir_names@.map_values(|x: String| x@).contains(entries@[p].name@),
                forall|j: int|
                    0 <= j < dir_names@.len() ==> has_dir_entry(
                        entries@,
                        (#[trigger] dir_names@[j])@,
                    ),
                forall|p: int, q: int|
                    0 <= p < q < entries@.len() ==> (#[trigger] entries@[p]).name@ != (
                    #[trigger] entries@[q]).name@,
            decreases n - ri,
        {
            let ghost es0 = entries@;
            let ghost dnames0 = dir_names@;
            if is_strict_child(&self.records[ri].segs, &dirv) {
                found = true;
                proof {
                    lemma_fmap_at(self.records@, ri as int);
                }
                let name = clone_string(&self.records[ri].segs[dn]);
                if self.records[ri].segs.len() == dn + 1 {
                    proof {
                        assert(segs_view(self.records@[ri as int].segs@) =~~= dv.push(name@));
                        assert forall|p: int| 0 <= p < es0.len() implies (#[trigger] es0[p]).name@
                            != name@ by {
                            if es0[p].name@ == name@ {
                                if !es0[p].is_directory {
                                    let t = choose|t: int|
                                        0 <= t < ri && segs_view(#[trigger] self.records@[t].segs@)
                                            == dv.push(es0[p].name@);
                                    assert(segs_view(self.records@[t].segs@) == segs_view(
                                        self.records@[ri as int].segs@,
                                    ));
                                } else {
                                    let k = choose|k: Seq<Seq<char>>|
                                        #[trigger] self@.contains_key(k) && strict_under(
                                            k,
                                            dv.push(es0[p].name@),
                                        );
                                    lemma_fmap_contains(self.records@, k);
                                    let t = choose|t: int|
                                        0 <= t < n && segs_view(self.records@[t].segs@) == k;
                                    assert(strict_under(
                                        segs_view(self.records@[t].segs@),
                                        segs_view(self.records@[ri as int].segs@),
                                    ));
                                }
                            }
                        }
                    }
                    let p = join_segments(&self.records[ri].segs);
                    entries.push(
                        FileEntry {
                            name,
                            path: p,
                            is_directory: false,
                            size: self.records[ri].data.len() as u64,
                        },
                    );
                    proof {
                        assert(entries@[entries@.len() - 1].name@ == segs_view(
                            self.records@[ri as int].segs@,
                        ).last());
                        assert(!entries@[entries@.len() - 1].is_directory);
                    }
                } else {
                    if !crate::strutil::contains_str(&dir_names, &name) {
                        let mut pv = clone_segs(&dirv);
                        pv.push(clone_string(&name));
                        proof {
                            assert(segs_view(pv@) =~~= dv.push(name@));
                            assert(strict_under(
                                segs_view(self.records@[ri as int].segs@),
                                dv.push(name@),
                            )) by {
                                assert(segs_view(self.records@[ri as int].segs@).take(
                                    dv.len() as int + 1,
                                ) =~~= dv.push(name@));
                            }
                            assert forall|p: int|
                                0 <= p < es0.len() implies (#[trigger] es0[p]).name@ != name@ by {
                                if es0[p].name@ == name@ {
                                    if es0[p].is_directory {
                                        assert(dnames0.map_values(|x: String| x@).contains(
                                            es0[p].name@,
                                        ));
                                    } else {
                                        let t = choose|t: int|
                                            0 <= t < ri && segs_view(
                                                #[trigger] self.records@[t].segs@,
                                            ) == dv.push(es0[p].name@);
                                        assert(strict_under(
                                            segs_view(self.records@[ri as int].segs@),
                                            segs_view(self.records@[t].segs@),
                                        ));
                                    }
                                }
                            }
                        }
                        let p = join_segments(&pv);
                        dir_names.push(clone_string(&name));
                        entries.push(FileEntry { name, path: p, is_directory: true, size: 0 });
                        proof {
                            assert(entries@[entries@.len() - 1].name@ == name@);
                            assert(entries@[entries@.len() - 1].is_directory);
                            assert(has_dir_entry(entries@, name@));
                            assert(dir_names@.drop_last() =~= dnames0);
                            assert(dir_names@.map_values(|x: String| x@) =~= dnames0.map_values(
                                |x: String| x@,
                            ).push(name@));
                        }
                    } else {
                        proof {
                            let mv = dnames0.map_values(|x: String| x@);
                            let j = choose|j: int| 0 <= j < mv.len() && mv[j] == name@;
                            assert(dnames0[j]@ == name@);
                            assert(has_dir_entry(entries@, name@));
                        }
                    }
                }
            }
            proof {
                assert forall|t: int|
                    0 <= t < ri + 1 && strict_under(
                        segs_view((#[trigger] self.records@[t]).segs@),
                        dv,
                    ) && segs_view(self.records@[t].segs@).len() == dv.len() + 1 implies has_file_entry(
                    entries@,
                    segs_view(self.records@[t].segs@).last(),
                ) by {
                    if t < ri {
                        let nm = segs_view(self.records@[t].segs@).last();
                        assert(has_file_entry(es0, nm));
                        let j = choose|j: int|
                            0 <= j < es0.len() && (#[trigger] es0[j]).name@ == nm
                                && !es0[j].is_directory;
                        assert(entries@[j] == es0[j]);
                    }
                }
                assert forall|t: int|
                    0 <= t < ri + 1 && strict_under(
                        segs_view((#[trigger] self.records@[t]).segs@),
                        dv,
                    ) && segs_view(self.records@[t].segs@).len() > dv.len() + 1 implies has_dir_entry(
                    entries@,
                    segs_view(self.records@[t].segs@)[dv.len() as int],
                ) by {
                    if t < ri {
                        let nm = segs_view(self.records@[t].segs@)[dv.len() as int];
                        assert(has_dir_entry(es0, nm));
                        let j = choose|j: int|
                            0 <= j < es0.len() && (#[trigger] es0[j]).name@ == nm
                                && es0[j].is_directory;
                        assert(entries@[j] == es0[j]);
                    }
                }
                assert forall|p: int|
                    0 <= p < entries@.len() && !(#[trigger] entries@[p]).is_directory implies exists|
                    t: int,
                |
                    0 <= t < ri + 1 && segs_view(#[trigger] self.records@[t].segs@) == dv.push(
                        entries@[p].name@,
                    ) by {
                    if p < es0.len() {
                        assert(entries@[p] == es0[p]);
                        let t = choose|t: int|
                            0 <= t < ri && segs_view(#[trigger] self.records@[t].segs@) == dv.push(
                                es0[p].name@,
                            );
                        assert(segs_view(self.records@[t].segs@) == dv.push(entries@[p].name@));
                    } else {
                        assert(segs_view(self.records@[ri as int].segs@) == dv.push(
                            entries@[p].name@,
                        ));
                    }
                }
                assert forall|j: int|
                    0 <= j < dir_names@.len() implies has_dir_entry(
                    entries@,
                    (#[trigger] dir_names@[j])@,
                ) by {
                    if j < dnames0.len() {
                        assert(dir_names@[j] == dnames0[j]);
                        assert(has_dir_entry(es0, dnames0[j]@));
                        let w = choose|w: int|
                            0 <= w < es0.len() && (#[trigger] es0[w]).name@ == dnames0[j]@
                                && es0[w].is_directory;
                        assert(entries@[w] == es0[w]);
                    }
                }
                assert forall|p: int|
                    0 <= p < entries@.len() && (#[trigger] entries@[p]).is_directory implies dir_names@.map_values(
                    |x: String| x@,
                ).contains(entries@[p].name@) by {
                    let mv = dir_names@.map_values(|x: String| x@);
                    if p < es0.len() {
                        assert(entries@[p] == es0[p]);
                        let mv0 = dnames0.map_values(|x: String| x@);
                        let w = choose|w: int| 0 <= w < mv0.len() && mv0[w] == es0[p].name@;
                        assert(mv[w] == dir_names@[w]@);
                        assert(dir_names@[w] == dnames0[w]);
                        assert(mv[w] == entries@[p].name@);
                    } else {
                        assert(mv[mv.len() - 1] == dir_names@[dir_names@.len() - 1]@);
                        assert(mv[mv.len() - 1] == entries@[p].name@);
                    }
                }
            }
            ri = ri + 1;
        }
        if !found {
            proof {
                if dir_exists(self@, dv) {
                    let k = choose|k: Seq<Seq<char>>|
                        #[trigger] self@.contains_key(k) && strict_under(k, dv);
                    lemma_fmap_contains(self.records@, k);
                }
            }
            return Err(ApiError::NotFound);
        }
        proof {
            if dn > 0 {
                let t = choose|t: int|
                    0 <= t < n && strict_under(segs_view(#[trigger] self.records@[t].segs@), dv);
                lemma_fmap_at(self.records@, t);
            }
            assert forall|k: Seq<Seq<char>>|
                #[trigger] self@.contains_key(k) && strict_under(k, dv) && k.len() == dv.len()
                    + 1 implies has_file_entry(entries@, k.last()) by {
                lemma_fmap_contains(self.records@, k);
                let t = choose|t: int| 0 <= t < n && segs_view(self.records@[t].segs@) == k;
                assert(strict_under(segs_view(self.records@[t].segs@), dv));
            }
            assert forall|k: Seq<Seq<char>>|
                #[trigger] self@.contains_key(k) && strict_under(k, dv) && k.len() > dv.len()
                    + 1 implies has_dir_entry(entries@, k[dv.len() as int]) by {
                lemma_fmap_contains(self.records@, k);
                let t = choose|t: int| 0 <= t < n && segs_view(self.records@[t].segs@) == k;
                assert(strict_under(segs_view(self.records@[t].segs@), dv));
            }
        }
        Ok(entries)
    }
}

/// Law: writing a file and then reading the same path hands back exactly
/// the content that was written.
pub proof fn lemma_write_then_read(
    m: Map<Seq<Seq<char>>, Seq<u8>>,
    m2: Map<Seq<Seq<char>>, Seq<u8>>,
    path: Seq<char>,
    content: Seq<char>,
)
    requires
        write_spec(m, path, content) == Result::Ok::<Map<Seq<Seq<char>>, Seq<u8>>, ApiError>(m2),
    ensures
        read_spec(m2, path) == Result::Ok::<Seq<char>, ApiError>(content),
{
    let segs = path_segments(path).unwrap();
    assert(m2 == m.insert(segs, b64_decoded(content)));
    assert(b64_of(b64_decoded(content)) == content);
}

} // verus!
