//! Reading an update archive into memory and vetting every entry's path
//! before anything is written, so that extraction is all-or-nothing.

use std::io::Cursor;
use vstd::prelude::*;
use vstd::string::*;
use zip::result::ZipError;
use zip::ZipArchive;

verus! {

#[verifier::external_type_specification]
#[verifier::external_body]
#[verifier::reject_recursive_types(R)]
pub struct ExZipArchive<R>(ZipArchive<R>);

#[verifier::external_type_specification]
#[verifier::external_body]
pub struct ExZipError(ZipError);

#[verifier::external_type_specification]
#[verifier::external_body]
#[verifier::reject_recursive_types(T)]
pub struct ExCursor<T>(Cursor<T>);

/// Why an archive could not be extracted.
#[derive(Debug, Clone, PartialEq, Eq)]
pub enum ExtractError {
    /// The archive is unreadable or corrupt.
    BadArchive,
    /// Writing the given path failed.
    IoFailure(String),
    /// An entry's path would resolve outside the destination.
    PathTraversal,
}

/// One vetted archive entry: its relative path, whether it is a directory,
/// and, for a file, its contents.
pub struct StagedEntry {
    pub name: String,
    pub is_dir: bool,
    pub data: Vec<u8>,
}

/// Whether `c` separates path components (either slash).
pub open spec fn is_separator(c: char) -> bool {
    c == '/' || c == '\\'
}

/// The components of `s` between separators, in order (always at least one).
pub open spec fn split_path(s: Seq<char>) -> Seq<Seq<char>>
    decreases s.len(),
{
    if s.len() == 0 {
        seq![Seq::empty()]
    } else {
        let rest = split_path(s.drop_last());
        if is_separator(s.last()) {
            rest.push(Seq::empty())
        } else {
            rest.update(rest.len() - 1, rest.last().push(s.last()))
        }
    }
}

/// How a component moves the depth below the destination: `..` climbs one
/// level, an empty component or `.` stays, any other descends one.
pub open spec fn depth_change(c: Seq<char>) -> int {
    if c == seq!['.', '.'] {
        -1
    } else if c.len() == 0 || c == seq!['.'] {
        0
    } else {
        1
    }
}

/// The depth below the destination after the components `comps`.
pub open spec fn depth_of(comps: Seq<Seq<char>>) -> int
    decreases comps.len(),
{
    if comps.len() == 0 {
        0
    } else {
        depth_of(comps.drop_last()) + depth_change(comps.last())
    }
}

/// Whether some leading run of the components of `s` climbs above the
/// destination.
pub open spec fn climbs_above_root(s: Seq<char>) -> bool {
    exists|j: int|
        0 <= j <= split_path(s).len() && #[trigger] depth_of(split_path(s).take(j)) < 0
}

/// Whether `s` begins with a drive prefix such as `C:`.
pub open spec fn has_drive_prefix(s: Seq<char>) -> bool {
    s.len() >= 2 && s[1] == ':'
}

/// Whether an entry name stays inside the destination when joined to it: it
/// does not start at a root (a leading separator or a drive prefix), and no
/// leading run of its components climbs above the destination.
pub open spec fn is_safe_entry_name(s: Seq<char>) -> bool {
    &&& !(s.len() > 0 && is_separator(s[0]))
    &&& !has_drive_prefix(s)
    &&& !climbs_above_root(s)
}

/// Whether an entry name denotes a directory (it ends in a slash).
pub open spec fn is_dir_entry_name(s: Seq<char>) -> bool {
    s.len() > 0 && s.last() == '/'
}

proof fn lemma_depth_bound(comps: Seq<Seq<char>>)
    ensures
        -(comps.len() as int) <= depth_of(comps) <= comps.len(),
    decreases comps.len(),
{
    if comps.len() > 0 {
        lemma_depth_bound(comps.drop_last());
    }
}

/// Climbing above the root somewhere in `done.push(c)` means climbing above
/// it somewhere in `done`, or after all of it.
proof fn lemma_climb_push(done: Seq<Seq<char>>, c: Seq<char>)
    ensures
        (exists|j: int| 0 <= j <= done.len() + 1 && #[trigger] depth_of(done.push(c).take(j)) < 0)
            <==> ((exists|j: int| 0 <= j <= done.len() && #[trigger] depth_of(done.take(j)) < 0)
            || depth_of(done) + depth_change(c) < 0),
{
    let full = done.push(c);
    assert(full.take(full.len() as int) =~= full);
    assert(full.drop_last() =~= done);
    if exists|j: int| 0 <= j <= done.len() + 1 && #[trigger] depth_of(full.take(j)) < 0 {
        let j = choose|j: int| 0 <= j <= done.len() + 1 && #[trigger] depth_of(full.take(j)) < 0;
        if j <= done.len() {
            assert(full.take(j) =~= done.take(j));
        }
    }
    if exists|j: int| 0 <= j <= done.len() && #[trigger] depth_of(done.take(j)) < 0 {
        let j = choose|j: int| 0 <= j <= done.len() && #[trigger] depth_of(done.take(j)) < 0;
        assert(full.take(j) =~= done.take(j));
        assert(depth_of(full.take(j)) < 0);
    }
    if depth_of(done) + depth_change(c) < 0 {
        assert(depth_of(full.take(full.len() as int)) < 0);
    }
}

/// Decides whether an entry name is safe to join to the destination.
pub fn entry_is_safe(name: &str) -> (r: bool)
    ensures
        r == is_safe_entry_name(name@),
{
    let n = name.unicode_len();
    if n > 0 {
        let first = name.get_char(0);
        if first == '/' || first == '\\' {
            return false;
        }
    }
    if n >= 2 && name.get_char(1) == ':' {
        return false;
    }
    let mut depth: i128 = 0;
    let mut climbed: bool = false;
    let mut cur_len: usize = 0;
    let mut cur_dots: bool = true;
    let mut i: usize = 0;
    while i < n
        invariant
            n == name@.len(),
            i <= n,
            cur_len <= i,
            split_path(name@.take(i as int)).len() >= 1,
            split_path(name@.take(i as int)).len() - 1 <= i,
            depth == depth_of(split_path(name@.take(i as int)).drop_last()),
            climbed == exists|j: int|
                0 <= j <= split_path(name@.take(i as int)).len() - 1 && #[trigger] depth_of(
                    split_path(name@.take(i as int)).drop_last().take(j),
                ) < 0,
            cur_len == split_path(name@.take(i as int)).last().len(),
            cur_dots == forall|t: int|
                0 <= t < cur_len ==> #[trigger] split_path(name@.take(i as int)).last()[t] == '.',
        decreases n - i,
    {
        let c = name.get_char(i);
        let ghost pre = name@.take(i as int);
        let ghost post = name@.take(i as int + 1);
        let ghost comps = split_path(pre);
        let ghost done = comps.drop_last();
        let ghost cur = comps.last();
        proof {
            assert(post.drop_last() =~= pre);
            assert(post.last() == c);
            lemma_depth_bound(done);
            assert(cur_dots && cur_len == 2 <==> cur == seq!['.', '.']) by {
                if cur == seq!['.', '.'] {
                    assert(cur[0] == '.' && cur[1] == '.');
                }
                if cur_dots && cur_len == 2 {
                    assert(cur[0] == '.' && cur[1] == '.');
                    assert(cur =~= seq!['.', '.']);
                }
            }
            assert(cur_dots && cur_len == 1 <==> cur == seq!['.']) by {
                if cur == seq!['.'] {
                    assert(cur[0] == '.');
                }
                if cur_dots && cur_len == 1 {
                    assert(cur[0] == '.');
                    assert(cur =~= seq!['.']);
                }
            }
        }
        if c == '/' || c == '\\' {
            let step: i128 = if cur_len == 0 || (cur_dots && cur_len == 1) {
                0
            } else if cur_dots && cur_len == 2 {
                -1
            } else {
                1
            };
            assert(step == depth_change(cur));
            depth = depth + step;
            climbed = climbed || depth < 0;
            cur_len = 0;
            cur_dots = true;
            proof {
                let comps2 = split_path(post);
                assert(comps2 == comps.push(Seq::<char>::empty()));
                assert(comps2.drop_last() =~= comps);
                assert(done.push(cur) =~= comps);
                assert(comps.drop_last() =~= done);
                lemma_climb_push(done, cur);
            }
        } else {
            cur_dots = cur_dots && c == '.';
            cur_len = cur_len + 1;
            proof {
                let comps2 = split_path(post);
                let next = cur.push(c);
                assert(comps2 == comps.update(comps.len() - 1, next));
                assert(comps2.drop_last() =~= done);
                assert(comps2.last() == next);
                assert(cur_dots == forall|t: int| 0 <= t < cur_len ==> #[trigger] next[t] == '.') by {
                    if cur_dots {
                        assert forall|t: int| 0 <= t < cur_len implies #[trigger] next[t] == '.' by {
                            if t < cur.len() {
                                assert(next[t] == cur[t]);
                            }
                        }
                    } else {
                        if c != '.' {
                            assert(next[cur.len() as int] != '.');
                        } else {
                            let t = choose|t: int| 0 <= t < cur.len() && #[trigger] cur[t] != '.';
                            assert(next[t] == cur[t]);
                        }
                    }
                }
            }
        }
        i = i + 1;
    }
    let ghost comps = split_path(name@);
    let ghost done = comps.drop_last();
    let ghost cur = comps.last();
    proof {
        assert(name@.take(n as int) =~= name@);
        lemma_depth_bound(done);
        assert(done.push(cur) =~= comps);
        lemma_climb_push(done, cur);
        assert(cur_dots && cur_len == 2 <==> cur == seq!['.', '.']) by {
            if cur == seq!['.', '.'] {
                assert(cur[0] == '.' && cur[1] == '.');
            }
            if cur_dots && cur_len == 2 {
                assert(cur[0] == '.' && cur[1] == '.');
                assert(cur =~= seq!['.', '.']);
            }
        }
        assert(cur_dots && cur_len == 1 <==> cur == seq!['.']) by {
            if cur == seq!['.'] {
                assert(cur[0] == '.');
            }
            if cur_dots && cur_len == 1 {
                assert(cur[0] == '.');
                assert(cur =~= seq!['.']);
            }
        }
    }
    let step: i128 = if cur_len == 0 || (cur_dots && cur_len == 1) {
        0
    } else if cur_dots && cur_len == 2 {
        -1
    } else {
        1
    };
    assert(step == depth_change(cur));
    !(climbed || depth + step < 0)
}

/// Decides how an entry is extracted: `Ok(true)` for a directory, `Ok(false)`
/// for a file, and `PathTraversal` when its path would leave the destination.
pub fn classify_entry(name: &str) -> (r: Result<bool, ExtractError>)
    ensures
        is_safe_entry_name(name@) ==> r == Ok::<bool, ExtractError>(is_dir_entry_name(name@)),
        !is_safe_entry_name(name@) ==> r == Err::<bool, ExtractError>(ExtractError::PathTraversal),
{
    if !entry_is_safe(name) {
        return Err(ExtractError::PathTraversal);
    }
    let n = name.unicode_len();
    if n == 0 {
        return Ok(false);
    }
    Ok(name.get_char(n - 1) == '/')
}

/// Whether zip reads `bytes` as an archive.
pub uninterp spec fn zip_opens(bytes: Seq<u8>) -> bool;

/// The stored names of the entries zip finds in `bytes`, in index order.
pub uninterp spec fn zip_names(bytes: Seq<u8>) -> Seq<Seq<char>>;

/// The contents zip decompresses for entry `i` of `bytes`, if it can.
pub uninterp spec fn zip_data(bytes: Seq<u8>, i: int) -> Option<Seq<u8>>;

/// The bytes an opened archive reads from.
pub uninterp spec fn archive_bytes(archive: ZipArchive<Cursor<Vec<u8>>>) -> Seq<u8>;

/// Whether entry `k` of `bytes` can be extracted: its name is safe and, for
/// a file, its contents can be read.
pub open spec fn entry_ok(bytes: Seq<u8>, k: int) -> bool {
    &&& is_safe_entry_name(zip_names(bytes)[k])
    &&& (is_dir_entry_name(zip_names(bytes)[k]) || zip_data(bytes, k) is Some)
}

/// Whether the whole archive `bytes` can be extracted.
pub open spec fn archive_accepted(bytes: Seq<u8>) -> bool {
    zip_opens(bytes) && forall|k: int| 0 <= k < zip_names(bytes).len() ==> #[trigger] entry_ok(bytes, k)
}

/// Whether the first entry of `bytes` that cannot be extracted fails on its
/// path rather than on its contents.
pub open spec fn first_failure_is_traversal(bytes: Seq<u8>) -> bool {
    zip_opens(bytes) && exists|k: int|
        0 <= k < zip_names(bytes).len() && !is_safe_entry_name(#[trigger] zip_names(bytes)[k])
            && forall|j: int| 0 <= j < k ==> entry_ok(bytes, j)
}

/// Whether `es` holds entry `k` of `bytes` at each index `k`: its name, its
/// kind, and (for a file) its contents.
pub open spec fn stages_archive(bytes: Seq<u8>, es: Seq<StagedEntry>) -> bool {
    &&& es.len() == zip_names(bytes).len()
    &&& forall|k: int|
        0 <= k < es.len() ==> {
            &&& (#[trigger] es[k]).name@ == zip_names(bytes)[k]
            &&& is_safe_entry_name(es[k].name@)
            &&& es[k].is_dir == is_dir_entry_name(es[k].name@)
            &&& es[k].is_dir ==> es[k].data@.len() == 0
            &&& !es[k].is_dir ==> zip_data(bytes, k) == Some(es[k].data@)
        }
}

proof fn lemma_parent_first_component(s: Seq<char>)
    requires
        s.len() >= 3,
        s[0] == '.',
        s[1] == '.',
        is_separator(s[2]),
    ensures
        split_path(s).len() >= 2,
        split_path(s)[0] == seq!['.', '.'],
    decreases s.len(),
{
    let p = s.drop_last();
    if s.len() == 3 {
        let one = p.drop_last();
        assert(one.drop_last() =~= Seq::<char>::empty());
        let e = Seq::<char>::empty();
        assert(one.len() == 1 && one.last() == '.');
        assert(split_path(e) == seq![e]);
        assert(split_path(one) =~= seq![e].update(0, e.push('.')));
        assert(seq![e].update(0, e.push('.')) =~= seq![e.push('.')]);
        assert(split_path(p) == seq![Seq::<char>::empty().push('.').push('.')]);
        assert(Seq::<char>::empty().push('.').push('.') =~= seq!['.', '.']);
    } else {
        lemma_parent_first_component(p);
    }
}

/// An entry whose path begins with a `..` component climbs above the
/// destination, so it is never safe to extract.
pub proof fn lemma_leading_parent_is_unsafe(s: Seq<char>)
    requires
        s.len() >= 3,
        s[0] == '.',
        s[1] == '.',
        is_separator(s[2]),
    ensures
        !is_safe_entry_name(s),
{
    lemma_parent_first_component(s);
    let comps = split_path(s);
    let first = comps.take(1);
    assert(first.drop_last() =~= Seq::<Seq<char>>::empty());
    assert(first.last() == seq!['.', '.']);
    assert(depth_of(Seq::<Seq<char>>::empty()) == 0);
    assert(depth_of(first.drop_last()) == 0);
    assert(depth_change(first.last()) == -1);
    assert(depth_of(first) == -1);
    assert(0 <= 1 <= comps.len());
}

/// An archive with an entry whose path is unsafe is never accepted, so
/// reading it yields an error and none of its entries is staged.
pub proof fn lemma_unsafe_entry_rejects_archive(bytes: Seq<u8>, k: int)
    requires
        0 <= k < zip_names(bytes).len(),
        !is_safe_entry_name(zip_names(bytes)[k]),
    ensures
        !archive_accepted(bytes),
{
    assert(!entry_ok(bytes, k));
}

/// Relies on zip::ZipArchive::new: reads the central directory of an
/// archive held in memory, failing on a corrupt one.
#[verifier::external_body]
fn open_archive(bytes: Vec<u8>) -> (r: Result<ZipArchive<Cursor<Vec<u8>>>, ZipError>)
    ensures
        r is Ok <==> zip_opens(bytes@),
        r matches Ok(a) ==> archive_bytes(a) == bytes@,
{
    ZipArchive::new(Cursor::new(bytes))
}

/// Relies on zip::ZipArchive::len: the number of entries.
#[verifier::external_body]
fn archive_len(archive: &ZipArchive<Cursor<Vec<u8>>>) -> (r: usize)
    ensures
        r == zip_names(archive_bytes(*archive)).len(),
{
    archive.len()
}

/// Relies on zip::ZipArchive::name_for_index: the stored name of an entry,
/// present for every index below the entry count.
#[verifier::external_body]
fn entry_name(archive: &ZipArchive<Cursor<Vec<u8>>>, i: usize) -> (r: Option<String>)
    ensures
        i < zip_names(archive_bytes(*archive)).len() ==> (r is Some && r->Some_0@ == zip_names(
            archive_bytes(*archive),
        )[i as int]),
{
    archive.name_for_index(i).map(|s| s.to_string())
}

/// Relies on zip::ZipArchive::by_index: the decompressed contents of an
/// entry, read to the end. The archive's bytes are not changed.
#[verifier::external_body]
fn entry_data(archive: &mut ZipArchive<Cursor<Vec<u8>>>, i: usize) -> (r: Result<Vec<u8>, ZipError>)
    ensures
        archive_bytes(*final(archive)) == archive_bytes(*old(archive)),
        r is Ok <==> zip_data(archive_bytes(*old(archive)), i as int) is Some,
        r matches Ok(d) ==> zip_data(archive_bytes(*old(archive)), i as int) == Some(d@),
{
    let mut file = archive.by_index(i)?;
    let mut data = Vec::new();
    std::io::Read::read_to_end(&mut file, &mut data)?;
    Ok(data)
}

/// Reads every entry of an archive into memory, in index order, and vets its
/// path. Nothing is written: on success every entry is safe to join to the
/// destination, so a caller can stage the whole set and promote it at once.
/// The first entry that cannot be extracted decides the error.
pub fn read_archive(bytes: Vec<u8>) -> (r: Result<Vec<StagedEntry>, ExtractError>)
    ensures
        r is Ok <==> archive_accepted(bytes@),
        r matches Ok(es) ==> stages_archive(bytes@, es@),
        !zip_opens(bytes@) ==> r == Err::<Vec<StagedEntry>, ExtractError>(ExtractError::BadArchive),
        r matches Err(e) ==> (e is BadArchive || e is PathTraversal),
        r matches Err(e) ==> (e is PathTraversal <==> first_failure_is_traversal(bytes@)),
{
    let ghost b = bytes@;
    let mut archive = match open_archive(bytes) {
        Ok(a) => a,
        Err(_) => return Err(ExtractError::BadArchive),
    };
    let n = archive_len(&archive);
    let mut out: Vec<StagedEntry> = Vec::new();
    let mut i: usize = 0;
    while i < n
        invariant
            b == bytes@,
            zip_opens(b),
            archive_bytes(archive) == b,
            n == zip_names(b).len(),
            i <= n,
            out@.len() == i,
            forall|j: int| 0 <= j < i ==> #[trigger] entry_ok(b, j),
            forall|k: int|
                0 <= k < out@.len() ==> {
                    &&& (#[trigger] out@[k]).name@ == zip_names(b)[k]
                    &&& is_safe_entry_name(out@[k].name@)
                    &&& out@[k].is_dir == is_dir_entry_name(out@[k].name@)
                    &&& out@[k].is_dir ==> out@[k].data@.len() == 0
                    &&& !out@[k].is_dir ==> zip_data(b, k) == Some(out@[k].data@)
                },
        decreases n - i,
    {
        let name = match entry_name(&archive, i) {
            Some(s) => s,
            None => return Err(ExtractError::BadArchive),
        };
        let is_dir = match classify_entry(name.as_str()) {
            Ok(d) => d,
            Err(e) => {
                assert(!is_safe_entry_name(zip_names(b)[i as int]));
                assert(!entry_ok(b, i as int));
                assert(first_failure_is_traversal(b));
                return Err(e);
            },
        };
        let data = if is_dir {
            Vec::new()
        } else {
            match entry_data(&mut archive, i) {
                Ok(d) => d,
                Err(_) => {
                    assert(!entry_ok(b, i as int));
                    assert(!first_failure_is_traversal(b)) by {
                        if first_failure_is_traversal(b) {
                            let k = choose|k: int|
                                0 <= k < zip_names(b).len() && !is_safe_entry_name(
                                    #[trigger] zip_names(b)[k],
                                ) && forall|j: int| 0 <= j < k ==> entry_ok(b, j);
                            if k < i {
                                assert(entry_ok(b, k));
                            } else if k > i {
                                assert(entry_ok(b, i as int));
                            }
                        }
                    }
                    return Err(ExtractError::BadArchive);
                },
            }
        };
        assert(entry_ok(b, i as int));
        out.push(StagedEntry { name, is_dir, data });
        i = i + 1;
    }
    Ok(out)
}

} // verus!
